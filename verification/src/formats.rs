//! Telling text files from binary files by their first bytes.
use vstd::prelude::*;
use crate::ids::{after_last, last_component, plainly_named, simple_path};

verus! {

/// Whether a byte is printable ASCII or ASCII whitespace (space, tab, line
/// feed, form feed, carriage return).
pub open spec fn is_text_byte(b: u8) -> bool {
    (0x21 <= b && b <= 0x7e) || b == 0x20 || b == 0x09 || b == 0x0a || b == 0x0c || b == 0x0d
}

/// Whether a byte may occur in a text file as the solution loader sees it:
/// a line feed, carriage return, tab, or a byte from space to '~'.
pub open spec fn is_plain_text_byte(b: u8) -> bool {
    b == 0x0a || b == 0x0d || b == 0x09 || (0x20 <= b && b < 0x7f)
}

/// Whether the first 500 bytes (or all, if fewer) are plain text bytes.
pub open spec fn plain_text_prefix(data: Seq<u8>) -> bool {
    forall|u: int| 0 <= u < data.len() && u < 500 ==> is_plain_text_byte(#[trigger] data[u])
}

/// Whether the first 100 bytes (or all, if fewer) are text bytes.
pub open spec fn text_prefix(data: Seq<u8>) -> bool {
    forall|u: int| 0 <= u < data.len() && u < 100 ==> is_text_byte(#[trigger] data[u])
}

/// Whether the first 500 bytes of a file look like text.
pub fn is_likely_text(data: &[u8]) -> (b: bool)
    ensures
        b == plain_text_prefix(data@),
{
    let mut k: usize = 0;
    while k < data.len() && k < 500
        invariant
            k <= data@.len(),
            k <= 500,
            forall|u: int| 0 <= u < k ==> is_plain_text_byte(#[trigger] data@[u]),
        decreases data@.len() - k,
    {
        let c = data[k];
        if !(c == 0x0a || c == 0x0d || c == 0x09 || (c >= 0x20 && c < 0x7f)) {
            assert(!is_plain_text_byte(data@[k as int]));
            return false;
        }
        k = k + 1;
    }
    true
}

/// The format of a PLOT3D file as far as its first bytes tell.
#[derive(Debug, Clone, Copy, PartialEq, Eq, Structural)]
pub enum FileFormat {
    Ascii,
    Binary,
    Unknown,
}

/// The name of a format.
pub open spec fn spec_format_str(f: FileFormat) -> Seq<char> {
    match f {
        FileFormat::Ascii => "ascii"@,
        FileFormat::Binary => "binary"@,
        FileFormat::Unknown => "unknown"@,
    }
}

impl FileFormat {
    /// The name of the format: "ascii", "binary" or "unknown".
    pub fn as_str(&self) -> (s: &'static str)
        ensures
            s@ == spec_format_str(*self),
    {
        match self {
            FileFormat::Ascii => "ascii",
            FileFormat::Binary => "binary",
            FileFormat::Unknown => "unknown",
        }
    }
}

/// The format of a file's contents: unknown under four bytes, ASCII when
/// its first 100 bytes are all printable or whitespace, else binary.
pub open spec fn spec_contents_format(data: Seq<u8>) -> FileFormat {
    if data.len() < 4 {
        FileFormat::Unknown
    } else if text_prefix(data) {
        FileFormat::Ascii
    } else {
        FileFormat::Binary
    }
}

/// ASCII text decides the format: data of at least four bytes whose first
/// 100 bytes (or all, if fewer) are each a printable ASCII character
/// (0x21 to 0x7E) or ASCII white space (space, tab, line feed, form feed or
/// carriage return) is ASCII, and data with any other byte among them is
/// binary.
pub proof fn law_ascii_bytes_make_ascii(data: Seq<u8>)
    requires
        data.len() >= 4,
    ensures
        (forall|u: int| 0 <= u < data.len() && u < 100 ==> {
            let b = #[trigger] data[u];
            (0x21 <= b && b <= 0x7e) || b == 0x20 || b == 0x09 || b == 0x0a || b == 0x0c || b == 0x0d
        }) ==> spec_contents_format(data) == FileFormat::Ascii,
        (exists|u: int| 0 <= u < data.len() && u < 100 && {
            let b = #[trigger] data[u];
            !((0x21 <= b && b <= 0x7e) || b == 0x20 || b == 0x09 || b == 0x0a || b == 0x0c || b == 0x0d)
        }) ==> spec_contents_format(data) == FileFormat::Binary,
{
}

/// Line endings do not matter: turning a carriage return into a space (or
/// the reverse) never changes the format found, so text with Windows line
/// endings is as much ASCII as text with Unix ones.
pub proof fn law_carriage_return_is_white_space(data: Seq<u8>, u: int)
    requires
        0 <= u < data.len(),
        data[u] == 0x0d,
    ensures
        spec_contents_format(data.update(u, 0x20)) == spec_contents_format(data),
        plain_text_prefix(data.update(u, 0x20)) == plain_text_prefix(data),
{
    let d = data.update(u, 0x20);
    if text_prefix(data) {
        assert forall|k: int| 0 <= k < d.len() && k < 100 implies is_text_byte(#[trigger] d[k]) by {
            assert(is_text_byte(data[k]));
        }
    }
    if text_prefix(d) {
        assert forall|k: int| 0 <= k < data.len() && k < 100 implies is_text_byte(#[trigger] data[k]) by {
            assert(is_text_byte(d[k]));
        }
    }
    if plain_text_prefix(data) {
        assert forall|k: int| 0 <= k < d.len() && k < 500 implies is_plain_text_byte(#[trigger] d[k]) by {
            assert(is_plain_text_byte(data[k]));
        }
    }
    if plain_text_prefix(d) {
        assert forall|k: int| 0 <= k < data.len() && k < 500 implies is_plain_text_byte(#[trigger] data[k]) by {
            assert(is_plain_text_byte(d[k]));
        }
    }
}

/// Classifies a file's contents.
pub fn contents_format(data: &[u8]) -> (f: FileFormat)
    ensures
        f == spec_contents_format(data@),
{
    if data.len() < 4 {
        return FileFormat::Unknown;
    }
    let mut k: usize = 0;
    while k < data.len() && k < 100
        invariant
            k <= data@.len(),
            k <= 100,
            data@.len() >= 4,
            forall|u: int| 0 <= u < k ==> is_text_byte(#[trigger] data@[u]),
        decreases data@.len() - k,
    {
        let c = data[k];
        if !((c >= 0x21 && c <= 0x7e) || c == 0x20 || c == 0x09 || c == 0x0a || c == 0x0c || c == 0x0d) {
            assert(!is_text_byte(data@[k as int]));
            return FileFormat::Binary;
        }
        k = k + 1;
    }
    FileFormat::Ascii
}

/// Whether an extension marks a solution ("q") or function ("f") file.
pub open spec fn is_qf_extension(ext: Option<Seq<char>>) -> bool {
    ext == Some("q"@) || ext == Some("f"@)
}

/// The extension of a file name, as `Path::extension` documents it: none
/// when the name has no '.' or its only '.' starts it; otherwise the text
/// after the last '.'.
pub open spec fn extension_of(name: Seq<char>) -> Option<Seq<char>> {
    let e = after_last(name, '.');
    if e.len() == name.len() || e.len() + 1 == name.len() {
        None
    } else {
        Some(e)
    }
}

/// The extension of a path, as text: `Path::new(path).extension()` converted
/// with `OsStr::to_str` (always valid for text). `Path::extension` takes the
/// file name and returns the text after its last '.', or `None` when there
/// is no '.' or the name starts with its only '.'. What the file name is
/// depends on the platform's path syntax, so the value is claimed only for
/// paths read alike everywhere whose text after the last '/' is an ordinary
/// file name; on such simple paths an extension holds no '/', and on every
/// path a '.' is needed for one.
#[verifier::external_body]
fn path_extension(path: &str) -> (r: Option<String>)
    ensures
        simple_path(path@) ==> (r matches Some(e) ==> forall|u: int| 0 <= u < e@.len() ==> e@[u] != '/'),
        r is Some ==> path@.contains('.'),
        plainly_named(path@) ==> match r {
            Some(e) => extension_of(last_component(path@)) == Some(e@),
            None => extension_of(last_component(path@)) is None,
        },
{
    match std::path::Path::new(path).extension() {
        Some(e) => match e.to_str() {
            Some(t) => Some(t.to_string()),
            None => None,
        },
        None => None,
    }
}

/// Whether an extension, given as text, is "q" or "f".
pub fn is_solution_or_function_extension(ext: Option<&str>) -> (b: bool)
    ensures
        b == is_qf_extension(match ext { Some(e) => Some(e@), None => None }),
{
    proof {
        reveal_strlit("q");
        reveal_strlit("f");
    }
    match ext {
        Some(e) => crate::solution::str_equals(e, "q") || crate::solution::str_equals(e, "f"),
        None => false,
    }
}

/// Whether a file's contents decide its format: only files with the
/// extension "q" or "f" are looked into; the format of others is unknown.
pub fn contents_decide_format(path: &str) -> (b: bool)
    ensures
        exists|ext: Option<Seq<char>>| b == #[trigger] is_qf_extension(ext),
        b ==> path@.contains('.'),
        plainly_named(path@) ==> b == is_qf_extension(extension_of(last_component(path@))),
{
    let ext = path_extension(path);
    let b = match &ext {
        Some(e) => is_solution_or_function_extension(Some(e.as_str())),
        None => is_solution_or_function_extension(None),
    };
    let ghost g: Option<Seq<char>> = match ext { Some(ref e) => Some(e@), None => None };
    assert(b == is_qf_extension(g));
    b
}

} // verus!
