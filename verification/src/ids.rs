//! Identifiers of cached grids and solutions, and the metadata records that
//! describe a cached grid or solution without its arrays.
use vstd::prelude::*;
use vstd::string::StringExecFns;
use crate::types::GridDimensions;
use crate::ascii::is_digit;

verus! {

/// The decimal digit character for `d` (0 to 9).
pub open spec fn digit_char(d: nat) -> char {
    if d == 0 { '0' }
    else if d == 1 { '1' }
    else if d == 2 { '2' }
    else if d == 3 { '3' }
    else if d == 4 { '4' }
    else if d == 5 { '5' }
    else if d == 6 { '6' }
    else if d == 7 { '7' }
    else if d == 8 { '8' }
    else { '9' }
}

/// The decimal representation of `n`, without leading zeros ("0" for zero).
pub open spec fn decimal(n: nat) -> Seq<char>
    decreases n,
{
    if n < 10 {
        seq![digit_char(n)]
    } else {
        decimal(n / 10).push(digit_char(n % 10))
    }
}

/// The number that a string of decimal digits denotes.
pub open spec fn digits_value(s: Seq<char>) -> nat
    decreases s.len(),
{
    if s.len() == 0 {
        0
    } else {
        digits_value(s.drop_last()) * 10 + digit_of(s.last())
    }
}

/// The value of a decimal digit character.
pub open spec fn digit_of(c: char) -> nat {
    if c == '1' { 1 }
    else if c == '2' { 2 }
    else if c == '3' { 3 }
    else if c == '4' { 4 }
    else if c == '5' { 5 }
    else if c == '6' { 6 }
    else if c == '7' { 7 }
    else if c == '8' { 8 }
    else if c == '9' { 9 }
    else { 0 }
}

proof fn lemma_digit_char(d: nat)
    requires
        d < 10,
    ensures
        is_digit(digit_char(d)),
        digit_of(digit_char(d)) == d,
{
}

proof fn lemma_decimal_shape(n: nat)
    ensures
        decimal(n).len() >= 1,
        forall|t: int| 0 <= t < decimal(n).len() ==> is_digit(#[trigger] decimal(n)[t]),
        digits_value(decimal(n)) == n,
    decreases n,
{
    lemma_digit_char(n % 10);
    let d = decimal(n);
    if n < 10 {
        assert(n % 10 == n);
        assert(d.drop_last() =~= Seq::<char>::empty());
        assert(digits_value(Seq::<char>::empty()) == 0);
        assert(d.last() == digit_char(n));
        assert(digits_value(d) == digits_value(d.drop_last()) * 10 + digit_of(d.last()));
    } else {
        lemma_decimal_shape(n / 10);
        assert(d.drop_last() =~= decimal(n / 10));
        assert(d.last() == digit_char(n % 10));
        assert(digits_value(d) == digits_value(d.drop_last()) * 10 + digit_of(d.last()));
        assert(n == (n / 10) * 10 + n % 10);
        assert forall|t: int| 0 <= t < d.len() implies is_digit(#[trigger] d[t]) by {
            if t < d.len() - 1 {
                assert(d[t] == decimal(n / 10)[t]);
            }
        }
    }
}

/// Distinct numbers have distinct decimal representations.
proof fn lemma_decimal_injective(a: nat, b: nat)
    requires
        decimal(a) == decimal(b),
    ensures
        a == b,
{
    lemma_decimal_shape(a);
    lemma_decimal_shape(b);
}

/// Identifiers issued with different counter values differ, whatever their
/// file names, indices and stamps: the counter is the run of digits between
/// the prefix and the next '_', so an identifier names its counter value.
/// Every identifier a counter issues is therefore unique.
pub proof fn law_ids_unique(
    prefix: Seq<char>,
    c1: nat,
    c2: nat,
    n1: Option<Seq<char>>,
    n2: Option<Seq<char>>,
    i1: nat,
    i2: nat,
    s1: nat,
    s2: nat,
)
    requires
        c1 != c2,
    ensures
        id_text(prefix, c1, n1, i1, s1) != id_text(prefix, c2, n2, i2, s2),
{
    let x1 = decimal(c1);
    let x2 = decimal(c2);
    lemma_decimal_shape(c1);
    lemma_decimal_shape(c2);
    let a = id_text(prefix, c1, n1, i1, s1);
    let b = id_text(prefix, c2, n2, i2, s2);
    let h1 = prefix + x1 + "_"@;
    let h2 = prefix + x2 + "_"@;
    reveal_strlit("_");
    assert(a == h1 + (shown_name(n1) + "_idx"@ + decimal(i1) + "_"@ + decimal(s1))) by {
        assert(a =~= h1 + (shown_name(n1) + "_idx"@ + decimal(i1) + "_"@ + decimal(s1)));
    }
    assert(b == h2 + (shown_name(n2) + "_idx"@ + decimal(i2) + "_"@ + decimal(s2))) by {
        assert(b =~= h2 + (shown_name(n2) + "_idx"@ + decimal(i2) + "_"@ + decimal(s2)));
    }
    let l = prefix.len() as int;
    if a == b {
        if x1.len() == x2.len() {
            assert(x1 =~= a.subrange(l, l + x1.len()));
            assert(x2 =~= b.subrange(l, l + x2.len()));
            lemma_decimal_injective(c1, c2);
        } else if x1.len() < x2.len() {
            let p = l + x1.len();
            assert(a[p] == h1[p]);
            assert(h1[p] == '_');
            assert(b[p] == h2[p]);
            assert(h2[p] == x2[p - l]);
            assert(is_digit(x2[p - l]));
        } else {
            let p = l + x2.len();
            assert(b[p] == h2[p]);
            assert(h2[p] == '_');
            assert(a[p] == h1[p]);
            assert(h1[p] == x1[p - l]);
            assert(is_digit(x1[p - l]));
        }
    }
}

/// A one-character string holding the digit `d`.
fn digit_str(d: u8) -> (s: &'static str)
    requires
        d < 10,
    ensures
        s@ == seq![digit_char(d as nat)],
{
    proof {
        reveal_strlit("0");
        reveal_strlit("1");
        reveal_strlit("2");
        reveal_strlit("3");
        reveal_strlit("4");
        reveal_strlit("5");
        reveal_strlit("6");
        reveal_strlit("7");
        reveal_strlit("8");
        reveal_strlit("9");
    }
    if d == 0 { "0" }
    else if d == 1 { "1" }
    else if d == 2 { "2" }
    else if d == 3 { "3" }
    else if d == 4 { "4" }
    else if d == 5 { "5" }
    else if d == 6 { "6" }
    else if d == 7 { "7" }
    else if d == 8 { "8" }
    else { "9" }
}

/// Appends the decimal representation of `n`.
pub fn push_decimal(s: &mut String, n: u128)
    ensures
        final(s)@ == old(s)@ + decimal(n as nat),
    decreases n,
{
    if n >= 10 {
        push_decimal(s, n / 10);
    }
    let d = (n % 10) as u8;
    s.append(digit_str(d));
    proof {
        if n < 10 {
            assert(final(s)@ =~= old(s)@ + decimal(n as nat));
        } else {
            assert(decimal(n as nat) == decimal((n / 10) as nat).push(digit_char((n % 10) as nat)));
        }
    }
}

/// The identifier of a cached item: `{prefix}{counter}_{name}_idx{index}_{stamp}`,
/// where `name` is the file name or "unknown".
pub open spec fn id_text(prefix: Seq<char>, counter: nat, name: Option<Seq<char>>, index: nat, stamp: nat) -> Seq<char> {
    let shown = shown_name(name);
    prefix + decimal(counter) + "_"@ + shown + "_idx"@ + decimal(index) + "_"@ + decimal(stamp)
}

/// The name shown for a file: its name, or "unknown".
pub open spec fn shown_name(name: Option<Seq<char>>) -> Seq<char> {
    match name {
        Some(n) => n,
        None => "unknown"@,
    }
}

/// Whether `n` can be a path component: not empty and without '/'.
pub open spec fn component_like(n: Seq<char>) -> bool {
    n.len() > 0 && forall|u: int| 0 <= u < n.len() ==> n[u] != '/'
}

/// Whether a path's last component is "..".
pub open spec fn ends_in_parent(p: Seq<char>) -> bool {
    p == ".."@ || (p.len() >= 3 && p.subrange(p.len() - 3, p.len() as int) == "/.."@)
}

/// The part of `p` after its last `c` (all of `p` when it holds no `c`).
pub open spec fn after_last(p: Seq<char>, c: char) -> Seq<char>
    decreases p.len(),
{
    if p.len() == 0 {
        p
    } else if p.last() == c {
        Seq::empty()
    } else {
        after_last(p.drop_last(), c).push(p.last())
    }
}

/// The text after the last '/' of a path.
pub open spec fn last_component(p: Seq<char>) -> Seq<char> {
    after_last(p, '/')
}

/// Whether a path is read the same way on every platform: it holds no backslash
/// and does not start with "//" (so it has no network or verbatim prefix and
/// '/' is its only separator).
pub open spec fn simple_path(p: Seq<char>) -> bool {
    &&& forall|u: int| 0 <= u < p.len() ==> p[u] != '\\'
    &&& !(p.len() >= 2 && p[0] == '/' && p[1] == '/')
}

/// Whether `n` is an ordinary file name: not empty, not "." or "..", and
/// without '/', a backslash or ':'.
pub open spec fn plain_name(n: Seq<char>) -> bool {
    &&& n.len() > 0
    &&& n != "."@
    &&& n != ".."@
    &&& forall|u: int| 0 <= u < n.len() ==> n[u] != '/' && n[u] != '\\' && n[u] != ':'
}

/// Whether a path ends in an ordinary file name after its last '/'.
pub open spec fn plainly_named(p: Seq<char>) -> bool {
    simple_path(p) && plain_name(last_component(p))
}

/// Whether a file name found for a path is possible for it: the path's text
/// after its last '/' when that is an ordinary file name; otherwise, on a
/// simple path, a nonempty component without '/', and none when the path
/// ends in "..".
pub open spec fn name_fits(path: Seq<char>, name: Option<Seq<char>>) -> bool {
    &&& simple_path(path) ==> (name is Some ==> component_like(name->0))
    &&& simple_path(path) ==> (ends_in_parent(path) ==> name is None)
    &&& plainly_named(path) ==> name == Some(last_component(path))
}

/// Builds an identifier from its parts (see `id_text`).
pub fn format_id(prefix: &str, counter: u64, name: Option<&str>, index: usize, stamp: u128) -> (r: String)
    ensures
        r@ == id_text(prefix@, counter as nat, match name { Some(n) => Some(n@), None => None }, index as nat, stamp as nat),
{
    let mut s = String::new();
    s.append(prefix);
    push_decimal(&mut s, counter as u128);
    s.append("_");
    match name {
        Some(n) => s.append(n),
        None => s.append("unknown"),
    }
    s.append("_idx");
    push_decimal(&mut s, index as u128);
    s.append("_");
    push_decimal(&mut s, stamp);
    let ghost shown = match name { Some(n) => n@, None => "unknown"@ };
    assert(s@ =~= prefix@ + decimal(counter as nat) + "_"@ + shown + "_idx"@ + decimal(index as nat) + "_"@ + decimal(stamp as nat));
    s
}

/// The final component of a path, as text: `Path::new(path).file_name()`
/// converted with `OsStr::to_str` (always valid for text). `Path::file_name`
/// returns the last component when it is a normal name and `None` when the
/// path ends in "..". What the components are depends on the platform's path
/// syntax, so this is claimed only of paths read alike everywhere (no backslash,
/// no leading "//"): a name found there is nonempty and holds no '/', a path
/// ending in ".." has none, and a path whose text after its last '/' is an
/// ordinary file name has that text as its name.
#[verifier::external_body]
fn path_file_name(path: &str) -> (r: Option<String>)
    ensures
        name_fits(path@, match r { Some(n) => Some(n@), None => None }),
{
    match std::path::Path::new(path).file_name() {
        Some(n) => match n.to_str() {
            Some(t) => Some(t.to_string()),
            None => None,
        },
        None => None,
    }
}

/// Milliseconds since the Unix epoch on the system clock:
/// `SystemTime::now().duration_since(UNIX_EPOCH)` in milliseconds, or `None`
/// when the clock is set before the epoch. The clock is read, so nothing is
/// claimed of the value.
#[verifier::external_body]
fn unix_time_millis() -> (r: Option<u128>) {
    match std::time::SystemTime::now().duration_since(std::time::UNIX_EPOCH) {
        Ok(d) => Some(d.as_millis()),
        Err(_) => None,
    }
}

/// The file name shown for a path: its final component, or "unknown" where
/// the path has none.
pub fn file_name_or_unknown(file_path: &str) -> (r: String)
    ensures
        exists|name: Option<Seq<char>>| name_fits(file_path@, name) && r@ == #[trigger] shown_name(name),
        plainly_named(file_path@) ==> r@ == last_component(file_path@),
{
    let name = path_file_name(file_path);
    let ghost g: Option<Seq<char>> = match name { Some(ref n) => Some(n@), None => None };
    let r = match name {
        Some(n) => n,
        None => "unknown".to_string(),
    };
    assert(r@ == shown_name(g));
    r
}

/// The counter shared by the grid and solution identifiers.
pub struct IdCounter {
    value: u64,
}

impl View for IdCounter {
    type V = nat;

    closed spec fn view(&self) -> nat {
        self.value as nat
    }
}

impl IdCounter {
    /// A counter that has issued no identifier.
    pub fn new() -> (r: Self)
        ensures
            r@ == 0,
    {
        IdCounter { value: 0 }
    }

    /// How many identifiers have been issued.
    pub fn issued(&self) -> (n: u64)
        ensures
            n as nat == self@,
    {
        self.value
    }
}

/// Issues the next identifier with the given prefix for a file and an index.
fn next_id(counter: &mut IdCounter, prefix: &str, file_path: &str, grid_index: usize) -> (r: String)
    requires
        old(counter)@ < u64::MAX,
    ensures
        final(counter)@ == old(counter)@ + 1,
        exists|name: Option<Seq<char>>, stamp: nat|
            name_fits(file_path@, name) && stamp < 100000
                && r@ == #[trigger] id_text(prefix@, final(counter)@, name, grid_index as nat, stamp),
{
    counter.value = counter.value + 1;
    let name = path_file_name(file_path);
    let millis = unix_time_millis();
    let stamp = match millis {
        Some(m) => m % 100000,
        None => 0,
    };
    let r = match &name {
        Some(n) => format_id(prefix, counter.value, Some(n.as_str()), grid_index, stamp),
        None => format_id(prefix, counter.value, None, grid_index, stamp),
    };
    let ghost gname: Option<Seq<char>> = match name { Some(n) => Some(n@), None => None };
    assert(r@ == id_text(prefix@, counter@, gname, grid_index as nat, stamp as nat));
    r
}

/// The identifier of a newly cached grid:
/// "grid_{counter}_{file name or unknown}_idx{index}_{milliseconds mod 100000}".
pub fn generate_grid_id(counter: &mut IdCounter, file_path: &str, grid_index: usize) -> (r: String)
    requires
        old(counter)@ < u64::MAX,
    ensures
        final(counter)@ == old(counter)@ + 1,
        exists|name: Option<Seq<char>>, stamp: nat|
            name_fits(file_path@, name) && stamp < 100000
                && r@ == #[trigger] id_text("grid_"@, final(counter)@, name, grid_index as nat, stamp),
        plainly_named(file_path@) ==> exists|stamp: nat|
            stamp < 100000 && r@ == #[trigger] id_text("grid_"@, final(counter)@, Some(last_component(file_path@)), grid_index as nat, stamp),
{
    next_id(counter, "grid_", file_path, grid_index)
}

/// The identifier of a newly cached solution:
/// "solution_{counter}_{file name or unknown}_idx{index}_{milliseconds mod 100000}".
pub fn generate_solution_id(counter: &mut IdCounter, file_path: &str, grid_index: usize) -> (r: String)
    requires
        old(counter)@ < u64::MAX,
    ensures
        final(counter)@ == old(counter)@ + 1,
        exists|name: Option<Seq<char>>, stamp: nat|
            name_fits(file_path@, name) && stamp < 100000
                && r@ == #[trigger] id_text("solution_"@, final(counter)@, name, grid_index as nat, stamp),
        plainly_named(file_path@) ==> exists|stamp: nat|
            stamp < 100000 && r@ == #[trigger] id_text("solution_"@, final(counter)@, Some(last_component(file_path@)), grid_index as nat, stamp),
{
    next_id(counter, "solution_", file_path, grid_index)
}

/// Metadata of a cached grid (no coordinate arrays).
#[derive(Clone, Debug)]
pub struct GridMetadata {
    pub id: String,
    pub file_path: String,
    pub file_name: String,
    pub grid_index: usize,
    pub dimensions: GridDimensions,
    pub has_iblank: bool,
    pub has_solution: bool,
}

/// Metadata of a cached solution (no arrays).
#[derive(Clone, Debug)]
pub struct SolutionMetadata {
    pub id: String,
    pub file_path: String,
    pub file_name: String,
    pub grid_index: usize,
    pub dimensions: GridDimensions,
}

/// Whether any of the cached solutions belongs to the grid with the given
/// file and index.
pub fn grid_has_solution(solutions: &[SolutionMetadata], file_path: &str, grid_index: usize) -> (b: bool)
    ensures
        b == exists|k: int|
            0 <= k < solutions@.len() && (#[trigger] solutions@[k]).file_path@ == file_path@
                && solutions@[k].grid_index == grid_index,
{
    let mut k: usize = 0;
    while k < solutions.len()
        invariant
            k <= solutions@.len(),
            forall|u: int|
                0 <= u < k ==> !((#[trigger] solutions@[u]).file_path@ == file_path@
                    && solutions@[u].grid_index == grid_index),
        decreases solutions@.len() - k,
    {
        if solutions[k].grid_index == grid_index && crate::solution::str_equals(solutions[k].file_path.as_str(), file_path) {
            return true;
        }
        k = k + 1;
    }
    false
}

} // verus!
