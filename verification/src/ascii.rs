//! ASCII PLOT3D files: text helpers (whitespace, decimal integers) and the
//! ASCII grid and solution readers.
use vstd::prelude::*;
use crate::types::{GridDimensions, Plot3DError, Precision};
use crate::grid::{Plot3DGrid, SpecGrid, grids_view, grid_well_sized};
use crate::solution_file::{
    Plot3DSolution, SpecSolution, SpecMetadata, LastSolutionMetadata, SolutionFileMetadata,
    spec_metadata, metadata_from_values, solutions_view, set_last_solution_metadata, copy_range,
    solution_well_sized,
};

verus! {

/// Unicode white space, as `char::is_whitespace` defines it.
pub open spec fn is_ws(c: char) -> bool {
    ||| c == '\t' || c == '\n' || c == '\x0B' || c == '\x0C' || c == '\r' || c == ' '
    ||| c == '\u{85}' || c == '\u{A0}' || c == '\u{1680}'
    ||| ('\u{2000}' <= c && c <= '\u{200A}')
    ||| c == '\u{2028}' || c == '\u{2029}' || c == '\u{202F}' || c == '\u{205F}' || c == '\u{3000}'
}

/// Whether a character is white space.
pub fn is_whitespace(c: char) -> (b: bool)
    ensures
        b == is_ws(c),
{
    c == '\t' || c == '\n' || c == '\x0B' || c == '\x0C' || c == '\r' || c == ' ' || c == '\u{85}'
        || c == '\u{A0}' || c == '\u{1680}' || ('\u{2000}' <= c && c <= '\u{200A}') || c == '\u{2028}'
        || c == '\u{2029}' || c == '\u{202F}' || c == '\u{205F}' || c == '\u{3000}'
}

/// Index of the first non-white-space character at or after `from` (the
/// length when there is none).
pub open spec fn skip_ws(s: Seq<char>, from: int) -> int
    decreases s.len() - from,
{
    if from >= s.len() {
        s.len() as int
    } else if is_ws(s[from]) {
        skip_ws(s, from + 1)
    } else {
        from
    }
}

/// Index of the first white-space character at or after `from` (the length
/// when there is none).
pub open spec fn skip_word(s: Seq<char>, from: int) -> int
    decreases s.len() - from,
{
    if from >= s.len() {
        s.len() as int
    } else if is_ws(s[from]) {
        from
    } else {
        skip_word(s, from + 1)
    }
}

/// Length of `s` without its trailing white space.
pub open spec fn end_without_ws(s: Seq<char>, end: int) -> int
    decreases end,
{
    if end <= 0 {
        0
    } else if is_ws(s[end - 1]) {
        end_without_ws(s, end - 1)
    } else {
        end
    }
}

/// `s` without leading and trailing white space.
pub open spec fn trim(s: Seq<char>) -> Seq<char> {
    let a = skip_ws(s, 0);
    let b = end_without_ws(s, s.len() as int);
    if a < b {
        s.subrange(a, b)
    } else {
        Seq::empty()
    }
}

/// The white-space separated words of `s` from position `from` on.
pub open spec fn words_from(s: Seq<char>, from: int) -> Seq<Seq<char>>
    decreases s.len() - from,
{
    let a = skip_ws(s, from);
    if from < 0 || a >= s.len() {
        Seq::empty()
    } else {
        proof {
            lemma_skip_ws_bounds(s, from);
            lemma_skip_word_bounds(s, a);
        }
        let b = skip_word(s, a);
        seq![s.subrange(a, b)] + words_from(s, b)
    }
}

/// The white-space separated words of `s`.
pub open spec fn words(s: Seq<char>) -> Seq<Seq<char>> {
    words_from(s, 0)
}

/// Skipping white space from `from` stays in `s`, passes only white space and
/// stops before a character that is not white space.
pub proof fn lemma_skip_ws_bounds(s: Seq<char>, from: int)
    requires
        0 <= from <= s.len(),
    ensures
        from <= skip_ws(s, from) <= s.len(),
        forall|t: int| from <= t < skip_ws(s, from) ==> is_ws(#[trigger] s[t]),
        skip_ws(s, from) < s.len() ==> !is_ws(s[skip_ws(s, from)]),
    decreases s.len() - from,
{
    if from < s.len() && is_ws(s[from]) {
        lemma_skip_ws_bounds(s, from + 1);
    }
}

/// Skipping a word from `from` stays in `s`, passes no white space and stops
/// before white space.
pub proof fn lemma_skip_word_bounds(s: Seq<char>, from: int)
    requires
        0 <= from <= s.len(),
    ensures
        from <= skip_word(s, from) <= s.len(),
        forall|t: int| from <= t < skip_word(s, from) ==> !is_ws(#[trigger] s[t]),
        skip_word(s, from) < s.len() ==> is_ws(s[skip_word(s, from)]),
    decreases s.len() - from,
{
    if from < s.len() && !is_ws(s[from]) {
        lemma_skip_word_bounds(s, from + 1);
    }
}

/// Position of the first non-white-space character at or after `from`.
fn find_non_ws(s: &Vec<char>, from: usize) -> (r: usize)
    requires
        from <= s@.len(),
    ensures
        r as int == skip_ws(s@, from as int),
{
    let mut k = from;
    while k < s.len() && is_whitespace(s[k])
        invariant
            from <= k <= s@.len(),
            skip_ws(s@, from as int) == skip_ws(s@, k as int),
        decreases s@.len() - k,
    {
        k = k + 1;
    }
    k
}

/// Position of the first white-space character at or after `from`.
fn find_ws(s: &Vec<char>, from: usize) -> (r: usize)
    requires
        from <= s@.len(),
    ensures
        r as int == skip_word(s@, from as int),
{
    let mut k = from;
    while k < s.len() && !is_whitespace(s[k])
        invariant
            from <= k <= s@.len(),
            skip_word(s@, from as int) == skip_word(s@, k as int),
        decreases s@.len() - k,
    {
        k = k + 1;
    }
    k
}

fn copy_chars(s: &Vec<char>, from: usize, to: usize) -> (r: Vec<char>)
    requires
        from <= to <= s@.len(),
    ensures
        r@ == s@.subrange(from as int, to as int),
{
    let mut out: Vec<char> = Vec::new();
    let mut k = from;
    while k < to
        invariant
            from <= k <= to,
            to <= s@.len(),
            out@ =~= s@.subrange(from as int, k as int),
        decreases to - k,
    {
        out.push(s[k]);
        k = k + 1;
    }
    out
}

/// `s` without leading and trailing white space.
pub fn trim_chars(s: &Vec<char>) -> (r: Vec<char>)
    ensures
        r@ == trim(s@),
{
    let a = find_non_ws(s, 0);
    let mut b = s.len();
    while b > 0 && is_whitespace(s[b - 1])
        invariant
            b <= s@.len(),
            end_without_ws(s@, s@.len() as int) == end_without_ws(s@, b as int),
        decreases b,
    {
        b = b - 1;
    }
    if a < b {
        copy_chars(s, a, b)
    } else {
        Vec::new()
    }
}

/// The white-space separated words of `s`.
pub fn split_whitespace(s: &Vec<char>) -> (r: Vec<Vec<char>>)
    ensures
        r@.len() == words(s@).len(),
        forall|t: int| 0 <= t < r@.len() ==> (#[trigger] r@[t])@ == words(s@)[t],
{
    let mut out: Vec<Vec<char>> = Vec::new();
    let mut k: usize = 0;
    let ghost mut done: Seq<Seq<char>> = Seq::empty();
    while k < s.len()
        invariant
            k <= s@.len(),
            out@.len() == done.len(),
            forall|t: int| 0 <= t < out@.len() ==> (#[trigger] out@[t])@ == done[t],
            done + words_from(s@, k as int) == words(s@),
        decreases s@.len() - k,
    {
        let a = find_non_ws(s, k);
        proof {
            lemma_skip_ws_bounds(s@, k as int);
        }
        if a >= s.len() {
            assert(words_from(s@, k as int) =~= Seq::<Seq<char>>::empty());
            k = s.len();
            assert(words_from(s@, k as int) =~= Seq::<Seq<char>>::empty());
        } else {
            let b = find_ws(s, a);
            proof {
                lemma_skip_word_bounds(s@, a as int);
            }
            let w = copy_chars(s, a, b);
            proof {
                assert(words_from(s@, k as int) == seq![s@.subrange(a as int, b as int)] + words_from(s@, b as int));
                assert(done + words_from(s@, k as int) =~= done.push(w@) + words_from(s@, b as int));
                done = done.push(w@);
            }
            out.push(w);
            k = b;
        }
    }
    assert(words_from(s@, k as int) =~= Seq::<Seq<char>>::empty());
    assert(done =~= words(s@));
    out
}

/// Whether `c` is a decimal digit.
pub open spec fn is_digit(c: char) -> bool {
    '0' <= c && c <= '9'
}

/// Value of a decimal digit.
pub open spec fn digit_value(c: char) -> int {
    c as int - '0' as int
}

/// Value of a sequence of decimal digits.
pub open spec fn decimal_value(s: Seq<char>) -> int
    decreases s.len(),
{
    if s.len() == 0 {
        0
    } else {
        decimal_value(s.drop_last()) * 10 + digit_value(s.last())
    }
}

/// Whether `s` is a non-empty sequence of decimal digits.
pub open spec fn all_digits(s: Seq<char>) -> bool {
    s.len() > 0 && forall|t: int| 0 <= t < s.len() ==> is_digit(#[trigger] s[t])
}

/// Decimal integer syntax as Rust's `FromStr` for integers accepts it: an
/// optional sign (`-` only when `signed`), then one or more digits. Gives the
/// sign (true for minus) and the magnitude.
pub open spec fn spec_sign_and_magnitude(s: Seq<char>, signed: bool) -> Option<(bool, int)> {
    if s.len() > 0 && s[0] == '+' {
        if all_digits(s.drop_first()) { Some((false, decimal_value(s.drop_first()))) } else { None }
    } else if signed && s.len() > 0 && s[0] == '-' {
        if all_digits(s.drop_first()) { Some((true, decimal_value(s.drop_first()))) } else { None }
    } else if all_digits(s) {
        Some((false, decimal_value(s)))
    } else {
        None
    }
}

/// The unsigned 32-bit integer that `s` denotes, if any.
pub open spec fn spec_parse_u32(s: Seq<char>) -> Option<u32> {
    match spec_sign_and_magnitude(s, false) {
        Some((_, m)) => if m <= u32::MAX { Some(m as u32) } else { None },
        None => None,
    }
}

/// The signed 32-bit integer that `s` denotes, if any.
pub open spec fn spec_parse_i32(s: Seq<char>) -> Option<i32> {
    match spec_sign_and_magnitude(s, true) {
        Some((neg, m)) => if neg {
            if m <= 0x8000_0000 { Some((-m) as i32) } else { None }
        } else {
            if m <= i32::MAX { Some(m as i32) } else { None }
        },
        None => None,
    }
}

/// Parses the sign and the digits of a decimal integer, capping the
/// magnitude at 2^32.
fn sign_and_magnitude(s: &Vec<char>, signed: bool) -> (r: Option<(bool, u64)>)
    ensures
        match spec_sign_and_magnitude(s@, signed) {
            Some((neg, m)) => r matches Some((n, v)) && n == neg && v as int == if m < 0x1_0000_0000 { m } else { 0x1_0000_0000 },
            None => r is None,
        },
{
    let n = s.len();
    let (neg, start) = if n > 0 && s[0] == '+' {
        (false, 1)
    } else if signed && n > 0 && s[0] == '-' {
        (true, 1)
    } else {
        (false, 0)
    };
    let ghost digits = s@.subrange(start as int, n as int);
    assert(start == 1 ==> digits =~= s@.drop_first());
    assert(start == 0 ==> digits =~= s@);
    assert(spec_sign_and_magnitude(s@, signed) == if all_digits(digits) {
        Some((neg, decimal_value(digits)))
    } else {
        None
    });
    if start >= n {
        return None;
    }
    let mut acc: u64 = 0;
    let mut k = start;
    while k < n
        invariant
            start <= k <= n,
            n == s@.len(),
            digits == s@.subrange(start as int, n as int),
            spec_sign_and_magnitude(s@, signed) == if all_digits(digits) {
                Some((neg, decimal_value(digits)))
            } else {
                None
            },
            forall|t: int| start <= t < k ==> is_digit(#[trigger] s@[t]),
            acc as int == if decimal_value(s@.subrange(start as int, k as int)) < 0x1_0000_0000 {
                decimal_value(s@.subrange(start as int, k as int))
            } else {
                0x1_0000_0000
            },
        decreases n - k,
    {
        let c = s[k];
        if !('0' <= c && c <= '9') {
            assert(digits[k - start] == c);
            return None;
        }
        let d = (c as u32 - '0' as u32) as u64;
        proof {
            let pre = s@.subrange(start as int, k as int);
            let next = s@.subrange(start as int, k + 1);
            assert(next.drop_last() =~= pre);
            assert(decimal_value(next) == decimal_value(pre) * 10 + digit_value(c));
            lemma_decimal_value_nonneg(pre);
        }
        if acc < 0x1_0000_0000 {
            acc = acc * 10 + d;
            if acc > 0x1_0000_0000 {
                acc = 0x1_0000_0000;
            }
        }
        k = k + 1;
    }
    assert(s@.subrange(start as int, n as int) =~= digits);
    Some((neg, acc))
}

proof fn lemma_decimal_value_nonneg(s: Seq<char>)
    requires
        forall|t: int| 0 <= t < s.len() ==> is_digit(#[trigger] s[t]),
    ensures
        decimal_value(s) >= 0,
    decreases s.len(),
{
    if s.len() > 0 {
        lemma_decimal_value_nonneg(s.drop_last());
    }
}

/// Parses an unsigned 32-bit decimal integer.
pub fn parse_u32(s: &Vec<char>) -> (r: Option<u32>)
    ensures
        r == spec_parse_u32(s@),
{
    match sign_and_magnitude(s, false) {
        Some((_, v)) => if v <= 0xffff_ffff {
            Some(v as u32)
        } else {
            None
        },
        None => None,
    }
}

/// Parses a signed 32-bit decimal integer.
pub fn parse_i32(s: &Vec<char>) -> (r: Option<i32>)
    ensures
        r == spec_parse_i32(s@),
{
    match sign_and_magnitude(s, true) {
        Some((neg, v)) => if neg {
            if v <= 0x8000_0000 {
                Some((0 - (v as i64)) as i32)
            } else {
                None
            }
        } else {
            if v <= 0x7fff_ffff {
                Some(v as i32)
            } else {
                None
            }
        },
        None => None,
    }
}


/// One line of an ASCII PLOT3D file.
pub enum AsciiLine {
    /// A line that could not be read as text.
    Unreadable,
    /// A line of text, with the single-precision values (bit patterns) that
    /// its white-space separated words denote, when every word is a number.
    Text { chars: Vec<char>, numbers: Option<Vec<u32>> },
}

/// Mathematical model of a line.
pub enum SpecLine {
    Unreadable,
    Text { chars: Seq<char>, numbers: Option<Seq<u32>> },
}

impl View for AsciiLine {
    type V = SpecLine;

    open spec fn view(&self) -> SpecLine {
        match self {
            AsciiLine::Unreadable => SpecLine::Unreadable,
            AsciiLine::Text { chars, numbers } => SpecLine::Text {
                chars: chars@,
                numbers: match numbers {
                    Some(v) => Some(v@),
                    None => None,
                },
            },
        }
    }
}

/// Models of a sequence of lines.
pub open spec fn lines_view(v: Seq<AsciiLine>) -> Seq<SpecLine> {
    Seq::new(v.len(), |n: int| v[n]@)
}

/// The dimensions that the words of a dimension line give: every word must
/// be an unsigned integer, and there must be exactly three.
pub open spec fn spec_dims_words(ws: Seq<Seq<char>>) -> Result<GridDimensions, Plot3DError> {
    if exists|t: int| 0 <= t < ws.len() && (#[trigger] spec_parse_u32(ws[t])) is None {
        Err(Plot3DError::CannotParseDimensions)
    } else if ws.len() != 3 {
        Err(Plot3DError::ExpectedThreeDimensions)
    } else {
        Ok(GridDimensions {
            i: spec_parse_u32(ws[0])->Some_0,
            j: spec_parse_u32(ws[1])->Some_0,
            k: spec_parse_u32(ws[2])->Some_0,
        })
    }
}

/// Reading the dimension lines of the first `n` grids (lines 1 to n). When
/// `check_zero`, a zero dimension is an error.
pub open spec fn spec_dims_lines(lines: Seq<SpecLine>, n: nat, check_zero: bool) -> Result<Seq<GridDimensions>, Plot3DError>
    decreases n,
{
    if n == 0 {
        Ok(Seq::empty())
    } else {
        match spec_dims_lines(lines, (n - 1) as nat, check_zero) {
            Err(e) => Err(e),
            Ok(ds) => if n >= lines.len() {
                Err(Plot3DError::MissingDimensionLine)
            } else {
                match lines[n as int] {
                    SpecLine::Unreadable => Err(Plot3DError::UnreadableLine(n as usize)),
                    SpecLine::Text { chars, numbers: _ } => match spec_dims_words(words(chars)) {
                        Err(e) => Err(e),
                        Ok(d) => if check_zero && !d.nonzero() {
                            Err(Plot3DError::InvalidDimensions(d.i, d.j, d.k))
                        } else {
                            Ok(ds.push(d))
                        },
                    },
                }
            },
        }
    }
}

/// Reading the first line (the grid count) and the dimension lines.
pub open spec fn spec_ascii_header(lines: Seq<SpecLine>, check_zero: bool) -> Result<Seq<GridDimensions>, Plot3DError> {
    if lines.len() == 0 {
        Err(Plot3DError::EmptyFile)
    } else {
        match lines[0] {
            SpecLine::Unreadable => Err(Plot3DError::UnreadableLine(0)),
            SpecLine::Text { chars, numbers: _ } => match spec_parse_i32(trim(chars)) {
                None => Err(Plot3DError::CannotParseGridCount),
                Some(n) => if n <= 0 || n > 1000 {
                    Err(Plot3DError::InvalidNumberOfGrids(n))
                } else {
                    spec_dims_lines(lines, n as nat, check_zero)
                },
            },
        }
    }
}

proof fn lemma_dims_lines_error_sticks(lines: Seq<SpecLine>, m: nat, n: nat, check_zero: bool)
    requires
        m <= n,
        spec_dims_lines(lines, m, check_zero) is Err,
    ensures
        spec_dims_lines(lines, n, check_zero) == spec_dims_lines(lines, m, check_zero),
    decreases n - m,
{
    if m < n {
        lemma_dims_lines_error_sticks(lines, m, (n - 1) as nat, check_zero);
    }
}

proof fn lemma_dims_lines_len(lines: Seq<SpecLine>, n: nat, check_zero: bool)
    ensures
        spec_dims_lines(lines, n, check_zero) matches Ok(ds) ==> ds.len() == n && (n > 0 ==> n < lines.len()),
    decreases n,
{
    if n > 0 {
        lemma_dims_lines_len(lines, (n - 1) as nat, check_zero);
    }
}

/// A successfully read header describes between 1 and 1000 grids, each with
/// its own line after the first.
proof fn lemma_ascii_header_shape(lines: Seq<SpecLine>, check_zero: bool)
    ensures
        spec_ascii_header(lines, check_zero) matches Ok(ds) ==> 1 <= ds.len() <= 1000 && ds.len() < lines.len(),
{
    if lines.len() > 0 {
        if let SpecLine::Text { chars, numbers: _ } = lines[0] {
            if let Some(n) = spec_parse_i32(trim(chars)) {
                if 0 < n <= 1000 {
                    lemma_dims_lines_len(lines, n as nat, check_zero);
                }
            }
        }
    }
}

fn parse_dims_line(chars: &Vec<char>) -> (r: Result<GridDimensions, Plot3DError>)
    ensures
        match r {
            Ok(d) => spec_dims_words(words(chars@)) == Ok::<GridDimensions, Plot3DError>(d),
            Err(e) => spec_dims_words(words(chars@)) == Err::<GridDimensions, Plot3DError>(e),
        },
{
    let ws = split_whitespace(chars);
    let ghost sw = words(chars@);
    let mut values: Vec<u32> = Vec::new();
    let mut t: usize = 0;
    while t < ws.len()
        invariant
            t <= ws@.len(),
            sw == words(chars@),
            ws@.len() == sw.len(),
            forall|u: int| 0 <= u < ws@.len() ==> (#[trigger] ws@[u])@ == sw[u],
            values@.len() == t,
            forall|u: int| 0 <= u < t ==> spec_parse_u32(sw[u]) == Some(#[trigger] values@[u]),
        decreases ws@.len() - t,
    {
        match parse_u32(&ws[t]) {
            Some(v) => values.push(v),
            None => {
                assert(spec_parse_u32(sw[t as int]) is None);
                assert(exists|u: int| 0 <= u < sw.len() && (#[trigger] spec_parse_u32(sw[u])) is None);
                return Err(Plot3DError::CannotParseDimensions);
            },
        }
        t = t + 1;
    }
    assert(!exists|u: int| 0 <= u < sw.len() && (#[trigger] spec_parse_u32(sw[u])) is None) by {
        assert forall|u: int| 0 <= u < sw.len() implies !(#[trigger] spec_parse_u32(sw[u]) is None) by {
            assert(spec_parse_u32(sw[u]) == Some(values@[u]));
        }
    }
    if values.len() != 3 {
        return Err(Plot3DError::ExpectedThreeDimensions);
    }
    assert(spec_parse_u32(sw[0]) == Some(values@[0]));
    assert(spec_parse_u32(sw[1]) == Some(values@[1]));
    assert(spec_parse_u32(sw[2]) == Some(values@[2]));
    Ok(GridDimensions { i: values[0], j: values[1], k: values[2] })
}

/// Reads the grid count line and the dimension lines.
fn read_ascii_header(lines: &Vec<AsciiLine>, check_zero: bool) -> (r: Result<Vec<GridDimensions>, Plot3DError>)
    ensures
        match r {
            Ok(d) => spec_ascii_header(lines_view(lines@), check_zero) == Ok::<Seq<GridDimensions>, Plot3DError>(d@),
            Err(e) => spec_ascii_header(lines_view(lines@), check_zero) == Err::<Seq<GridDimensions>, Plot3DError>(e),
        },
{
    let ghost lv = lines_view(lines@);
    if lines.len() == 0 {
        return Err(Plot3DError::EmptyFile);
    }
    assert(lv[0] == lines@[0]@);
    let num_grids = match &lines[0] {
        AsciiLine::Unreadable => {
            return Err(Plot3DError::UnreadableLine(0));
        },
        AsciiLine::Text { chars, numbers: _ } => {
            let trimmed = trim_chars(chars);
            match parse_i32(&trimmed) {
                Some(n) => n,
                None => {
                    return Err(Plot3DError::CannotParseGridCount);
                },
            }
        },
    };
    if num_grids <= 0 || num_grids > 1000 {
        return Err(Plot3DError::InvalidNumberOfGrids(num_grids));
    }
    let n = num_grids as usize;
    let mut dims: Vec<GridDimensions> = Vec::new();
    let mut g: usize = 0;
    while g < n
        invariant
            g <= n,
            n <= 1000,
            n == num_grids,
            lv == lines_view(lines@),
            spec_ascii_header(lv, check_zero) == spec_dims_lines(lv, n as nat, check_zero),
            spec_dims_lines(lv, g as nat, check_zero) == Ok::<Seq<GridDimensions>, Plot3DError>(dims@),
        decreases n - g,
    {
        let line_index = g + 1;
        if line_index >= lines.len() {
            proof {
                lemma_dims_lines_error_sticks(lv, (g + 1) as nat, n as nat, check_zero);
            }
            return Err(Plot3DError::MissingDimensionLine);
        }
        assert(lv[line_index as int] == lines@[line_index as int]@);
        let d = match &lines[line_index] {
            AsciiLine::Unreadable => {
                proof {
                    lemma_dims_lines_error_sticks(lv, (g + 1) as nat, n as nat, check_zero);
                }
                return Err(Plot3DError::UnreadableLine(line_index));
            },
            AsciiLine::Text { chars, numbers: _ } => match parse_dims_line(chars) {
                Ok(d) => d,
                Err(e) => {
                    proof {
                        lemma_dims_lines_error_sticks(lv, (g + 1) as nat, n as nat, check_zero);
                    }
                    return Err(e);
                },
            },
        };
        if check_zero && (d.i == 0 || d.j == 0 || d.k == 0) {
            proof {
                lemma_dims_lines_error_sticks(lv, (g + 1) as nat, n as nat, check_zero);
            }
            return Err(Plot3DError::InvalidDimensions(d.i, d.j, d.k));
        }
        dims.push(d);
        g = g + 1;
    }
    Ok(dims)
}

/// Collecting values for a grid's coordinates from line `c` on: whole lines
/// are consumed until `want` values have been gathered (the surplus of the
/// last line is dropped) or the lines run out.
pub open spec fn spec_fill(lines: Seq<SpecLine>, c: int, want: nat, got: Seq<u32>) -> Result<(Seq<u32>, int), Plot3DError>
    decreases lines.len() - c,
{
    if got.len() >= want || c < 0 || c >= lines.len() {
        Ok((got, c))
    } else {
        match lines[c] {
            SpecLine::Unreadable => Err(Plot3DError::UnreadableLine(c as usize)),
            SpecLine::Text { chars: _, numbers } => match numbers {
                None => Err(Plot3DError::CannotParseCoordinate),
                Some(v) => spec_fill(
                    lines,
                    c + 1,
                    want,
                    got + v.take(if v.len() <= want - got.len() { v.len() as int } else { want - got.len() }),
                ),
            },
        }
    }
}

/// Single-precision bit patterns widened to 64 bits.
pub open spec fn widen(v: Seq<u32>) -> Seq<u64> {
    Seq::new(v.len(), |n: int| v[n] as u64)
}

/// Reading the coordinates of the first `n` grids, starting at line `c`.
pub open spec fn spec_ascii_grids(
    lines: Seq<SpecLine>,
    dims: Seq<GridDimensions>,
    n: nat,
    c: int,
) -> Result<(Seq<SpecGrid>, int), Plot3DError>
    decreases n,
{
    if n == 0 {
        Ok((Seq::empty(), c))
    } else {
        match spec_ascii_grids(lines, dims, (n - 1) as nat, c) {
            Err(e) => Err(e),
            Ok((gs, c1)) => {
                let d = dims[n - 1];
                let t = d.points();
                match spec_fill(lines, c1, 3 * t, Seq::empty()) {
                    Err(e) => Err(e),
                    Ok((vals, c2)) => if vals.len() < 3 * t {
                        Err(Plot3DError::IncompleteCoordinates {
                            expected: t as u128,
                            x: (if vals.len() < t { vals.len() as int } else { t as int }) as usize,
                            y: (if vals.len() < t { 0 } else if vals.len() < 2 * t { vals.len() - t } else { t as int }) as usize,
                            z: (if vals.len() < 2 * t { 0 } else { vals.len() - 2 * t }) as usize,
                        })
                    } else {
                        Ok((
                            gs.push(SpecGrid {
                                dimensions: d,
                                precision: Precision::F32,
                                x: widen(vals.subrange(0, t as int)),
                                y: widen(vals.subrange(t as int, (2 * t) as int)),
                                z: widen(vals.subrange((2 * t) as int, (3 * t) as int)),
                                iblank: None,
                            }),
                            c2,
                        ))
                    },
                }
            },
        }
    }
}

/// The numbers of the `m` lines from line `c` on, one line after another:
/// `None` when one of them is missing, unreadable or holds a word that is not
/// a number.
pub open spec fn numbers_of_lines(lines: Seq<SpecLine>, c: int, m: nat) -> Option<Seq<u32>>
    decreases m,
{
    if m == 0 {
        Some(Seq::empty())
    } else {
        match numbers_of_lines(lines, c, (m - 1) as nat) {
            None => None,
            Some(s) => if 0 <= c + m - 1 < lines.len() {
                match lines[c + m - 1] {
                    SpecLine::Text { chars: _, numbers: Some(v) } => Some(s + v),
                    _ => None,
                }
            } else {
                None
            },
        }
    }
}

proof fn lemma_numbers_prefix(lines: Seq<SpecLine>, c: int, m: nat, k: nat)
    requires
        k <= m,
        numbers_of_lines(lines, c, m) is Some,
    ensures
        numbers_of_lines(lines, c, k) is Some,
        numbers_of_lines(lines, c, k).unwrap().len() <= numbers_of_lines(lines, c, m).unwrap().len(),
        numbers_of_lines(lines, c, m).unwrap().subrange(0, numbers_of_lines(lines, c, k).unwrap().len() as int)
            == numbers_of_lines(lines, c, k).unwrap(),
    decreases m,
{
    let vm = numbers_of_lines(lines, c, m).unwrap();
    if k == m {
        assert(vm.subrange(0, vm.len() as int) =~= vm);
    } else {
        lemma_numbers_prefix(lines, c, (m - 1) as nat, k);
        let a = numbers_of_lines(lines, c, (m - 1) as nat).unwrap();
        let vk = numbers_of_lines(lines, c, k).unwrap();
        assert(vm.subrange(0, vk.len() as int) =~= a.subrange(0, vk.len() as int));
    }
}

proof fn lemma_fill_lines(lines: Seq<SpecLine>, c: int, m: nat, k: nat, want: nat, v: Seq<u32>)
    requires
        0 <= c,
        k < m,
        numbers_of_lines(lines, c, m) == Some(v),
        v.len() >= want,
        numbers_of_lines(lines, c, (m - 1) as nat).unwrap().len() < want,
    ensures
        spec_fill(lines, c + k, want, numbers_of_lines(lines, c, k).unwrap()) == Ok::<(Seq<u32>, int), Plot3DError>((v.take(want as int), c + m)),
    decreases m - k,
{
    lemma_numbers_prefix(lines, c, m, (k + 1) as nat);
    lemma_numbers_prefix(lines, c, (m - 1) as nat, k);
    let got = numbers_of_lines(lines, c, k).unwrap();
    let next = numbers_of_lines(lines, c, (k + 1) as nat).unwrap();
    assert(0 <= c + k < lines.len());
    let w = match lines[c + k] {
        SpecLine::Text { chars: _, numbers: Some(w) } => w,
        _ => Seq::empty(),
    };
    assert(next == got + w);
    assert(lines[c + k] matches SpecLine::Text { chars: _, numbers: Some(_) });
    assert(got.len() < want);
    let room = want - got.len();
    let kk = if w.len() <= room { w.len() as int } else { room };
    assert(spec_fill(lines, c + k, want, got) == spec_fill(lines, c + k + 1, want, got + w.take(kk)));
    if k + 1 < m {
        lemma_numbers_prefix(lines, c, (m - 1) as nat, (k + 1) as nat);
        assert(kk == w.len());
        assert(got + w.take(kk) =~= next);
        lemma_fill_lines(lines, c, m, (k + 1) as nat, want, v);
    } else {
        assert(next == v);
        assert(got + w.take(kk) =~= v.take(want as int));
        assert(v.take(want as int).len() == want);
        assert(spec_fill(lines, c + m, want, v.take(want as int)) == Ok::<(Seq<u32>, int), Plot3DError>((v.take(want as int), c + m)));
    }
}

/// The coordinates of each grid of an ASCII file are taken in order from the
/// stream of numbers that follows: when the lines from `c1` (where the
/// previous grids ended) on hold the numbers `v`, the first m - 1 of them
/// fewer than the 3t values a grid of t points needs and all m at least that
/// many, the grid read has the first t numbers as its X values, the next t
/// as its Y values and the t after those as its Z values, and the next grid
/// starts on the line after those m lines.
pub proof fn law_ascii_coordinates_in_order(
    lines: Seq<SpecLine>,
    dims: Seq<GridDimensions>,
    n: nat,
    c: int,
    gs: Seq<SpecGrid>,
    c1: int,
    m: nat,
    v: Seq<u32>,
)
    requires
        1 <= n <= dims.len(),
        spec_ascii_grids(lines, dims, (n - 1) as nat, c) == Ok::<(Seq<SpecGrid>, int), Plot3DError>((gs, c1)),
        0 <= c1,
        m >= 1,
        numbers_of_lines(lines, c1, m) == Some(v),
        v.len() >= 3 * dims[n - 1].points(),
        numbers_of_lines(lines, c1, (m - 1) as nat).unwrap().len() < 3 * dims[n - 1].points(),
    ensures
        spec_ascii_grids(lines, dims, n, c) == Ok::<(Seq<SpecGrid>, int), Plot3DError>((
            gs.push(SpecGrid {
                dimensions: dims[n - 1],
                precision: Precision::F32,
                x: widen(v.subrange(0, dims[n - 1].points() as int)),
                y: widen(v.subrange(dims[n - 1].points() as int, (2 * dims[n - 1].points()) as int)),
                z: widen(v.subrange((2 * dims[n - 1].points()) as int, (3 * dims[n - 1].points()) as int)),
                iblank: None,
            }),
            c1 + m,
        )),
{
    let t = dims[n - 1].points();
    lemma_fill_lines(lines, c1, m, 0, 3 * t, v);
    assert(numbers_of_lines(lines, c1, 0).unwrap() == Seq::<u32>::empty());
    let vals = v.take((3 * t) as int);
    assert(vals.subrange(0, t as int) =~= v.subrange(0, t as int));
    assert(vals.subrange(t as int, (2 * t) as int) =~= v.subrange(t as int, (2 * t) as int));
    assert(vals.subrange((2 * t) as int, (3 * t) as int) =~= v.subrange((2 * t) as int, (3 * t) as int));
}

proof fn lemma_fill_len(lines: Seq<SpecLine>, c: int, want: nat, got: Seq<u32>)
    requires
        got.len() <= want,
    ensures
        spec_fill(lines, c, want, got) matches Ok((vals, _)) ==> got.len() <= vals.len() <= want,
    decreases lines.len() - c,
{
    if !(got.len() >= want || c < 0 || c >= lines.len()) {
        if let SpecLine::Text { chars: _, numbers: Some(v) } = lines[c] {
            let k = if v.len() <= want - got.len() { v.len() as int } else { want - got.len() };
            lemma_fill_len(lines, c + 1, want, got + v.take(k));
        }
    }
}

proof fn lemma_dims_lines_nonzero(lines: Seq<SpecLine>, n: nat)
    ensures
        spec_dims_lines(lines, n, true) matches Ok(ds) ==> forall|k: int| 0 <= k < ds.len() ==> (#[trigger] ds[k]).nonzero(),
    decreases n,
{
    if n > 0 {
        lemma_dims_lines_nonzero(lines, (n - 1) as nat);
    }
}

proof fn lemma_ascii_grids_sized(lines: Seq<SpecLine>, dims: Seq<GridDimensions>, n: nat, c: int)
    requires
        n <= dims.len(),
        forall|k: int| 0 <= k < dims.len() ==> (#[trigger] dims[k]).nonzero(),
    ensures
        spec_ascii_grids(lines, dims, n, c) matches Ok((gs, _)) ==> gs.len() == n
            && forall|k: int| 0 <= k < gs.len() ==> (#[trigger] gs[k]).dimensions == dims[k] && grid_well_sized(gs[k]),
    decreases n,
{
    if n > 0 {
        lemma_ascii_grids_sized(lines, dims, (n - 1) as nat, c);
        if let Ok((gs, c1)) = spec_ascii_grids(lines, dims, (n - 1) as nat, c) {
            let t = dims[n - 1].points();
            lemma_fill_len(lines, c1, 3 * t, Seq::empty());
        }
    }
}

/// Every grid that an ASCII grid file yields fits its dimensions: single
/// precision, no zero dimension, and one X, Y and Z value per point.
pub proof fn law_ascii_grids_well_sized(lines: Seq<SpecLine>)
    ensures
        spec_ascii_grid_file(lines) matches Ok(grids) ==> forall|g: int| 0 <= g < grids.len() ==> grid_well_sized(#[trigger] grids[g]),
{
    if let Ok(dims) = spec_ascii_header(lines, true) {
        if let SpecLine::Text { chars, numbers: _ } = lines[0] {
            if let Some(n) = spec_parse_i32(trim(chars)) {
                lemma_dims_lines_nonzero(lines, n as nat);
            }
        }
        lemma_ascii_header_shape(lines, true);
        lemma_ascii_grids_sized(lines, dims, dims.len(), (dims.len() + 1) as int);
    }
}

/// Reading a whole ASCII grid file: the grid count, one line of dimensions
/// per grid, then the X, Y and Z values of each grid in turn, any number per
/// line.
pub open spec fn spec_ascii_grid_file(lines: Seq<SpecLine>) -> Result<Seq<SpecGrid>, Plot3DError> {
    match spec_ascii_header(lines, true) {
        Err(e) => Err(e),
        Ok(dims) => match spec_ascii_grids(lines, dims, dims.len(), (dims.len() + 1) as int) {
            Err(e) => Err(e),
            Ok((gs, _)) => Ok(gs),
        },
    }
}

proof fn lemma_ascii_grids_error_sticks(lines: Seq<SpecLine>, dims: Seq<GridDimensions>, m: nat, n: nat, c: int)
    requires
        m <= n,
        spec_ascii_grids(lines, dims, m, c) is Err,
    ensures
        spec_ascii_grids(lines, dims, n, c) == spec_ascii_grids(lines, dims, m, c),
    decreases n - m,
{
    if m < n {
        lemma_ascii_grids_error_sticks(lines, dims, m, (n - 1) as nat, c);
    }
}

/// Gathers up to `want` values from the lines starting at `c`.
fn fill_values(lines: &Vec<AsciiLine>, c: usize, want: u128) -> (r: Result<(Vec<u32>, usize), Plot3DError>)
    requires
        c <= lines@.len(),
    ensures
        r matches Ok((_, c2)) ==> c2 <= lines@.len(),
        match r {
            Ok((v, c2)) => spec_fill(lines_view(lines@), c as int, want as nat, Seq::empty())
                == Ok::<(Seq<u32>, int), Plot3DError>((v@, c2 as int)),
            Err(e) => spec_fill(lines_view(lines@), c as int, want as nat, Seq::empty())
                == Err::<(Seq<u32>, int), Plot3DError>(e),
        },
{
    let ghost lv = lines_view(lines@);
    let mut got: Vec<u32> = Vec::new();
    let mut k = c;
    while (got.len() as u128) < want && k < lines.len()
        invariant
            c <= k <= lines@.len(),
            lv == lines_view(lines@),
            spec_fill(lv, c as int, want as nat, Seq::empty()) == spec_fill(lv, k as int, want as nat, got@),
        decreases lines@.len() - k,
    {
        assert(lv[k as int] == lines@[k as int]@);
        match &lines[k] {
            AsciiLine::Unreadable => {
                return Err(Plot3DError::UnreadableLine(k));
            },
            AsciiLine::Text { chars: _, numbers } => match numbers {
                None => {
                    return Err(Plot3DError::CannotParseCoordinate);
                },
                Some(v) => {
                    let room = want - got.len() as u128;
                    let take: usize = if (v.len() as u128) <= room { v.len() } else { room as usize };
                    let ghost old_got = got@;
                    let mut t: usize = 0;
                    while t < take
                        invariant
                            t <= take,
                            take <= v@.len(),
                            got@ =~= old_got + v@.take(t as int),
                        decreases take - t,
                    {
                        got.push(v[t]);
                        t = t + 1;
                    }
                },
            },
        }
        k = k + 1;
    }
    Ok((got, k))
}

/// Single-precision bit patterns widened to 64 bits.
fn widen_range(v: &Vec<u32>, from: usize, to: usize) -> (r: Vec<u64>)
    requires
        from <= to <= v@.len(),
    ensures
        r@ == widen(v@.subrange(from as int, to as int)),
{
    let mut out: Vec<u64> = Vec::new();
    let mut k = from;
    while k < to
        invariant
            from <= k <= to,
            to <= v@.len(),
            out@ =~= widen(v@.subrange(from as int, k as int)),
        decreases to - k,
    {
        out.push(v[k] as u64);
        k = k + 1;
    }
    out
}

/// Reads an ASCII PLOT3D grid file, given as its lines.
pub fn read_plot3d_grid_ascii(lines: &Vec<AsciiLine>) -> (r: Result<Vec<Plot3DGrid>, Plot3DError>)
    ensures
        match r {
            Ok(g) => spec_ascii_grid_file(lines_view(lines@)) == Ok::<Seq<SpecGrid>, Plot3DError>(grids_view(g@)),
            Err(e) => spec_ascii_grid_file(lines_view(lines@)) == Err::<Seq<SpecGrid>, Plot3DError>(e),
        },
{
    let ghost lv = lines_view(lines@);
    let dims = read_ascii_header(lines, true)?;
    proof {
        lemma_ascii_header_shape(lv, true);
    }
    let start = dims.len() + 1;
    let mut grids: Vec<Plot3DGrid> = Vec::new();
    assert(grids_view(grids@) =~= Seq::<SpecGrid>::empty());
    let mut c = start;
    let mut g: usize = 0;
    while g < dims.len()
        invariant
            g <= dims@.len(),
            lv == lines_view(lines@),
            start == dims@.len() + 1,
            spec_ascii_header(lv, true) == Ok::<Seq<GridDimensions>, Plot3DError>(dims@),
            c <= lines@.len(),
            spec_ascii_grids(lv, dims@, g as nat, start as int) == Ok::<(Seq<SpecGrid>, int), Plot3DError>((grids_view(grids@), c as int)),
        decreases dims@.len() - g,
    {
        let d = dims[g];
        let t = d.point_count();
        let (vals, c2) = match fill_values(lines, c, 3 * t) {
            Ok(p) => p,
            Err(e) => {
                proof {
                    lemma_ascii_grids_error_sticks(lv, dims@, (g + 1) as nat, dims@.len(), start as int);
                }
                return Err(e);
            },
        };
        let len = vals.len();
        if (len as u128) < 3 * t {
            let x: usize = if (len as u128) < t { len } else { t as usize };
            let y: usize = if (len as u128) < t { 0 } else if (len as u128) < 2 * t { len - t as usize } else { t as usize };
            let z: usize = if (len as u128) < 2 * t { 0 } else { len - 2 * (t as usize) };
            proof {
                lemma_ascii_grids_error_sticks(lv, dims@, (g + 1) as nat, dims@.len(), start as int);
            }
            return Err(Plot3DError::IncompleteCoordinates { expected: t, x, y, z });
        }
        let tt = t as usize;
        let grid = Plot3DGrid {
            dimensions: d,
            precision: Precision::F32,
            x_coords: widen_range(&vals, 0, tt),
            y_coords: widen_range(&vals, tt, 2 * tt),
            z_coords: widen_range(&vals, 2 * tt, 3 * tt),
            iblank: None,
        };
        let ghost old_view = grids_view(grids@);
        grids.push(grid);
        assert(grids_view(grids@) =~= old_view.push(grid@));
        c = c2;
        g = g + 1;
    }
    Ok(grids)
}


/// Collecting solution values from line `c` on: whole lines are consumed
/// until at least `want` values have been gathered or the lines run out.
pub open spec fn spec_collect(lines: Seq<SpecLine>, c: int, want: nat, got: Seq<u32>) -> Result<(Seq<u32>, int), Plot3DError>
    decreases lines.len() - c,
{
    if c < 0 || c >= lines.len() {
        Ok((got, c))
    } else {
        match lines[c] {
            SpecLine::Unreadable => Err(Plot3DError::UnreadableLine(c as usize)),
            SpecLine::Text { chars: _, numbers } => match numbers {
                None => Err(Plot3DError::CannotParseValue),
                Some(v) => if (got + v).len() >= want {
                    Ok((got + v, c + 1))
                } else {
                    spec_collect(lines, c + 1, want, got + v)
                },
            },
        }
    }
}

/// Reading the solution values of the first `n` grids, starting at line `c`.
/// The values gathered for a grid of `t` points end with its five variable
/// arrays of `t` values each; everything before them is the metadata.
pub open spec fn spec_ascii_solutions(
    lines: Seq<SpecLine>,
    dims: Seq<GridDimensions>,
    n: nat,
    c: int,
) -> Result<(Seq<SpecSolution>, int), Plot3DError>
    decreases n,
{
    if n == 0 {
        Ok((Seq::empty(), c))
    } else {
        match spec_ascii_solutions(lines, dims, (n - 1) as nat, c) {
            Err(e) => Err(e),
            Ok((ss, c1)) => {
                let d = dims[n - 1];
                let t = d.points() as int;
                let m = 4 + 5 * t;
                match spec_collect(lines, c1, m as nat, Seq::empty()) {
                    Err(e) => Err(e),
                    Ok((vals, c2)) => if vals.len() < m {
                        Err(Plot3DError::IncompleteSolution { grid_index: (n - 1) as usize, expected: m as u128, got: vals.len() as usize })
                    } else {
                        let k = vals.len() - 5 * t;
                        Ok((
                            ss.push(SpecSolution {
                                grid_index: n - 1,
                                dimensions: d,
                                precision: Precision::F32,
                                rho: widen(vals.subrange(k, k + t)),
                                rhou: widen(vals.subrange(k + t, k + 2 * t)),
                                rhov: widen(vals.subrange(k + 2 * t, k + 3 * t)),
                                rhow: widen(vals.subrange(k + 3 * t, k + 4 * t)),
                                rhoe: widen(vals.subrange(k + 4 * t, k + 5 * t)),
                                gamma: if t == 0 { Some(Seq::empty()) } else { None },
                                metadata: Some(spec_metadata(vals.subrange(0, k))),
                            }),
                            c2,
                        ))
                    },
                }
            },
        }
    }
}

proof fn lemma_collect_lines(lines: Seq<SpecLine>, c: int, m: nat, k: nat, want: nat, v: Seq<u32>)
    requires
        0 <= c,
        k < m,
        numbers_of_lines(lines, c, m) == Some(v),
        v.len() >= want,
        numbers_of_lines(lines, c, (m - 1) as nat).unwrap().len() < want,
    ensures
        spec_collect(lines, c + k, want, numbers_of_lines(lines, c, k).unwrap()) == Ok::<(Seq<u32>, int), Plot3DError>((v, c + m)),
    decreases m - k,
{
    lemma_numbers_prefix(lines, c, m, (k + 1) as nat);
    let got = numbers_of_lines(lines, c, k).unwrap();
    let next = numbers_of_lines(lines, c, (k + 1) as nat).unwrap();
    assert(0 <= c + k < lines.len());
    let w = match lines[c + k] {
        SpecLine::Text { chars: _, numbers: Some(w) } => w,
        _ => Seq::empty(),
    };
    assert(next == got + w);
    assert(lines[c + k] matches SpecLine::Text { chars: _, numbers: Some(_) });
    if k + 1 < m {
        lemma_numbers_prefix(lines, c, (m - 1) as nat, (k + 1) as nat);
        assert((got + w).len() < want);
        assert(spec_collect(lines, c + k, want, got) == spec_collect(lines, c + k + 1, want, got + w));
        lemma_collect_lines(lines, c, m, (k + 1) as nat, want, v);
    } else {
        assert(next == v);
    }
}

/// The variables of each grid of an ASCII solution file are taken in order
/// from the end of the numbers gathered for it: when the lines from `c1`
/// (where the previous grids ended) on hold the numbers `v`, the first m - 1
/// of them fewer than the 4 + 5t values a grid of t points needs and all m at
/// least that many, the last 5t numbers are rho, rho*u, rho*v, rho*w and
/// rho*e, t each and in that order, everything before them is the metadata,
/// and the next grid starts on the line after those m lines.
pub proof fn law_ascii_variables_in_order(
    lines: Seq<SpecLine>,
    dims: Seq<GridDimensions>,
    n: nat,
    c: int,
    ss: Seq<SpecSolution>,
    c1: int,
    m: nat,
    v: Seq<u32>,
)
    requires
        1 <= n <= dims.len(),
        spec_ascii_solutions(lines, dims, (n - 1) as nat, c) == Ok::<(Seq<SpecSolution>, int), Plot3DError>((ss, c1)),
        0 <= c1,
        m >= 1,
        numbers_of_lines(lines, c1, m) == Some(v),
        v.len() >= 4 + 5 * dims[n - 1].points(),
        numbers_of_lines(lines, c1, (m - 1) as nat).unwrap().len() < 4 + 5 * dims[n - 1].points(),
    ensures
        ({
            let t = dims[n - 1].points() as int;
            let k = v.len() - 5 * t;
            spec_ascii_solutions(lines, dims, n, c) == Ok::<(Seq<SpecSolution>, int), Plot3DError>((
                ss.push(SpecSolution {
                    grid_index: n - 1,
                    dimensions: dims[n - 1],
                    precision: Precision::F32,
                    rho: widen(v.subrange(k, k + t)),
                    rhou: widen(v.subrange(k + t, k + 2 * t)),
                    rhov: widen(v.subrange(k + 2 * t, k + 3 * t)),
                    rhow: widen(v.subrange(k + 3 * t, k + 4 * t)),
                    rhoe: widen(v.subrange(k + 4 * t, k + 5 * t)),
                    gamma: if t == 0 { Some(Seq::empty()) } else { None },
                    metadata: Some(spec_metadata(v.subrange(0, k))),
                }),
                c1 + m,
            ))
        }),
{
    let t = dims[n - 1].points();
    lemma_collect_lines(lines, c1, m, 0, (4 + 5 * t) as nat, v);
    assert(numbers_of_lines(lines, c1, 0).unwrap() == Seq::<u32>::empty());
}

/// Reading a whole ASCII solution file: the grid count, one line of
/// dimensions per grid, then for each grid its metadata values followed by
/// its five variable arrays.
pub open spec fn spec_ascii_solution_file(lines: Seq<SpecLine>) -> Result<Seq<SpecSolution>, Plot3DError> {
    match spec_ascii_header(lines, false) {
        Err(e) => Err(e),
        Ok(dims) => match spec_ascii_solutions(lines, dims, dims.len(), (dims.len() + 1) as int) {
            Err(e) => Err(e),
            Ok((ss, _)) => Ok(ss),
        },
    }
}

proof fn lemma_ascii_solutions_sized(lines: Seq<SpecLine>, dims: Seq<GridDimensions>, n: nat, c: int)
    requires
        n <= dims.len(),
    ensures
        spec_ascii_solutions(lines, dims, n, c) matches Ok((ss, _)) ==> ss.len() == n
            && forall|k: int| 0 <= k < ss.len() ==> {
                &&& (#[trigger] ss[k]).grid_index == k
                &&& ss[k].dimensions == dims[k]
                &&& solution_well_sized(ss[k])
            },
    decreases n,
{
    if n > 0 {
        lemma_ascii_solutions_sized(lines, dims, (n - 1) as nat, c);
    }
}

/// Every solution that an ASCII solution file yields belongs to the grid of
/// its position in the file and holds one value per point in each of its
/// arrays.
pub proof fn law_ascii_solutions_well_sized(lines: Seq<SpecLine>)
    ensures
        spec_ascii_solution_file(lines) matches Ok(sols) ==> forall|k: int| 0 <= k < sols.len() ==> {
            &&& (#[trigger] sols[k]).grid_index == k
            &&& solution_well_sized(sols[k])
        },
{
    if let Ok(dims) = spec_ascii_header(lines, false) {
        lemma_ascii_solutions_sized(lines, dims, dims.len(), (dims.len() + 1) as int);
    }
}

/// The metadata recorded after reading an ASCII solution file.
pub open spec fn ascii_file_metadata() -> (Seq<char>, Seq<char>, Seq<char>) {
    ("ASCII"@, "f32"@, "N/A"@)
}

proof fn lemma_ascii_solutions_error_sticks(lines: Seq<SpecLine>, dims: Seq<GridDimensions>, m: nat, n: nat, c: int)
    requires
        m <= n,
        spec_ascii_solutions(lines, dims, m, c) is Err,
    ensures
        spec_ascii_solutions(lines, dims, n, c) == spec_ascii_solutions(lines, dims, m, c),
    decreases n - m,
{
    if m < n {
        lemma_ascii_solutions_error_sticks(lines, dims, m, (n - 1) as nat, c);
    }
}

/// Gathers at least `want` values from the lines starting at `c`, if there
/// are enough.
fn collect_values(lines: &Vec<AsciiLine>, c: usize, want: u128) -> (r: Result<(Vec<u32>, usize), Plot3DError>)
    requires
        c <= lines@.len(),
    ensures
        r matches Ok((_, c2)) ==> c2 <= lines@.len(),
        match r {
            Ok((v, c2)) => spec_collect(lines_view(lines@), c as int, want as nat, Seq::empty())
                == Ok::<(Seq<u32>, int), Plot3DError>((v@, c2 as int)),
            Err(e) => spec_collect(lines_view(lines@), c as int, want as nat, Seq::empty())
                == Err::<(Seq<u32>, int), Plot3DError>(e),
        },
{
    let ghost lv = lines_view(lines@);
    let mut got: Vec<u32> = Vec::new();
    let mut k = c;
    while k < lines.len()
        invariant
            c <= k <= lines@.len(),
            lv == lines_view(lines@),
            spec_collect(lv, c as int, want as nat, Seq::empty()) == spec_collect(lv, k as int, want as nat, got@),
        decreases lines@.len() - k,
    {
        assert(lv[k as int] == lines@[k as int]@);
        match &lines[k] {
            AsciiLine::Unreadable => {
                return Err(Plot3DError::UnreadableLine(k));
            },
            AsciiLine::Text { chars: _, numbers } => match numbers {
                None => {
                    return Err(Plot3DError::CannotParseValue);
                },
                Some(v) => {
                    let ghost old_got = got@;
                    let mut t: usize = 0;
                    while t < v.len()
                        invariant
                            t <= v@.len(),
                            got@ =~= old_got + v@.take(t as int),
                        decreases v@.len() - t,
                    {
                        got.push(v[t]);
                        t = t + 1;
                    }
                    assert(v@.take(v@.len() as int) =~= v@);
                    if (got.len() as u128) >= want {
                        return Ok((got, k + 1));
                    }
                },
            },
        }
        k = k + 1;
    }
    Ok((got, k))
}

/// Reads an ASCII PLOT3D solution file, given as its lines. On success the
/// file's format ("ASCII"), precision ("f32") and byte order ("N/A") are
/// recorded in `last`.
pub fn read_plot3d_solution_ascii(lines: &Vec<AsciiLine>, last: &mut LastSolutionMetadata) -> (r: Result<Vec<Plot3DSolution>, Plot3DError>)
    ensures
        match r {
            Ok(v) => spec_ascii_solution_file(lines_view(lines@)) == Ok::<Seq<SpecSolution>, Plot3DError>(solutions_view(v@))
                && final(last)@ == Some(ascii_file_metadata()),
            Err(e) => spec_ascii_solution_file(lines_view(lines@)) == Err::<Seq<SpecSolution>, Plot3DError>(e)
                && final(last)@ == old(last)@,
        },
{
    let ghost lv = lines_view(lines@);
    let dims = read_ascii_header(lines, false)?;
    proof {
        lemma_ascii_header_shape(lv, false);
    }
    let start = dims.len() + 1;
    let mut sols: Vec<Plot3DSolution> = Vec::new();
    assert(solutions_view(sols@) =~= Seq::<SpecSolution>::empty());
    let mut c = start;
    let mut g: usize = 0;
    while g < dims.len()
        invariant
            g <= dims@.len(),
            lv == lines_view(lines@),
            start == dims@.len() + 1,
            spec_ascii_header(lv, false) == Ok::<Seq<GridDimensions>, Plot3DError>(dims@),
            c <= lines@.len(),
            spec_ascii_solutions(lv, dims@, g as nat, start as int) == Ok::<(Seq<SpecSolution>, int), Plot3DError>((solutions_view(sols@), c as int)),
        decreases dims@.len() - g,
    {
        let d = dims[g];
        let t = d.point_count();
        let want = 4 + 5 * t;
        let (vals, c2) = match collect_values(lines, c, want) {
            Ok(p) => p,
            Err(e) => {
                proof {
                    lemma_ascii_solutions_error_sticks(lv, dims@, (g + 1) as nat, dims@.len(), start as int);
                }
                return Err(e);
            },
        };
        let len = vals.len();
        if (len as u128) < want {
            proof {
                lemma_ascii_solutions_error_sticks(lv, dims@, (g + 1) as nat, dims@.len(), start as int);
            }
            return Err(Plot3DError::IncompleteSolution { grid_index: g, expected: want, got: len });
        }
        let tt = t as usize;
        let k = len - 5 * tt;
        let metadata_values = copy_range(&vals, 0, k);
        let s = Plot3DSolution {
            grid_index: g,
            dimensions: d,
            precision: Precision::F32,
            rho: widen_range(&vals, k, k + tt),
            rhou: widen_range(&vals, k + tt, k + 2 * tt),
            rhov: widen_range(&vals, k + 2 * tt, k + 3 * tt),
            rhow: widen_range(&vals, k + 3 * tt, k + 4 * tt),
            rhoe: widen_range(&vals, k + 4 * tt, k + 5 * tt),
            gamma: if tt == 0 { Some(Vec::new()) } else { None },
            metadata: Some(metadata_from_values(&metadata_values)),
        };
        proof {
            if tt == 0 {
                assert(s@.gamma->Some_0 =~= Seq::<u64>::empty());
            }
        }
        let ghost old_view = solutions_view(sols@);
        sols.push(s);
        assert(solutions_view(sols@) =~= old_view.push(s@));
        c = c2;
        g = g + 1;
    }
    set_last_solution_metadata(
        last,
        SolutionFileMetadata { format: "ASCII".to_string(), precision: "f32".to_string(), byte_order: "N/A".to_string() },
    );
    Ok(sols)
}

} // verus!
