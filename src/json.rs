use vstd::prelude::*;

use crate::text::{chars_of, is_white_space, string_of, white_space};

verus! {

/// Why a JSON text could not be read.
#[derive(Debug, Clone, PartialEq, Eq)]
pub enum JsonError {
    /// The input was empty (or only white space).
    Empty,
    /// At the given position the given character was read invalidly.
    InvalidChar(char, usize),
    /// A string with no closing quote.
    UnterminatedString,
    /// The input ended on a backslash.
    EndedOnEscape,
    /// An unknown escape sequence was encountered.
    UnknownEscapeSequence(char),
    /// Something other than a string was used as an object key.
    NonStringAsKey,
    /// A `\uXXXX` escape named no valid code point.
    InvalidCodepoint,
    /// A number that JSON does not allow, though it may be a fine
    /// floating-point number.
    InvalidNumber,
    /// The input ended before an array was closed.
    UnterminatedArray,
    /// The input ended before an object was closed.
    UnterminatedObject,
}

/// A JSON value. A number is kept as the text that spelled it, which the
/// JSON number grammar has accepted.
#[derive(Debug, PartialEq)]
pub enum JsonObject {
    Array(Vec<JsonObject>),
    Object(Vec<(String, JsonObject)>),
    Number(String),
    JsonString(String),
    Bool(bool),
    Null,
}

/// A JSON value in mathematical terms: what a `JsonObject` holds, with its
/// texts as character sequences.
pub enum JsonView {
    Array(Seq<JsonView>),
    Object(Seq<(Seq<char>, JsonView)>),
    Number(Seq<char>),
    Str(Seq<char>),
    Bool(bool),
    Null,
}

/// The mathematical value of a `JsonObject`.
pub open spec fn json_view(j: JsonObject) -> JsonView
    decreases j,
{
    match j {
        JsonObject::Array(v) => JsonView::Array(
            Seq::new(v@.len(), |i: int| if 0 <= i < v@.len() { json_view(v@[i]) } else { JsonView::Null }),
        ),
        JsonObject::Object(v) => JsonView::Object(
            Seq::new(v@.len(), |i: int| if 0 <= i < v@.len() { (v@[i].0@, json_view(v@[i].1)) } else { (Seq::empty(), JsonView::Null) }),
        ),
        JsonObject::Number(t) => JsonView::Number(t@),
        JsonObject::JsonString(t) => JsonView::Str(t@),
        JsonObject::Bool(b) => JsonView::Bool(b),
        JsonObject::Null => JsonView::Null,
    }
}

/// The first position at or after `j` that does not hold an ASCII digit.
pub open spec fn digits_end(buf: Seq<char>, j: int) -> int
    decreases buf.len() - j,
{
    if 0 <= j < buf.len() && '0' <= buf[j] && buf[j] <= '9' {
        digits_end(buf, j + 1)
    } else {
        j
    }
}

pub open spec fn is_sign(c: char) -> bool {
    c == '+' || c == '-'
}

/// Where the digits of a number that starts at `i` begin: after its sign.
pub open spec fn number_digits_start(buf: Seq<char>, i: int) -> int {
    if i < buf.len() && is_sign(buf[i]) {
        i + 1
    } else {
        i
    }
}

/// Whether the integer part of the number at `i` has more than one digit
/// and starts with 0.
pub open spec fn has_leading_zero(buf: Seq<char>, i: int) -> bool {
    let j1 = number_digits_start(buf, i);
    digits_end(buf, j1) - j1 > 1 && buf[j1] == '0'
}

/// Where the number text that starts at `i` ends: an optional sign, digits,
/// optionally `.` and digits, optionally `e` or `E`, a sign and digits.
pub open spec fn number_end(buf: Seq<char>, i: int) -> int {
    let j2 = digits_end(buf, number_digits_start(buf, i));
    let j3 = if j2 < buf.len() && buf[j2] == '.' {
        digits_end(buf, j2 + 1)
    } else {
        j2
    };
    if j3 < buf.len() && (buf[j3] == 'e' || buf[j3] == 'E') {
        digits_end(buf, number_digits_start(buf, j3 + 1))
    } else {
        j3
    }
}

/// Whether `token` ends with a number of the JSON grammar.
pub uninterp spec fn json_number_matches(token: Seq<char>) -> bool;

/// Relies on regex's Regex::new and Regex::is_match, with the pattern
/// `[+-]?(?:0|[1-9]\d*)(?:\.\d+)?(?:[eE][+-]?\d+)?$`.
#[verifier::external_body]
fn is_json_number(token: &str) -> (r: bool)
    ensures
        r == json_number_matches(token@),
{
    let re = regex::Regex::new(r"[+-]?(?:0|[1-9]\d*)(?:\.\d+)?(?:[eE][+-]?\d+)?$").unwrap();
    re.is_match(token)
}

/// The UTF-16 units of a character.
pub open spec fn utf16_of(c: char) -> Seq<u16> {
    if (c as u32) < 0x10000u32 {
        seq![c as u16]
    } else {
        let w = ((c as u32) - 0x10000u32) as u32;
        seq![(0xD800u32 + (w >> 10u32)) as u16, (0xDC00u32 + (w & 0x3FFu32)) as u16]
    }
}

fn push_utf16(units: &mut Vec<u16>, c: char)
    ensures
        final(units)@ == old(units)@ + utf16_of(c),
{
    let v = c as u32;
    if v < 0x10000 {
        units.push(v as u16);
        assert(final(units)@ =~= old(units)@ + utf16_of(c));
    } else {
        let w = v - 0x10000;
        assert(v <= 0x10FFFF);
        assert((w >> 10u32) <= 0x3FFu32 && (w & 0x3FFu32) <= 0x3FFu32) by (bit_vector)
            requires
                w <= 0x10FFFFu32 - 0x10000u32,
        ;
        let hi = (0xD800u32 + (w >> 10u32)) as u16;
        let lo = (0xDC00u32 + (w & 0x3FFu32)) as u16;
        units.push(hi);
        units.push(lo);
        assert(final(units)@ =~= old(units)@ + utf16_of(c));
    }
}

/// What a UTF-16 sequence decodes to; `None` when it holds an unpaired
/// surrogate.
pub uninterp spec fn utf16_decode_of(units: Seq<u16>) -> Option<Seq<char>>;

pub open spec fn opt_string_view(o: Option<String>) -> Option<Seq<char>> {
    match o {
        Some(s) => Some(s@),
        None => None,
    }
}

/// Relies on std's String::from_utf16: the decoded text, or an error for an
/// unpaired surrogate.
#[verifier::external_body]
fn string_from_utf16(units: &[u16]) -> (r: Option<String>)
    ensures
        opt_string_view(r) == utf16_decode_of(units@),
{
    String::from_utf16(units).ok()
}

/// The value of a hexadecimal digit.
pub open spec fn hex_value(c: char) -> Option<u16> {
    if '0' <= c && c <= '9' {
        Some((c as u32 - '0' as u32) as u16)
    } else if 'a' <= c && c <= 'f' {
        Some((c as u32 - 'a' as u32 + 10) as u16)
    } else if 'A' <= c && c <= 'F' {
        Some((c as u32 - 'A' as u32 + 10) as u16)
    } else {
        None
    }
}

fn hex_digit(c: char) -> (r: Option<u16>)
    ensures
        r == hex_value(c),
{
    if '0' <= c && c <= '9' {
        Some((c as u32 - '0' as u32) as u16)
    } else if 'a' <= c && c <= 'f' {
        Some((c as u32 - 'a' as u32 + 10) as u16)
    } else if 'A' <= c && c <= 'F' {
        Some((c as u32 - 'A' as u32 + 10) as u16)
    } else {
        None
    }
}

/// The character that a one-letter escape `\\e` stands for.
pub open spec fn simple_escape(e: char) -> Option<char> {
    if e == '\\' || e == '/' || e == '"' {
        Some(e)
    } else if e == 'b' {
        Some('\u{8}')
    } else if e == 'f' {
        Some('\u{c}')
    } else if e == 'n' {
        Some('\n')
    } else if e == 'r' {
        Some('\r')
    } else if e == 't' {
        Some('\t')
    } else {
        None
    }
}

/// `16` to the power `n`, for `n` up to 4.
pub open spec fn pow16(n: int) -> u32 {
    if n <= 0 {
        1
    } else if n == 1 {
        16
    } else if n == 2 {
        256
    } else if n == 3 {
        4096
    } else {
        65536
    }
}

/// Reading the four hex digits of a `\\u` escape whose `u` stands at `p`:
/// the code unit, or the position where reading stopped.
pub open spec fn hex4(buf: Seq<char>, p: int) -> Result<u16, int> {
    if p + 1 >= buf.len() || hex_value(buf[p + 1]) is None {
        Err(p + 1)
    } else if p + 2 >= buf.len() || hex_value(buf[p + 2]) is None {
        Err(p + 2)
    } else if p + 3 >= buf.len() || hex_value(buf[p + 3]) is None {
        Err(p + 3)
    } else if p + 4 >= buf.len() || hex_value(buf[p + 4]) is None {
        Err(p + 4)
    } else {
        Ok((((hex_value(buf[p + 1])->0 as int * 16 + hex_value(buf[p + 2])->0 as int) * 16
            + hex_value(buf[p + 3])->0 as int) * 16 + hex_value(buf[p + 4])->0 as int) as u16)
    }
}

/// Reading the body of a string whose last read character stands at `p`,
/// with `units` read so far: the UTF-16 units up to the closing quote and
/// the position after it, or the error and where reading stopped.
pub open spec fn string_from(buf: Seq<char>, p: int, units: Seq<u16>) -> (Result<Seq<u16>, JsonError>, int)
    decreases buf.len() - p,
{
    let q = p + 1;
    if p < 0 || q >= buf.len() {
        (Err(JsonError::UnterminatedString), buf.len() as int)
    } else {
        let c = buf[q];
        if c == '\\' {
            if q + 1 >= buf.len() {
                (Err(JsonError::Empty), buf.len() as int)
            } else {
                let e = buf[q + 1];
                match simple_escape(e) {
                    Some(x) => string_from(buf, q + 1, units + utf16_of(x)),
                    None => if e == 'u' {
                        match hex4(buf, q + 1) {
                            Ok(u) => string_from(buf, q + 5, units.push(u)),
                            Err(at) => (Err(JsonError::InvalidCodepoint), if at < buf.len() {
                                at
                            } else {
                                buf.len() as int
                            }),
                        }
                    } else {
                        (Err(JsonError::InvalidChar(e, (q + 1) as usize)), q + 1)
                    },
                }
            }
        } else if c == '"' {
            (Ok(units), q + 1)
        } else if c == '\n' || c == '\r' || c == '\t' {
            (Err(JsonError::InvalidChar(c, q as usize)), q)
        } else {
            string_from(buf, q, units + utf16_of(c))
        }
    }
}

/// The first position at or after `i` that is the end of `buf` or holds a
/// character that is not white space.
pub open spec fn skip_from(buf: Seq<char>, i: int) -> int
    decreases buf.len() - i,
{
    if i >= buf.len() || !is_white_space(buf[i]) {
        i
    } else {
        skip_from(buf, i + 1)
    }
}

/// The first position from `k` on where `goal` and the text at `i` differ,
/// or the length of `goal` when they agree.
pub open spec fn given_mismatch(buf: Seq<char>, i: int, goal: Seq<char>, k: int) -> int
    decreases goal.len() - k,
{
    if k < 0 || k >= goal.len() || buf[i + k] != goal[k] {
        k
    } else {
        given_mismatch(buf, i, goal, k + 1)
    }
}

/// Reading the text `goal` at `i`: `None` when it is there, else the error;
/// and where the cursor stops.
pub open spec fn fixed_outcome(buf: Seq<char>, i: int, goal: Seq<char>) -> (Option<JsonError>, int) {
    let k = given_mismatch(buf, i, goal, 0);
    if buf.len() < i + goal.len() {
        (Some(JsonError::Empty), i)
    } else if k < goal.len() {
        (Some(JsonError::InvalidChar(buf[i + k], (i + k) as usize)), i + k)
    } else {
        (None, i + goal.len())
    }
}

/// Reading a number at `i`: its text or the error, and where the cursor
/// stops.
pub open spec fn number_outcome(buf: Seq<char>, i: int) -> (Result<Seq<char>, JsonError>, int) {
    let end = number_end(buf, i);
    if has_leading_zero(buf, i) {
        (Err(JsonError::InvalidNumber), digits_end(buf, number_digits_start(buf, i)))
    } else if json_number_matches(buf.subrange(i, end)) {
        (Ok(buf.subrange(i, end)), end)
    } else {
        (Err(JsonError::InvalidNumber), end)
    }
}

/// Whether `r` is what reading a number at `i` gives.
pub open spec fn number_read(buf: Seq<char>, i: int, r: Result<JsonObject, JsonError>, pos: int) -> bool {
    let (res, p) = number_outcome(buf, i);
    &&& pos == p
    &&& match res {
        Ok(t) => r matches Ok(JsonObject::Number(x)) && x@ == t,
        Err(e) => r == Err::<JsonObject, JsonError>(e),
    }
}

/// Whether `r` is what reading a string at `i` gives.
pub open spec fn string_read(buf: Seq<char>, i: int, r: Result<JsonObject, JsonError>, pos: int) -> bool {
    let (res, p) = string_from(buf, i, Seq::empty());
    &&& pos == p
    &&& match res {
        Ok(u) => match utf16_decode_of(u) {
            Some(text) => r matches Ok(JsonObject::JsonString(t)) && t@ == text,
            None => r == Err::<JsonObject, JsonError>(JsonError::InvalidCodepoint),
        },
        Err(e) => r == Err::<JsonObject, JsonError>(e),
    }
}

/// Whether `r` is what reading the text `goal` at `i`, standing for
/// `value`, gives.
pub open spec fn fixed_read(buf: Seq<char>, i: int, goal: Seq<char>, value: JsonObject, r: Result<JsonObject, JsonError>, pos: int) -> bool {
    let (res, p) = fixed_outcome(buf, i, goal);
    &&& pos == p
    &&& match res {
        None => r == Ok::<JsonObject, JsonError>(value),
        Some(e) => r == Err::<JsonObject, JsonError>(e),
    }
}

/// Whether a value can start with `c`.
pub open spec fn starts_value(c: char) -> bool {
    c == '{' || c == '[' || ('0' <= c && c <= '9') || is_sign(c) || c == '"' || c == 'f' || c
        == 't' || c == 'n'
}

proof fn lemma_skip_from_bounds(buf: Seq<char>, i: int)
    requires
        0 <= i,
    ensures
        i <= skip_from(buf, i),
        i <= buf.len() ==> skip_from(buf, i) <= buf.len(),
        skip_from(buf, i) < buf.len() ==> !is_white_space(buf[skip_from(buf, i)]),
    decreases buf.len() - i,
{
    if i < buf.len() && is_white_space(buf[i]) {
        lemma_skip_from_bounds(buf, i + 1);
    }
}

proof fn lemma_digits_end_bounds(buf: Seq<char>, j: int)
    ensures
        j <= digits_end(buf, j),
    decreases buf.len() - j,
{
    if 0 <= j < buf.len() && '0' <= buf[j] && buf[j] <= '9' {
        lemma_digits_end_bounds(buf, j + 1);
    }
}

/// A number that starts with a digit or a sign ends after it.
proof fn lemma_number_progress(buf: Seq<char>, i: int)
    requires
        0 <= i < buf.len(),
        ('0' <= buf[i] && buf[i] <= '9') || is_sign(buf[i]),
    ensures
        number_end(buf, i) > i,
        digits_end(buf, number_digits_start(buf, i)) >= i,
{
    let j1 = number_digits_start(buf, i);
    lemma_digits_end_bounds(buf, j1);
    if !is_sign(buf[i]) {
        lemma_digits_end_bounds(buf, i + 1);
    }
    let j2 = digits_end(buf, j1);
    if j2 < buf.len() && buf[j2] == '.' {
        lemma_digits_end_bounds(buf, j2 + 1);
    }
    let j3 = if j2 < buf.len() && buf[j2] == '.' {
        digits_end(buf, j2 + 1)
    } else {
        j2
    };
    lemma_digits_end_bounds(buf, number_digits_start(buf, j3 + 1));
}

/// Reading a string body only moves forward, and a string that is read
/// whole ends after its opening position.
proof fn lemma_string_progress(buf: Seq<char>, p: int, units: Seq<u16>)
    requires
        0 <= p < buf.len(),
    ensures
        string_from(buf, p, units).1 >= p,
        string_from(buf, p, units).0 is Ok ==> string_from(buf, p, units).1 > p,
        p <= buf.len() ==> string_from(buf, p, units).1 <= buf.len(),
    decreases buf.len() - p,
{
    let q = p + 1;
    if q < buf.len() {
        let c = buf[q];
        if c == '\\' {
            if q + 1 < buf.len() {
                let e = buf[q + 1];
                match simple_escape(e) {
                    Some(x) => lemma_string_progress(buf, q + 1, units + utf16_of(x)),
                    None => if e == 'u' {
                        match hex4(buf, q + 1) {
                            Ok(u) => lemma_string_progress(buf, q + 5, units.push(u)),
                            Err(at) => {},
                        }
                    },
                }
            }
        } else if c == '"' {
        } else if c == '\n' || c == '\r' || c == '\t' {
        } else {
            lemma_string_progress(buf, q, units + utf16_of(c));
        }
    }
}

/// Whether `c` is one of the four white-space characters that an object
/// skips by hand: space, tab, carriage return and newline.
pub open spec fn is_json_blank(c: char) -> bool {
    c == ' ' || c == '\t' || c == '\r' || c == '\n'
}

/// Reading a value at cursor `p` (white space first), at the top level when
/// `root`: the value or the error, and where the cursor stops. The guards on
/// positions never hold; they keep the definition well founded.
pub open spec fn value_at(buf: Seq<char>, p: int, root: bool) -> (Result<JsonView, JsonError>, int)
    decreases buf.len() - p, 1int,
{
    let k = skip_from(buf, p);
    if p < 0 || p > buf.len() || k < p || k > buf.len() {
        (Err(JsonError::Empty), p)
    } else if k == buf.len() {
        (Err(JsonError::Empty), k)
    } else {
        let c = buf[k];
        if root && c != '{' && c != '[' {
            (Err(JsonError::InvalidChar(c, k as usize)), k)
        } else {
            let (res, q) = dispatch(buf, k);
            if res is Err {
                (res, q)
            } else if root && 0 <= q < buf.len() {
                (Err(JsonError::InvalidChar(buf[q], q as usize)), q)
            } else {
                (res, q)
            }
        }
    }
}

/// Reading the value that starts at `k`, chosen by its first character.
pub open spec fn dispatch(buf: Seq<char>, k: int) -> (Result<JsonView, JsonError>, int)
    decreases buf.len() - k, 0int,
{
    if k < 0 || k >= buf.len() {
        (Err(JsonError::Empty), k)
    } else {
        let c = buf[k];
        let n0 = skip_from(buf, k + 1);
        if c == '{' {
            if n0 < k + 1 || n0 > buf.len() {
                (Err(JsonError::UnterminatedObject), n0)
            } else {
                object_members(buf, n0, Seq::empty())
            }
        } else if c == '[' {
            array_items(buf, k + 1, Seq::empty(), true)
        } else if ('0' <= c && c <= '9') || is_sign(c) {
            match number_outcome(buf, k) {
                (Ok(t), q) => (Ok(JsonView::Number(t)), q),
                (Err(e), q) => (Err(e), q),
            }
        } else if c == '"' {
            string_value(buf, k)
        } else if c == 'f' {
            fixed_value(buf, k, "false"@, JsonView::Bool(false))
        } else if c == 't' {
            fixed_value(buf, k, "true"@, JsonView::Bool(true))
        } else if c == 'n' {
            fixed_value(buf, k, "null"@, JsonView::Null)
        } else {
            (Err(JsonError::InvalidChar(c, k as usize)), k)
        }
    }
}

/// Reading a string at `k` as a value.
pub open spec fn string_value(buf: Seq<char>, k: int) -> (Result<JsonView, JsonError>, int) {
    match string_from(buf, k, Seq::empty()) {
        (Ok(u), q) => match utf16_decode_of(u) {
            Some(t) => (Ok(JsonView::Str(t)), q),
            None => (Err(JsonError::InvalidCodepoint), q),
        },
        (Err(e), q) => (Err(e), q),
    }
}

/// Reading the text `goal`, standing for `v`, at `k` as a value.
pub open spec fn fixed_value(buf: Seq<char>, k: int, goal: Seq<char>, v: JsonView) -> (Result<JsonView, JsonError>, int) {
    match fixed_outcome(buf, k, goal) {
        (None, q) => (Ok(v), q),
        (Some(e), q) => (Err(e), q),
    }
}

/// Reading the rest of an array from cursor `j`, with `elems` read so far
/// (`first` while there are none).
pub open spec fn array_items(buf: Seq<char>, j: int, elems: Seq<JsonView>, first: bool) -> (Result<JsonView, JsonError>, int)
    decreases buf.len() - j, 2int,
{
    let m = skip_from(buf, j);
    if j < 0 || j > buf.len() || m < j || m > buf.len() {
        (Err(JsonError::UnterminatedArray), j)
    } else if m == buf.len() {
        (Err(JsonError::UnterminatedArray), m)
    } else {
        let c = buf[m];
        if c == ',' {
            let n = skip_from(buf, m + 1);
            if first {
                (Err(JsonError::InvalidChar(',', m as usize)), m)
            } else if n < m + 1 || n > buf.len() {
                (Err(JsonError::UnterminatedArray), n)
            } else if n < buf.len() && (buf[n] == ',' || buf[n] == ']') {
                (Err(JsonError::InvalidChar(buf[n], n as usize)), n)
            } else {
                array_items(buf, n, elems, first)
            }
        } else if c == ']' {
            (Ok(JsonView::Array(elems)), skip_from(buf, m + 1))
        } else {
            let (r, q) = value_at(buf, m, false);
            match r {
                Err(e) => (Err(e), q),
                Ok(v) => if q <= m || q > buf.len() {
                    (Err(JsonError::UnterminatedArray), q)
                } else {
                    array_items(buf, q, elems.push(v), false)
                },
            }
        }
    }
}

/// Reading the rest of an object from cursor `j`, with `elems` read so far.
pub open spec fn object_members(buf: Seq<char>, j: int, elems: Seq<(Seq<char>, JsonView)>) -> (Result<JsonView, JsonError>, int)
    decreases buf.len() - j, 2int,
{
    if j < 0 || j > buf.len() {
        (Err(JsonError::UnterminatedObject), j)
    } else if j == buf.len() {
        (Err(JsonError::UnterminatedObject), j)
    } else {
        let c = buf[j];
        if c == '"' {
            match string_from(buf, j, Seq::empty()) {
                (Err(e), q) => (Err(e), q),
                (Ok(u), q) => match utf16_decode_of(u) {
                    None => (Err(JsonError::InvalidCodepoint), q),
                    Some(key) => {
                        let q2 = if 0 <= q < buf.len() && is_json_blank(buf[q]) {
                            skip_from(buf, q + 1)
                        } else {
                            q
                        };
                        if 0 <= q2 < buf.len() && buf[q2] == ':' {
                            let q3 = skip_from(buf, q2 + 1);
                            if q3 <= j || q3 > buf.len() {
                                (Err(JsonError::UnterminatedObject), q3)
                            } else {
                                let (vr, q4) = value_at(buf, q3, false);
                                match vr {
                                    Err(e) => (Err(e), q4),
                                    Ok(v) => if q4 <= j || q4 > buf.len() {
                                        (Err(JsonError::UnterminatedObject), q4)
                                    } else {
                                        object_members(buf, q4, elems.push((key, v)))
                                    },
                                }
                            }
                        } else {
                            (Err(JsonError::NonStringAsKey), q2)
                        }
                    },
                },
            }
        } else if c == '}' {
            (Ok(JsonView::Object(elems)), skip_from(buf, j + 1))
        } else if c == ',' {
            let n = skip_from(buf, j + 1);
            if n <= j || n > buf.len() {
                (Err(JsonError::UnterminatedObject), n)
            } else if n < buf.len() && buf[n] == '}' {
                (Err(JsonError::InvalidChar('}', n as usize)), n)
            } else {
                object_members(buf, n, elems)
            }
        } else if is_json_blank(c) {
            object_members(buf, j + 1, elems)
        } else {
            (Err(JsonError::InvalidChar(c, j as usize)), j)
        }
    }
}

/// The views of a sequence of values.
pub open spec fn views(s: Seq<JsonObject>) -> Seq<JsonView> {
    Seq::new(s.len(), |i: int| json_view(s[i]))
}

/// The views of a sequence of object members.
pub open spec fn member_views(s: Seq<(String, JsonObject)>) -> Seq<(Seq<char>, JsonView)> {
    Seq::new(s.len(), |i: int| (s[i].0@, json_view(s[i].1)))
}

proof fn lemma_skip_from_idempotent(buf: Seq<char>, i: int)
    requires
        0 <= i,
    ensures
        skip_from(buf, skip_from(buf, i)) == skip_from(buf, i),
    decreases buf.len() - i,
{
    if i < buf.len() && is_white_space(buf[i]) {
        lemma_skip_from_idempotent(buf, i + 1);
    }
}

proof fn lemma_array_items_skip(buf: Seq<char>, j: int, elems: Seq<JsonView>, first: bool)
    requires
        0 <= j <= buf.len(),
    ensures
        array_items(buf, skip_from(buf, j), elems, first) == array_items(buf, j, elems, first),
{
    lemma_skip_from_bounds(buf, j);
    lemma_skip_from_idempotent(buf, j);
}

/// Whether `r`, with the cursor at `pos`, is the outcome `o`.
pub open spec fn value_matches(o: (Result<JsonView, JsonError>, int), r: Result<JsonObject, JsonError>, pos: int) -> bool {
    &&& pos == o.1
    &&& match o.0 {
        Ok(v) => r matches Ok(j) && json_view(j) == v,
        Err(e) => r == Err::<JsonObject, JsonError>(e),
    }
}

/// A cursor over the characters of a JSON text.
pub struct Parser {
    buf: Vec<char>,
    index: usize,
}

impl Parser {
    pub closed spec fn buffer(&self) -> Seq<char> {
        self.buf@
    }

    pub closed spec fn pos(&self) -> int {
        self.index as int
    }

    /// The character under the cursor, if any.
    pub open spec fn peek_spec(&self) -> Option<char> {
        if self.pos() < self.buffer().len() {
            Some(self.buffer()[self.pos()])
        } else {
            None
        }
    }

    pub closed spec fn wf(&self) -> bool {
        self.index <= self.buf@.len()
    }

    /// A cursor at the start of `s`.
    pub fn new(s: &str) -> (r: Self)
        ensures
            r.wf(),
            r.buffer() == s@,
            r.pos() == 0,
    {
        Parser { buf: chars_of(s), index: 0 }
    }

    /// Moves the cursor past any white space.
    pub fn skip_whitespace(&mut self)
        requires
            old(self).wf(),
        ensures
            final(self).wf(),
            final(self).buffer() == old(self).buffer(),
            final(self).pos() == skip_from(old(self).buffer(), old(self).pos()),
    {
        while self.buf.len() > self.index && white_space(self.buf[self.index])
            invariant
                self.wf(),
                self.buffer() == old(self).buffer(),
                skip_from(self.buffer(), self.pos()) == skip_from(old(self).buffer(), old(self).pos()),
            decreases self.buf.len() - self.index,
        {
            self.index = self.index + 1;
        }
    }

    /// Whether the cursor stands past the last character.
    pub fn end_reached(&self) -> (r: bool)
        requires
            self.wf(),
        ensures
            r == (self.pos() >= self.buffer().len()),
    {
        self.index >= self.buf.len()
    }

    /// The character under the cursor, if any.
    pub fn peek(&self) -> (r: Option<char>)
        requires
            self.wf(),
        ensures
            r == self.peek_spec(),
    {
        if self.end_reached() {
            return None;
        }
        Some(self.buf[self.index])
    }

    /// Moves one character on, then past any white space, and returns the
    /// character found there. At the end, stays and returns `None`.
    pub fn next(&mut self) -> (r: Option<char>)
        requires
            old(self).wf(),
        ensures
            final(self).wf(),
            final(self).buffer() == old(self).buffer(),
            old(self).pos() >= old(self).buffer().len() ==> final(self).pos() == old(self).pos(),
            old(self).pos() < old(self).buffer().len() ==> final(self).pos() == skip_from(
                old(self).buffer(),
                old(self).pos() + 1,
            ),
            r == final(self).peek_spec(),
    {
        if self.index >= self.buf.len() {
            return None;
        }
        self.index = self.index + 1;
        self.skip_whitespace();
        self.peek()
    }

    fn digits_end_exec(&self, j: usize) -> (r: usize)
        requires
            self.wf(),
            j <= self.buffer().len(),
        ensures
            r == digits_end(self.buffer(), j as int),
            j <= r <= self.buffer().len(),
    {
        let mut k = j;
        while k < self.buf.len() && '0' <= self.buf[k] && self.buf[k] <= '9'
            invariant
                j <= k <= self.buf@.len(),
                digits_end(self.buffer(), j as int) == digits_end(self.buffer(), k as int),
            decreases self.buf.len() - k,
        {
            k = k + 1;
        }
        k
    }

    /// Reads the text `goal` at the cursor and gives `value` for it.
    pub fn partial_read_given_string(&mut self, goal: &str, value: JsonObject) -> (r: Result<
        JsonObject,
        JsonError,
    >)
        requires
            old(self).wf(),
        ensures
            final(self).wf(),
            final(self).buffer() == old(self).buffer(),
            final(self).pos() >= old(self).pos(),
            fixed_read(old(self).buffer(), old(self).pos(), goal@, value, r, final(self).pos()),
    {
        let g = chars_of(goal);
        if self.buf.len() - self.index < g.len() {
            return Err(JsonError::Empty);
        }
        let ghost i = self.index as int;
        let len = self.buf.len();
        let mut k: usize = 0;
        while k < g.len()
            invariant
                len == self.buf@.len(),
                self.wf(),
                self.buffer() == old(self).buffer(),
                i == old(self).pos(),
                g@ == goal@,
                self.buf@.len() >= i + g@.len(),
                k <= g@.len(),
                self.index == i + k,
                given_mismatch(self.buffer(), i, g@, 0) == given_mismatch(self.buffer(), i, g@, k as int),
            decreases g.len() - k,
        {
            let c = self.buf[self.index];
            if c != g[k] {
                return Err(JsonError::InvalidChar(c, self.index));
            }
            self.index = self.index + 1;
            k = k + 1;
        }
        Ok(value)
    }

    /// Reads a number at the cursor (after any white space): an optional
    /// sign, digits, an optional fraction and an optional exponent. The text
    /// must be a JSON number; an integer part with a leading zero is refused
    /// as soon as it has been read.
    pub fn partial_read_number(&mut self) -> (r: Result<JsonObject, JsonError>)
        requires
            old(self).wf(),
        ensures
            final(self).wf(),
            final(self).buffer() == old(self).buffer(),
            number_read(
                old(self).buffer(),
                skip_from(old(self).buffer(), old(self).pos()),
                r,
                final(self).pos(),
            ),
    {
        self.skip_whitespace();
        let i = self.index;
        let len = self.buf.len();
        let j1 = if i < len && (self.buf[i] == '+' || self.buf[i] == '-') {
            i + 1
        } else {
            i
        };
        let j2 = self.digits_end_exec(j1);
        if j2 - j1 > 1 && self.buf[j1] == '0' {
            self.index = j2;
            return Err(JsonError::InvalidNumber);
        }
        let j3 = if j2 < len && self.buf[j2] == '.' {
            self.digits_end_exec(j2 + 1)
        } else {
            j2
        };
        let end = if j3 < len && (self.buf[j3] == 'e' || self.buf[j3] == 'E') {
            let j5 = if j3 + 1 < len && (self.buf[j3 + 1] == '+' || self.buf[j3 + 1] == '-') {
                j3 + 2
            } else {
                j3 + 1
            };
            self.digits_end_exec(j5)
        } else {
            j3
        };
        self.index = end;
        let mut token: Vec<char> = Vec::new();
        let mut k = i;
        while k < end
            invariant
                i <= k <= end <= self.buf@.len(),
                token@ == self.buf@.subrange(i as int, k as int),
            decreases end - k,
        {
            token.push(self.buf[k]);
            assert(token@ =~= self.buf@.subrange(i as int, k + 1));
            k = k + 1;
        }
        let text = string_of(token.as_slice());
        if !is_json_number(text.as_str()) {
            return Err(JsonError::InvalidNumber);
        }
        Ok(JsonObject::Number(text))
    }

    /// Reads a string at the cursor (after any white space), which stands on
    /// its opening quote: escapes are decoded, a raw newline, carriage return
    /// or tab is refused, and the cursor ends after the closing quote.
    pub fn partial_read_string(&mut self) -> (r: Result<JsonObject, JsonError>)
        requires
            old(self).wf(),
        ensures
            final(self).wf(),
            final(self).buffer() == old(self).buffer(),
            string_read(
                old(self).buffer(),
                skip_from(old(self).buffer(), old(self).pos()),
                r,
                final(self).pos(),
            ),
    {
        self.skip_whitespace();
        let ghost buf = self.buffer();
        let ghost i = self.pos();
        let len = self.buf.len();
        let mut units: Vec<u16> = Vec::new();
        loop
            invariant
                self.wf(),
                buf == self.buffer(),
                buf == old(self).buffer(),
                i == skip_from(old(self).buffer(), old(self).pos()),
                len == buf.len(),
                0 <= self.pos() < len || (self.pos() == i && i >= len),
                string_from(buf, self.pos(), units@) == string_from(buf, i, Seq::empty()),
            decreases len - self.index,
        {
            if self.index >= len {
                return Err(JsonError::UnterminatedString);
            }
            let q = self.index + 1;
            if q >= len {
                self.index = len;
                return Err(JsonError::UnterminatedString);
            }
            let c = self.buf[q];
            if c == '\\' {
                if q + 1 >= len {
                    self.index = len;
                    return Err(JsonError::Empty);
                }
                let e = self.buf[q + 1];
                if e == '\\' || e == '/' || e == '"' {
                    push_utf16(&mut units, e);
                    self.index = q + 1;
                } else if e == 'b' {
                    push_utf16(&mut units, '\u{8}');
                    self.index = q + 1;
                } else if e == 'f' {
                    push_utf16(&mut units, '\u{c}');
                    self.index = q + 1;
                } else if e == 'n' {
                    push_utf16(&mut units, '\n');
                    self.index = q + 1;
                } else if e == 'r' {
                    push_utf16(&mut units, '\r');
                    self.index = q + 1;
                } else if e == 't' {
                    push_utf16(&mut units, '\t');
                    self.index = q + 1;
                } else if e == 'u' {
                    let mut u: u32 = 0;
                    let mut t: usize = 2;
                    while t < 6
                        invariant
                            2 <= t <= 6,
                            self.wf(),
                            buf == old(self).buffer(),
                            i == skip_from(old(self).buffer(), old(self).pos()),
                            self.index + 1 == q,
                            buf[q as int] == '\\',
                            buf[q + 1] == 'u',
                            string_from(buf, self.pos(), units@) == string_from(
                                buf,
                                i,
                                Seq::empty(),
                            ),
                            q + 1 < len,
                            len == buf.len(),
                            buf == self.buffer(),
                            q + t - 1 < len,
                            forall|s: int| 2 <= s < t ==> #[trigger] hex_value(buf[q + s]) is Some,
                            u < 0x10000,
                            t == 6 ==> u as int == (((hex_value(buf[q + 2])->0 as int * 16
                                + hex_value(buf[q + 3])->0 as int) * 16 + hex_value(
                                buf[q + 4],
                            )->0 as int) * 16 + hex_value(buf[q + 5])->0 as int),
                            t == 2 ==> u == 0,
                            t == 3 ==> u as int == hex_value(buf[q + 2])->0 as int,
                            t == 4 ==> u as int == hex_value(buf[q + 2])->0 as int * 16
                                + hex_value(buf[q + 3])->0 as int,
                            t == 5 ==> u as int == (hex_value(buf[q + 2])->0 as int * 16
                                + hex_value(buf[q + 3])->0 as int) * 16 + hex_value(
                                buf[q + 4],
                            )->0 as int,
                            u < pow16(t - 2),
                        decreases 6 - t,
                    {
                        if q + t >= len {
                            self.index = len;
                            return Err(JsonError::InvalidCodepoint);
                        }
                        match hex_digit(self.buf[q + t]) {
                            Some(h) => {
                                assert(u * 16 + (h as u32) < pow16(t - 1)) by (nonlinear_arith)
                                    requires
                                        u < pow16(t - 2),
                                        h < 16,
                                        pow16(t - 1) == pow16(t - 2) * 16,
                                ;
                                u = u * 16 + h as u32;
                            },
                            None => {
                                self.index = q + t;
                                return Err(JsonError::InvalidCodepoint);
                            },
                        }
                        t = t + 1;
                    }
                    units.push(u as u16);
                    self.index = q + 5;
                } else {
                    self.index = q + 1;
                    return Err(JsonError::InvalidChar(e, q + 1));
                }
            } else if c == '"' {
                self.index = q + 1;
                return match string_from_utf16(units.as_slice()) {
                    Some(text) => Ok(JsonObject::JsonString(text)),
                    None => Err(JsonError::InvalidCodepoint),
                };
            } else if c == '\n' || c == '\r' || c == '\t' {
                self.index = q;
                return Err(JsonError::InvalidChar(c, q));
            } else {
                push_utf16(&mut units, c);
                self.index = q;
            }
        }
    }

    pub fn partial_read_false(&mut self) -> (r: Result<JsonObject, JsonError>)
        requires
            old(self).wf(),
        ensures
            final(self).wf(),
            final(self).buffer() == old(self).buffer(),
            final(self).pos() >= old(self).pos(),
            fixed_read(old(self).buffer(), old(self).pos(), "false"@, JsonObject::Bool(false), r, final(self).pos()),
    {
        proof {
            reveal_strlit("false");
        }
        self.partial_read_given_string("false", JsonObject::Bool(false))
    }

    pub fn partial_read_true(&mut self) -> (r: Result<JsonObject, JsonError>)
        requires
            old(self).wf(),
        ensures
            final(self).wf(),
            final(self).buffer() == old(self).buffer(),
            final(self).pos() >= old(self).pos(),
            fixed_read(old(self).buffer(), old(self).pos(), "true"@, JsonObject::Bool(true), r, final(self).pos()),
    {
        proof {
            reveal_strlit("true");
        }
        self.partial_read_given_string("true", JsonObject::Bool(true))
    }

    pub fn partial_read_null(&mut self) -> (r: Result<JsonObject, JsonError>)
        requires
            old(self).wf(),
        ensures
            final(self).wf(),
            final(self).buffer() == old(self).buffer(),
            final(self).pos() >= old(self).pos(),
            fixed_read(old(self).buffer(), old(self).pos(), "null"@, JsonObject::Null, r, final(self).pos()),
    {
        proof {
            reveal_strlit("null");
        }
        self.partial_read_given_string("null", JsonObject::Null)
    }

    /// Reads one value at the cursor, after any white space. At the top
    /// level (`root`) only an object or an array is accepted, and nothing but
    /// white space may follow it.
    pub fn partial_read(&mut self, root: bool) -> (r: Result<JsonObject, JsonError>)
        requires
            old(self).wf(),
        ensures
            final(self).wf(),
            final(self).buffer() == old(self).buffer(),
            final(self).pos() >= old(self).pos(),
            ({
                let buf = old(self).buffer();
                let k = skip_from(buf, old(self).pos());
                &&& k >= buf.len() ==> r == Err::<JsonObject, JsonError>(JsonError::Empty)
                &&& k < buf.len() && (!starts_value(buf[k]) || (root && buf[k] != '{' && buf[k]
                    != '[')) ==> r == Err::<JsonObject, JsonError>(
                    JsonError::InvalidChar(buf[k], k as usize),
                )
                &&& r is Ok ==> k < buf.len() && final(self).pos() > k
                &&& root && r is Ok ==> final(self).pos() == buf.len()
                &&& value_matches(value_at(buf, old(self).pos(), root), r, final(self).pos())
                &&& !root && k < buf.len() && (('0' <= buf[k] && buf[k] <= '9') || is_sign(
                    buf[k],
                )) ==> number_read(buf, k, r, final(self).pos())
                &&& !root && k < buf.len() && buf[k] == '"' ==> string_read(
                    buf,
                    k,
                    r,
                    final(self).pos(),
                )
                &&& !root && k < buf.len() && buf[k] == 'f' ==> fixed_read(
                    buf,
                    k,
                    "false"@,
                    JsonObject::Bool(false),
                    r,
                    final(self).pos(),
                )
                &&& !root && k < buf.len() && buf[k] == 't' ==> fixed_read(
                    buf,
                    k,
                    "true"@,
                    JsonObject::Bool(true),
                    r,
                    final(self).pos(),
                )
                &&& !root && k < buf.len() && buf[k] == 'n' ==> fixed_read(
                    buf,
                    k,
                    "null"@,
                    JsonObject::Null,
                    r,
                    final(self).pos(),
                )
            }),
        decreases old(self).buffer().len() - old(self).pos(), 1int,
    {
        self.skip_whitespace();
        proof {
            lemma_skip_from_bounds(self.buffer(), old(self).pos());
        }
        let c = match self.peek() {
            Some(c) => c,
            None => return Err(JsonError::Empty),
        };
        if root && c != '{' && c != '[' {
            return Err(JsonError::InvalidChar(c, self.index));
        }
        let k = self.index;
        assert(skip_from(self.buffer(), k as int) == k);
        proof {
            reveal_strlit("false");
            reveal_strlit("true");
            reveal_strlit("null");
        }
        let result = if c == '{' {
            self.partial_read_object()
        } else if c == '[' {
            self.partial_read_array()
        } else if ('0' <= c && c <= '9') || c == '+' || c == '-' {
            let r = self.partial_read_number();
            proof {
                lemma_number_progress(self.buffer(), k as int);
            }
            r
        } else if c == '"' {
            let r = self.partial_read_string();
            proof {
                lemma_string_progress(self.buffer(), k as int, Seq::empty());
            }
            r
        } else if c == 'f' {
            self.partial_read_false()
        } else if c == 't' {
            self.partial_read_true()
        } else if c == 'n' {
            self.partial_read_null()
        } else {
            Err(JsonError::InvalidChar(c, self.index))
        };
        proof {
            lemma_skip_from_bounds(self.buffer(), k + 1);
            assert(forall|x: String| json_view(JsonObject::Number(x)) == JsonView::Number(x@));
            assert(forall|x: String| json_view(JsonObject::JsonString(x)) == JsonView::Str(x@));
            assert(json_view(JsonObject::Bool(false)) == JsonView::Bool(false));
            assert(json_view(JsonObject::Bool(true)) == JsonView::Bool(true));
            assert(json_view(JsonObject::Null) == JsonView::Null);
            assert(value_matches(dispatch(self.buffer(), k as int), result, self.pos()));
        }
        if result.is_err() {
            return result;
        }
        if root {
            if let Some(c) = self.peek() {
                return Err(JsonError::InvalidChar(c, self.index));
            }
        }
        result
    }

    /// Reads an array at the cursor, which stands on its `[`: values
    /// separated by commas (or by white space alone), up to the `]`, after
    /// which the cursor skips white space.
    pub fn partial_read_array(&mut self) -> (r: Result<JsonObject, JsonError>)
        requires
            old(self).wf(),
            old(self).pos() < old(self).buffer().len(),
        ensures
            final(self).wf(),
            final(self).buffer() == old(self).buffer(),
            final(self).pos() >= old(self).pos(),
            r matches Ok(v) ==> v is Array && final(self).pos() > old(self).pos(),
            value_matches(
                array_items(old(self).buffer(), old(self).pos() + 1, Seq::empty(), true),
                r,
                final(self).pos(),
            ),
        decreases old(self).buffer().len() - old(self).pos(), 0int,
    {
        let ghost start = self.pos();
        let mut elements: Vec<JsonObject> = Vec::new();
        let mut first_elem = true;
        self.next_no_skip();
        self.skip_whitespace();
        let ghost whole = array_items(self.buffer(), start + 1, Seq::empty(), true);
        proof {
            lemma_skip_from_bounds(self.buffer(), start + 1);
            lemma_array_items_skip(self.buffer(), start + 1, Seq::empty(), true);
            assert(views(elements@) =~= Seq::<JsonView>::empty());
        }
        loop
            invariant
                self.wf(),
                self.buffer() == old(self).buffer(),
                self.pos() > start,
                start == old(self).pos(),
                whole == array_items(old(self).buffer(), start + 1, Seq::empty(), true),
                array_items(self.buffer(), self.pos(), views(elements@), first_elem) == whole,
                first_elem ==> elements@.len() == 0,
            decreases self.buffer().len() - self.pos(),
        {
            let ghost before = self.pos();
            self.skip_whitespace();
            proof {
                lemma_skip_from_bounds(self.buffer(), before);
            }
            match self.peek() {
                Some(',') => {
                    if first_elem {
                        return Err(JsonError::InvalidChar(',', self.index));
                    }
                    let ghost at = self.pos();
                    let n = self.next();
                    proof {
                        lemma_skip_from_bounds(self.buffer(), at + 1);
                    }
                    match n {
                        Some(c) => {
                            if c == ',' || c == ']' {
                                return Err(JsonError::InvalidChar(c, self.index));
                            }
                        },
                        None => {},
                    }
                },
                Some(']') => {
                    let ghost at = self.pos();
                    self.next();
                    proof {
                        lemma_skip_from_bounds(self.buffer(), at + 1);
                    }
                    let r = JsonObject::Array(elements);
                    assert(views(elements@) =~= Seq::new(
                        elements@.len(),
                        |i: int|
                            if 0 <= i < elements@.len() {
                                json_view(elements@[i])
                            } else {
                                JsonView::Null
                            },
                    ));
                    proof {
                        let s = json_view(r)->Array_0;
                        assert(s =~= views(elements@));
                    }
                    return Ok(r);
                },
                Some(_) => {
                    let ghost at = self.pos();
                    let ghost before_views = views(elements@);
                    proof {
                        lemma_skip_from_idempotent(self.buffer(), before);
                    }
                    let elem = self.partial_read(false);
                    match elem {
                        Ok(e) => {
                            let ghost ev = json_view(e);
                            elements.push(e);
                            first_elem = false;
                            assert(views(elements@) =~= before_views.push(ev));
                        },
                        Err(err) => return Err(err),
                    }
                },
                None => return Err(JsonError::UnterminatedArray),
            }
        }
    }

    /// Reads an object at the cursor, which stands on its `{`: members
    /// `"key": value` separated by commas, up to the `}`, after which the
    /// cursor skips white space.
    pub fn partial_read_object(&mut self) -> (r: Result<JsonObject, JsonError>)
        requires
            old(self).wf(),
            old(self).pos() < old(self).buffer().len(),
        ensures
            final(self).wf(),
            final(self).buffer() == old(self).buffer(),
            final(self).pos() >= old(self).pos(),
            r matches Ok(v) ==> v is Object && final(self).pos() > old(self).pos(),
            value_matches(
                object_members(
                    old(self).buffer(),
                    skip_from(old(self).buffer(), old(self).pos() + 1),
                    Seq::empty(),
                ),
                r,
                final(self).pos(),
            ),
        decreases old(self).buffer().len() - old(self).pos(), 0int,
    {
        let ghost start = self.pos();
        let len = self.buf.len();
        let mut elements: Vec<(String, JsonObject)> = Vec::new();
        self.next();
        let ghost whole = object_members(
            self.buffer(),
            skip_from(self.buffer(), start + 1),
            Seq::empty(),
        );
        proof {
            lemma_skip_from_bounds(self.buffer(), start + 1);
            assert(member_views(elements@) =~= Seq::<(Seq<char>, JsonView)>::empty());
        }
        loop
            invariant
                self.wf(),
                len == self.buffer().len(),
                self.buffer() == old(self).buffer(),
                self.pos() > start,
                start == old(self).pos(),
                whole == object_members(
                    old(self).buffer(),
                    skip_from(old(self).buffer(), start + 1),
                    Seq::empty(),
                ),
                object_members(self.buffer(), self.pos(), member_views(elements@)) == whole,
            decreases self.buffer().len() - self.pos(),
        {
            let ghost j = self.pos();
            let ghost mv = member_views(elements@);
            match self.peek() {
                Some('"') => {
                    proof {
                        assert(!is_white_space('"'));
                        assert(skip_from(self.buffer(), j) == j);
                        lemma_string_progress(self.buffer(), j, Seq::empty());
                    }
                    let key = self.partial_read_string();
                    let key = match key {
                        Ok(JsonObject::JsonString(k)) => k,
                        Ok(_) => return Err(JsonError::NonStringAsKey),
                        Err(e) => return Err(e),
                    };
                    let ghost q = self.pos();
                    match self.peek() {
                        Some(c) => {
                            if c == ' ' || c == '\t' || c == '\r' || c == '\n' {
                                self.next();
                                proof {
                                    lemma_skip_from_bounds(self.buffer(), q + 1);
                                }
                            }
                        },
                        None => {},
                    }
                    let ghost q2 = self.pos();
                    let colon = match self.peek() {
                        Some(c) => c == ':',
                        None => false,
                    };
                    if colon {
                        self.next();
                        let ghost q3 = self.pos();
                        proof {
                            lemma_skip_from_bounds(self.buffer(), q2 + 1);
                            lemma_skip_from_idempotent(self.buffer(), q2 + 1);
                        }
                        let element = self.partial_read(false);
                        match element {
                            Ok(e) => {
                                let ghost pair = (key@, json_view(e));
                                elements.push((key, e));
                                assert(member_views(elements@) =~= mv.push(pair));
                            },
                            Err(e) => return Err(e),
                        }
                    } else {
                        return Err(JsonError::NonStringAsKey);
                    }
                },
                Some('}') => {
                    self.next();
                    proof {
                        lemma_skip_from_bounds(self.buffer(), j + 1);
                    }
                    let r = JsonObject::Object(elements);
                    assert(mv =~= Seq::new(
                        elements@.len(),
                        |i: int|
                            if 0 <= i < elements@.len() {
                                (elements@[i].0@, json_view(elements@[i].1))
                            } else {
                                (Seq::empty(), JsonView::Null)
                            },
                    ));
                    proof {
                        let s = json_view(r)->Object_0;
                        assert(s =~= mv);
                    }
                    return Ok(r);
                },
                Some(',') => {
                    self.next();
                    proof {
                        lemma_skip_from_bounds(self.buffer(), j + 1);
                    }
                    let close = match self.peek() {
                        Some(c) => c == '}',
                        None => false,
                    };
                    if close {
                        return Err(JsonError::InvalidChar('}', self.index));
                    }
                },
                Some(c) => {
                    if c == ' ' || c == '\t' || c == '\r' || c == '\n' {
                        self.index = self.index + 1;
                    } else {
                        return Err(JsonError::InvalidChar(c, self.index));
                    }
                },
                None => return Err(JsonError::UnterminatedObject),
            }
        }
    }

    /// Moves one character on and returns the character found there. At the
    /// end, stays and returns `None`.
    pub fn next_no_skip(&mut self) -> (r: Option<char>)
        requires
            old(self).wf(),
        ensures
            final(self).wf(),
            final(self).buffer() == old(self).buffer(),
            old(self).pos() >= old(self).buffer().len() ==> final(self).pos() == old(self).pos(),
            old(self).pos() < old(self).buffer().len() ==> final(self).pos() == old(self).pos() + 1,
            r == final(self).peek_spec(),
    {
        if self.index >= self.buf.len() {
            return None;
        }
        self.index = self.index + 1;
        self.peek()
    }
}

impl JsonObject {
    /// Reads a JSON text: an object or an array, with nothing but white
    /// space around it.
    pub fn read(s: &str) -> (r: Result<JsonObject, JsonError>)
        ensures
            ({
                let k = skip_from(s@, 0);
                &&& k >= s@.len() ==> r == Err::<JsonObject, JsonError>(JsonError::Empty)
                &&& k < s@.len() && s@[k] != '{' && s@[k] != '[' ==> r == Err::<
                    JsonObject,
                    JsonError,
                >(JsonError::InvalidChar(s@[k], k as usize))
                &&& match value_at(s@, 0, true).0 {
                    Ok(v) => r matches Ok(j) && json_view(j) == v,
                    Err(e) => r == Err::<JsonObject, JsonError>(e),
                }
            }),
    {
        let mut parser = Parser::new(s);
        parser.partial_read(true)
    }
}

} // verus!
