use vstd::prelude::*;

use crate::text::chars_of;

verus! {

/// A field list entry: fields `from` to `to`, both included. A missing
/// `from` means from the first field, a missing `to` up to the last one.
#[derive(Debug, PartialEq, Eq)]
pub struct Field {
    pub from: Option<usize>,
    pub to: Option<usize>,
}

/// A field list entry that could not be read.
#[derive(Debug, Clone, PartialEq, Eq)]
pub struct ParseFieldError;

impl ParseFieldError {
    /// A one-line description of the error, for people.
    pub fn message(&self) -> (r: String)
        ensures
            r@ == "illegal list value"@,
    {
        String::from_str("illegal list value")
    }
}

/// The value of a run of ASCII digits.
pub open spec fn digits_value(s: Seq<char>) -> int
    decreases s.len(),
{
    if s.len() == 0 {
        0
    } else {
        10 * digits_value(s.drop_last()) + (s.last() as int - '0' as int)
    }
}

pub open spec fn is_ascii_digit(c: char) -> bool {
    '0' <= c && c <= '9'
}

/// The digits part of a decimal number: `s` without a leading `+`.
pub open spec fn decimal_body(s: Seq<char>) -> Seq<char> {
    if s.len() > 0 && s[0] == '+' {
        s.drop_first()
    } else {
        s
    }
}

/// What reading `s` as an unsigned decimal number gives: an optional `+`,
/// then one or more ASCII digits, whose value must fit in a `usize`.
pub open spec fn usize_of(s: Seq<char>) -> Option<usize> {
    let body = decimal_body(s);
    if body.len() > 0 && (forall|i: int| 0 <= i < body.len() ==> is_ascii_digit(#[trigger] body[i]))
        && digits_value(body) <= usize::MAX {
        Some(digits_value(body) as usize)
    } else {
        None
    }
}

proof fn lemma_digits_value_prefix(s: Seq<char>, i: int)
    requires
        0 <= i <= s.len(),
        forall|j: int| 0 <= j < s.len() ==> is_ascii_digit(#[trigger] s[j]),
    ensures
        0 <= digits_value(s.subrange(0, i)) <= digits_value(s),
    decreases s.len() - i,
{
    if i < s.len() {
        assert(s.subrange(0, i + 1).drop_last() =~= s.subrange(0, i));
        lemma_digits_value_prefix(s, i + 1);
        assert(s.subrange(0, i + 1).last() == s[i]);
    } else {
        assert(s.subrange(0, i) =~= s);
        lemma_digits_value_nonneg(s);
    }
}

proof fn lemma_digits_value_nonneg(s: Seq<char>)
    requires
        forall|j: int| 0 <= j < s.len() ==> is_ascii_digit(#[trigger] s[j]),
    ensures
        digits_value(s) >= 0,
    decreases s.len(),
{
    if s.len() > 0 {
        lemma_digits_value_nonneg(s.drop_last());
    }
}

/// Reads `s` as an unsigned decimal number, as `str::parse::<usize>` does.
pub fn parse_usize(s: &str) -> (r: Option<usize>)
    ensures
        r == usize_of(s@),
{
    let cs = chars_of(s);
    let start: usize = if cs.len() > 0 && cs[0] == '+' {
        1
    } else {
        0
    };
    let ghost body = decimal_body(s@);
    assert(body =~= cs@.subrange(start as int, cs@.len() as int));
    if start == cs.len() {
        return None;
    }
    let mut v: usize = 0;
    let mut i: usize = start;
    while i < cs.len()
        invariant
            start <= i <= cs@.len(),
            body == decimal_body(s@),
            body == cs@.subrange(start as int, cs@.len() as int),
            forall|j: int| start <= j < i ==> is_ascii_digit(#[trigger] cs@[j]),
            v == digits_value(cs@.subrange(start as int, i as int)),
        decreases cs.len() - i,
    {
        let c = cs[i];
        assert(cs@.subrange(start as int, i + 1).drop_last() =~= cs@.subrange(start as int, i as int));
        if !('0' <= c && c <= '9') {
            assert(!is_ascii_digit(body[i - start]));
            assert(!(forall|j: int| 0 <= j < body.len() ==> is_ascii_digit(#[trigger] body[j])));
            return None;
        }
        let d = (c as u32 - '0' as u32) as usize;
        if v > (usize::MAX - d) / 10 {
            proof {
                assert(10 * v + d > usize::MAX) by (nonlinear_arith)
                    requires
                        v > (usize::MAX - d) / 10,
                        d <= 9,
                ;
                let q = cs@.subrange(start as int, i + 1);
                assert(body.subrange(0, i + 1 - start) =~= q);
                assert(q.last() == c);
                assert(digits_value(q) == 10 * v + d);
                if forall|j: int| 0 <= j < body.len() ==> is_ascii_digit(#[trigger] body[j]) {
                    lemma_digits_value_prefix(body, i + 1 - start);
                    assert(digits_value(body) > usize::MAX);
                }
            }
            return None;
        }
        assert(10 * v + d <= usize::MAX) by (nonlinear_arith)
            requires
                v <= (usize::MAX - d) / 10,
                d <= 9,
        ;
        v = 10 * v + d;
        i = i + 1;
    }
    assert(cs@.subrange(start as int, i as int) =~= body);
    Some(v)
}

/// The text of the three groups of a field list entry, as the field
/// pattern captures them: the leading digits, the `-`, and the digits after
/// it; each group is absent when it did not take part in the match.
pub type FieldCaptures = Option<(Option<String>, Option<String>, Option<String>)>;

pub open spec fn opt_view(o: Option<String>) -> Option<Seq<char>> {
    match o {
        Some(s) => Some(s@),
        None => None,
    }
}

pub open spec fn captures_view(c: FieldCaptures) -> Option<(Option<Seq<char>>, Option<Seq<char>>, Option<Seq<char>>)> {
    match c {
        Some((f, r, t)) => Some((opt_view(f), opt_view(r), opt_view(t))),
        None => None,
    }
}

/// The field numbers that `f` selects when lines have `max` fields: from
/// its start (the first field by default) to its end (the last field by
/// default), both included.
pub open spec fn field_values(f: Field, max: usize) -> Seq<usize> {
    let from = match f.from {
        Some(n) => n,
        None => 1,
    };
    let to = match f.to {
        Some(n) => n,
        None => max,
    };
    if from > to {
        Seq::empty()
    } else {
        Seq::new((to - from + 1) as nat, |i: int| (from + i) as usize)
    }
}

/// What the field pattern captures in `s`.
pub uninterp spec fn field_captures_of(s: Seq<char>) -> Option<(Option<Seq<char>>, Option<Seq<char>>, Option<Seq<char>>)>;

/// Relies on regex's Regex::new and Regex::captures, with the pattern
/// `(?P<from>\d+)?(?P<range>-)?(?P<to>\d+)?`, and on Captures::name: the
/// groups that the first match holds.
#[verifier::external_body]
fn field_captures(input: &str) -> (r: FieldCaptures)
    ensures
        captures_view(r) == field_captures_of(input@),
{
    let re = regex::Regex::new(r"(?P<from>\d+)?(?P<range>-)?(?P<to>\d+)?").unwrap();
    let text = |m: regex::Match| m.as_str().to_string();
    re.captures(input).map(|c| (c.name("from").map(text), c.name("range").map(text), c.name("to").map(text)))
}

pub open spec fn opt_number(o: Option<Seq<char>>) -> Option<usize> {
    match o {
        Some(s) => usize_of(s),
        None => None,
    }
}

/// The entry that `input` stands for, given what the field pattern captured
/// in it. Without a `-` the whole input must read as one field number;
/// with one, each bound is the number its group reads as, if any.
pub open spec fn field_of(input: Seq<char>, caps: Option<(Option<Seq<char>>, Option<Seq<char>>, Option<Seq<char>>)>) -> Result<Field, ParseFieldError> {
    match caps {
        None => Err(ParseFieldError),
        Some((from, range, to)) => if range is None {
            match usize_of(input) {
                Some(n) => Ok(Field { from: Some(n), to: Some(n) }),
                None => Err(ParseFieldError),
            }
        } else {
            Ok(Field { from: opt_number(from), to: opt_number(to) })
        },
    }
}

fn parse_opt(o: &Option<String>) -> (r: Option<usize>)
    ensures
        r == opt_number(opt_view(*o)),
{
    match o {
        Some(s) => parse_usize(s.as_str()),
        None => None,
    }
}

impl Field {
    /// The entry that `input` stands for, from what the field pattern
    /// captured in it.
    pub fn from_captures(input: &str, caps: &FieldCaptures) -> (r: Result<Self, ParseFieldError>)
        ensures
            r == field_of(input@, captures_view(*caps)),
    {
        match caps {
            None => Err(ParseFieldError),
            Some((from, range, to)) => {
                if range.is_none() {
                    match parse_usize(input) {
                        Some(n) => Ok(Field::single(n)),
                        None => Err(ParseFieldError),
                    }
                } else {
                    Ok(Field { from: parse_opt(from), to: parse_opt(to) })
                }
            },
        }
    }

    /// The field numbers the entry selects when lines have `max_fields`
    /// fields, in increasing order.
    pub fn values(&self, max_fields: usize) -> (r: Vec<usize>)
        ensures
            r@ == field_values(*self, max_fields),
    {
        let from = match self.from {
            Some(from) => from,
            None => 1,
        };
        let to = match self.to {
            Some(to) => to,
            None => max_fields,
        };
        let mut r: Vec<usize> = Vec::new();
        if from > to {
            assert(r@ =~= field_values(*self, max_fields));
            return r;
        }
        let mut k: usize = from;
        loop
            invariant_except_break
                from <= k <= to,
                r@ =~= Seq::new((k - from) as nat, |i: int| (from + i) as usize),
            ensures
                r@ =~= Seq::new((to - from + 1) as nat, |i: int| (from + i) as usize),
            decreases to - k,
        {
            r.push(k);
            if k == to {
                break;
            }
            k = k + 1;
        }
        assert(r@ =~= field_values(*self, max_fields));
        r
    }

    pub fn is_from_start(&self) -> (r: bool)
        ensures
            r == (self.from is None),
    {
        self.from.is_none()
    }

    pub fn is_till_end(&self) -> (r: bool)
        ensures
            r == (self.to is None),
    {
        self.to.is_none()
    }

    /// The entry `field`: that field alone.
    pub fn single(field: usize) -> (r: Self)
        ensures
            r == (Field { from: Some(field), to: Some(field) }),
    {
        Field { from: Some(field), to: Some(field) }
    }

    /// The entry `field-`: that field and all after it.
    pub fn from(field: usize) -> (r: Self)
        ensures
            r == (Field { from: Some(field), to: None }),
    {
        Field { from: Some(field), to: None }
    }

    /// The entry `-field`: all fields up to that one.
    pub fn to(field: usize) -> (r: Self)
        ensures
            r == (Field { from: None, to: Some(field) }),
    {
        Field { from: None, to: Some(field) }
    }

    /// The entry `from-to`.
    pub fn range(from: usize, to: usize) -> (r: Self)
        ensures
            r == (Field { from: Some(from), to: Some(to) }),
    {
        Field { from: Some(from), to: Some(to) }
    }

    /// Reads one entry of a field list: `N`, `N-M`, `N-` or `-M`. An entry
    /// without `-` that is not a number is refused.
    pub fn parse(input: &str) -> (r: Result<Self, ParseFieldError>)
        ensures
            r == field_of(input@, field_captures_of(input@)),
    {
        let caps = field_captures(input);
        Field::from_captures(input, &caps)
    }
}

/// The pieces that the list separators cut `s` into.
pub uninterp spec fn list_pieces_of(s: Seq<char>) -> Seq<Seq<char>>;

/// Relies on regex's Regex::new and Regex::split, with the pattern
/// `(\s+)|,`: the text between separators, which are runs of white space and
/// single commas.
#[verifier::external_body]
fn split_list(list: &str) -> (r: Vec<String>)
    ensures
        r@.map_values(|p: String| p@) == list_pieces_of(list@),
{
    let re = regex::Regex::new(r"(\s+)|,").unwrap();
    re.split(list).map(|p| p.to_string()).collect()
}

/// The entries that the pieces of a list stand for, leaving out the pieces
/// that are no entry.
pub open spec fn fields_of(pieces: Seq<Seq<char>>) -> Seq<Field>
    decreases pieces.len(),
{
    if pieces.len() == 0 {
        Seq::empty()
    } else {
        let before = fields_of(pieces.drop_last());
        match field_of(pieces.last(), field_captures_of(pieces.last())) {
            Ok(f) => before.push(f),
            Err(_) => before,
        }
    }
}

/// The entries that the pieces of a list stand for, in order; pieces that
/// are no entry are left out.
pub fn fields_from_pieces(pieces: &Vec<String>) -> (r: Vec<Field>)
    ensures
        r@ == fields_of(pieces@.map_values(|p: String| p@)),
{
    let ghost views = pieces@.map_values(|p: String| p@);
    let mut r: Vec<Field> = Vec::new();
    let mut i: usize = 0;
    while i < pieces.len()
        invariant
            i <= pieces@.len(),
            views == pieces@.map_values(|p: String| p@),
            r@ == fields_of(views.subrange(0, i as int)),
        decreases pieces.len() - i,
    {
        assert(views.subrange(0, i + 1).drop_last() =~= views.subrange(0, i as int));
        match Field::parse(pieces[i].as_str()) {
            Ok(f) => r.push(f),
            Err(_) => {},
        }
        i = i + 1;
    }
    assert(views.subrange(0, i as int) =~= views);
    r
}

/// Reads a field list such as `1,3-5 7-`: entries separated by commas or
/// runs of white space. Pieces that are no entry are left out.
pub fn parse_ranges(list: &str) -> (r: Vec<Field>)
    ensures
        r@ == fields_of(list_pieces_of(list@)),
{
    let pieces = split_list(list);
    fields_from_pieces(&pieces)
}

} // verus!
