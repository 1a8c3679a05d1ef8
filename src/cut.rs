use vstd::prelude::*;
use vstd::utf8::{decode_utf8, valid_utf8, encode_utf8};

use crate::field::{field_values, Field};
use crate::text::{chars_of, join, join_chars, split_char, split_on, split_white_space, string_of, words};

verus! {

/// What a cut selects: fields between delimiters, bytes, or characters.
#[derive(Debug, PartialEq, Eq)]
pub enum Command {
    Fields,
    Bytes,
    Chars,
}

/// A cut: which fields (or bytes, or characters) to keep from each line.
#[derive(Debug)]
pub struct Cut {
    pub ranges: Vec<Field>,
    pub delimiter: char,
    /// Split fields at runs of white space instead of at the delimiter.
    pub whitespace: bool,
    /// Drop lines that hold no delimiter.
    pub suppress: bool,
    pub command: Command,
}

/// `s` with `x` placed after every element that is at most `x` at its end.
pub open spec fn insert_sorted(s: Seq<usize>, x: usize) -> Seq<usize>
    decreases s.len(),
{
    if s.len() == 0 {
        seq![x]
    } else if s.last() <= x {
        s.push(x)
    } else {
        insert_sorted(s.drop_last(), x).push(s.last())
    }
}

/// `s` sorted in increasing order (stable insertion).
pub open spec fn sorted_seq(s: Seq<usize>) -> Seq<usize>
    decreases s.len(),
{
    if s.len() == 0 {
        Seq::empty()
    } else {
        insert_sorted(sorted_seq(s.drop_last()), s.last())
    }
}

/// The field numbers that all entries select, entry after entry.
pub open spec fn all_field_values(ranges: Seq<Field>, max: usize) -> Seq<usize>
    decreases ranges.len(),
{
    if ranges.len() == 0 {
        Seq::empty()
    } else {
        all_field_values(ranges.drop_last(), max) + field_values(ranges.last(), max)
    }
}

/// The items that the 1-based positions `idx` pick from `items`, in the order
/// of `idx`; positions outside the items are skipped.
pub open spec fn select<T>(items: Seq<T>, idx: Seq<usize>) -> Seq<T>
    decreases idx.len(),
{
    if idx.len() == 0 {
        Seq::empty()
    } else {
        let before = select(items, idx.drop_last());
        let n = idx.last();
        if 1 <= n && n <= items.len() {
            before.push(items[n - 1])
        } else {
            before
        }
    }
}

/// What a cut keeps from a line that splits into `n` items: the items at
/// the selected positions, in increasing order.
pub open spec fn cut_of<T>(c: Cut, items: Seq<T>) -> Seq<T> {
    select(items, sorted_seq(all_field_values(c.ranges@, items.len() as usize)))
}

/// The fields of a line: its runs of non-white-space, or its pieces between
/// delimiters.
pub open spec fn line_fields(c: Cut, line: Seq<char>) -> Seq<Seq<char>> {
    if c.whitespace {
        words(line)
    } else {
        split_on(line, c.delimiter)
    }
}

/// What a field cut makes of a line.
pub open spec fn cut_fields_of(c: Cut, line: Seq<char>) -> Option<Seq<char>> {
    let fields = line_fields(c, line);
    if fields.len() <= 1 && c.suppress {
        None
    } else {
        Some(join(cut_of(c, fields), seq![c.delimiter]))
    }
}

proof fn lemma_insert_at(s: Seq<usize>, x: usize, k: int)
    requires
        0 <= k <= s.len(),
        forall|j: int| k <= j < s.len() ==> s[j] > x,
        k == 0 || s[k - 1] <= x,
    ensures
        insert_sorted(s, x) == s.subrange(0, k) + seq![x] + s.subrange(k, s.len() as int),
    decreases s.len(),
{
    if s.len() == 0 {
        assert(s.subrange(0, k) + seq![x] + s.subrange(k, s.len() as int) =~= seq![x]);
    } else if s.last() <= x {
        assert(k == s.len());
        assert(s.subrange(0, k) + seq![x] + s.subrange(k, s.len() as int) =~= s.push(x));
    } else {
        let t = s.drop_last();
        lemma_insert_at(t, x, k);
        assert(s.subrange(0, k) + seq![x] + s.subrange(k, s.len() as int) =~= (t.subrange(0, k)
            + seq![x] + t.subrange(k, t.len() as int)).push(s.last()));
    }
}

proof fn lemma_select_positions(items: Seq<Seq<char>>, idx: Seq<usize>)
    ensures
        ({
            let picked = select(Seq::new(items.len(), |j: int| j as usize), idx);
            &&& forall|j: int| 0 <= j < picked.len() ==> #[trigger] picked[j] < items.len()
            &&& picked.map_values(|j: usize| items[j as int]) == select(items, idx)
        }),
    decreases idx.len(),
{
    let positions = Seq::new(items.len(), |j: int| j as usize);
    if idx.len() > 0 {
        lemma_select_positions(items, idx.drop_last());
        let before = select(positions, idx.drop_last());
        let n = idx.last();
        if 1 <= n && n <= items.len() {
            assert(before.push(positions[n - 1]).map_values(|j: usize| items[j as int])
                =~= before.map_values(|j: usize| items[j as int]).push(items[n - 1]));
        }
    } else {
        assert(select(positions, idx).map_values(|j: usize| items[j as int]) =~= Seq::<
            Seq<char>,
        >::empty());
    }
}

/// `v` sorted in increasing order.
pub fn sort_values(v: &Vec<usize>) -> (r: Vec<usize>)
    ensures
        r@ == sorted_seq(v@),
{
    let mut r: Vec<usize> = Vec::new();
    let mut i: usize = 0;
    while i < v.len()
        invariant
            i <= v@.len(),
            r@ == sorted_seq(v@.subrange(0, i as int)),
        decreases v.len() - i,
    {
        let x = v[i];
        let mut k: usize = r.len();
        while k > 0 && r[k - 1] > x
            invariant
                k <= r@.len(),
                forall|j: int| k <= j < r@.len() ==> r@[j] > x,
            decreases k,
        {
            k = k - 1;
        }
        proof {
            lemma_insert_at(r@, x, k as int);
        }
        r.insert(k, x);
        assert(v@.subrange(0, i + 1).drop_last() =~= v@.subrange(0, i as int));
        assert(r@ =~= sorted_seq(v@.subrange(0, i + 1)));
        i = i + 1;
    }
    assert(v@.subrange(0, i as int) =~= v@);
    r
}

/// Relies on std's String::from_utf8: the bytes are accepted exactly when
/// they are valid UTF-8, and the string then holds them.
#[verifier::external_body]
fn string_from_utf8(v: Vec<u8>) -> (r: Option<String>)
    ensures
        r is Some <==> valid_utf8(v@),
        r matches Some(s) ==> s@ == decode_utf8(v@),
{
    String::from_utf8(v).ok()
}

impl Cut {
    /// A field cut at tabs that selects nothing yet.
    pub fn default() -> (r: Self)
        ensures
            r.ranges@.len() == 0,
            r.delimiter == '\t',
            !r.whitespace,
            !r.suppress,
            r.command == Command::Fields,
    {
        Cut {
            ranges: Vec::new(),
            delimiter: '\t',
            whitespace: false,
            suppress: false,
            command: Command::Fields,
        }
    }

    /// The positions that the entries select when a line has `max_splits`
    /// items, in increasing order.
    pub fn compute_ranges(&self, max_splits: usize) -> (r: Vec<usize>)
        ensures
            r@ == sorted_seq(all_field_values(self.ranges@, max_splits)),
    {
        let mut fields: Vec<usize> = Vec::new();
        let mut i: usize = 0;
        while i < self.ranges.len()
            invariant
                i <= self.ranges@.len(),
                fields@ == all_field_values(self.ranges@.subrange(0, i as int), max_splits),
            decreases self.ranges.len() - i,
        {
            let mut vals = self.ranges[i].values(max_splits);
            assert(self.ranges@.subrange(0, i + 1).drop_last() =~= self.ranges@.subrange(
                0,
                i as int,
            ));
            fields.append(&mut vals);
            i = i + 1;
        }
        assert(self.ranges@.subrange(0, i as int) =~= self.ranges@);
        sort_values(&fields)
    }

    /// The items of a line that the cut keeps, in increasing position.
    pub fn execute<T: Copy>(&self, splits: Vec<T>) -> (r: Vec<T>)
        ensures
            r@ == cut_of(*self, splits@),
    {
        let ranges = self.compute_ranges(splits.len());
        let mut r: Vec<T> = Vec::new();
        let mut i: usize = 0;
        while i < ranges.len()
            invariant
                i <= ranges@.len(),
                r@ == select(splits@, ranges@.subrange(0, i as int)),
            decreases ranges.len() - i,
        {
            assert(ranges@.subrange(0, i + 1).drop_last() =~= ranges@.subrange(0, i as int));
            let n = ranges[i];
            if 1 <= n && n <= splits.len() {
                r.push(splits[n - 1]);
            }
            i = i + 1;
        }
        assert(ranges@.subrange(0, i as int) =~= ranges@);
        r
    }

    fn execute_str(&self, input: &str) -> (r: Option<String>)
        ensures
            match cut_fields_of(*self, input@) {
                Some(s) => r matches Some(t) && t@ == s,
                None => r is None,
            },
    {
        let cs = chars_of(input);
        let split = if self.whitespace {
            split_white_space(cs.as_slice())
        } else {
            split_char(cs.as_slice(), self.delimiter)
        };
        let ghost fields = line_fields(*self, input@);
        assert(split@.map_values(|p: Vec<char>| p@) =~= fields);
        assert(forall|k: int| 0 <= k < split@.len() ==> #[trigger] split@[k]@ == fields[k]) by {
            assert forall|k: int| 0 <= k < split@.len() implies #[trigger] split@[k]@ == fields[k] by {
                assert(split@.map_values(|p: Vec<char>| p@)[k] == split@[k]@);
            }
        }
        if split.len() <= 1 && self.suppress {
            return None;
        }
        let mut positions: Vec<usize> = Vec::new();
        let mut k: usize = 0;
        while k < split.len()
            invariant
                k <= split@.len(),
                positions@ == Seq::new(k as nat, |j: int| j as usize),
            decreases split.len() - k,
        {
            positions.push(k);
            assert(positions@ =~= Seq::new((k + 1) as nat, |j: int| j as usize));
            k = k + 1;
        }
        let picked = self.execute(positions);
        let ghost idx = sorted_seq(all_field_values(self.ranges@, split@.len() as usize));
        proof {
            lemma_select_positions(fields, idx);
            assert(positions@ =~= Seq::new(fields.len(), |j: int| j as usize));
        }
        let mut outputs: Vec<Vec<char>> = Vec::new();
        let mut i: usize = 0;
        while i < picked.len()
            invariant
                i <= picked@.len(),
                positions@.len() == split@.len(),
                fields.len() == split@.len(),
                forall|k: int| 0 <= k < split@.len() ==> #[trigger] split@[k]@ == fields[k],
                forall|j: int| 0 <= j < picked@.len() ==> #[trigger] picked@[j] < split@.len(),
                outputs@.map_values(|p: Vec<char>| p@) == picked@.subrange(0, i as int).map_values(
                    |j: usize| fields[j as int],
                ),
            decreases picked.len() - i,
        {
            let piece = split[picked[i]].clone();
            assert(piece@ =~= split@[picked@[i as int] as int]@);
            outputs.push(piece);
            assert(picked@.subrange(0, i + 1).map_values(|j: usize| fields[j as int])
                =~= picked@.subrange(0, i as int).map_values(|j: usize| fields[j as int]).push(
                fields[picked@[i as int] as int],
            ));
            assert(outputs@.map_values(|p: Vec<char>| p@) =~= picked@.subrange(
                0,
                i as int,
            ).map_values(|j: usize| fields[j as int]).push(fields[picked@[i as int] as int]));
            i = i + 1;
        }
        assert(picked@.subrange(0, i as int) =~= picked@);
        assert(outputs@.map_values(|p: Vec<char>| p@) =~= cut_of(*self, fields));
        let joined = join_chars(&outputs, self.delimiter);
        Some(string_of(joined.as_slice()))
    }

    fn execute_bytes(&self, input: &str) -> (r: Option<String>)
        ensures
            r is Some <==> valid_utf8(cut_of(*self, encode_utf8(input@))),
            r matches Some(s) ==> s@ == decode_utf8(cut_of(*self, encode_utf8(input@))),
    {
        let bytes = input.as_bytes_vec();
        let outputs = self.execute(bytes);
        string_from_utf8(outputs)
    }

    fn execute_chars(&self, input: &str) -> (r: Option<String>)
        ensures
            r matches Some(s) && s@ == cut_of(*self, input@),
    {
        let outputs = self.execute(chars_of(input));
        Some(string_of(outputs.as_slice()))
    }

    /// Applies the cut to one line: the kept fields joined by the delimiter,
    /// the kept bytes, or the kept characters. `None` for a suppressed line
    /// without delimiter, or when the kept bytes are no valid UTF-8.
    pub fn execute_line(&self, input: &str) -> (r: Option<String>)
        ensures
            self.command == Command::Fields ==> match cut_fields_of(*self, input@) {
                Some(s) => r matches Some(t) && t@ == s,
                None => r is None,
            },
            self.command == Command::Bytes ==> (r is Some <==> valid_utf8(
                cut_of(*self, encode_utf8(input@)),
            )) && (r matches Some(s) ==> s@ == decode_utf8(cut_of(*self, encode_utf8(input@)))),
            self.command == Command::Chars ==> (r matches Some(s) && s@ == cut_of(*self, input@)),
    {
        match self.command {
            Command::Fields => self.execute_str(input),
            Command::Bytes => self.execute_bytes(input),
            Command::Chars => self.execute_chars(input),
        }
    }
}

} // verus!
