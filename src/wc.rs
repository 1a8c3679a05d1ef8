use vstd::prelude::*;

use vstd::utf8::encode_utf8;

use crate::text::{chars_of, join, push_char, split_white_space, words};

verus! {

/// Which counts to show, and for which files.
#[derive(Debug)]
pub struct Args {
    pub exe_name: String,
    pub count_bytes: bool,
    pub count_lines: bool,
    pub count_chars: bool,
    pub count_words: bool,
    pub paths: Vec<String>,
}

/// The counts of one input.
#[derive(Debug)]
pub struct CountResult {
    pub path: String,
    pub bytes: u64,
    pub words: u64,
    pub chars: u64,
    pub lines: u64,
}

/// The decimal digits of `n`.
pub open spec fn decimal(n: nat) -> Seq<char>
    decreases n,
{
    if n < 10 {
        seq![(('0' as nat) + n) as char]
    } else {
        decimal(n / 10) + seq![(('0' as nat) + n % 10) as char]
    }
}

/// The length of the UTF-8 encoding of `s`, as `str::len` reports it.
pub open spec fn byte_count(s: Seq<char>) -> u64 {
    (encode_utf8(s).len() as usize) as u64
}

/// How many lines `s` holds: one per newline, and one more for text after
/// the last newline.
pub open spec fn line_count(s: Seq<char>) -> nat
    decreases s.len(),
{
    if s.len() == 0 {
        0
    } else if s.len() == 1 || s[s.len() - 2] == '\n' {
        line_count(s.drop_last()) + 1
    } else {
        line_count(s.drop_last())
    }
}

/// The pieces that `print` shows: the selected counts, then the name.
pub open spec fn shown_fields(c: CountResult, o: Args) -> Seq<Seq<char>> {
    let default_option = !o.count_bytes && !o.count_lines && !o.count_chars && !o.count_words;
    let a = if default_option || o.count_lines {
        seq![decimal(c.lines as nat)]
    } else {
        Seq::empty()
    };
    let b = if default_option || o.count_words {
        seq![decimal(c.words as nat)]
    } else {
        Seq::empty()
    };
    let d = if o.count_chars {
        seq![decimal(c.chars as nat)]
    } else if default_option || o.count_bytes {
        seq![decimal(c.bytes as nat)]
    } else {
        Seq::empty()
    };
    a + b + d + seq![c.path@]
}

/// Writes `n` in decimal.
pub fn decimal_string(n: u64) -> (r: String)
    ensures
        r@ == decimal(n as nat),
    decreases n,
{
    if n < 10 {
        let mut r = String::new();
        push_char(&mut r, char_of_digit(n));
        r
    } else {
        let mut r = decimal_string(n / 10);
        push_char(&mut r, char_of_digit(n % 10));
        r
    }
}

fn char_of_digit(d: u64) -> (c: char)
    requires
        d < 10,
    ensures
        c == (('0' as nat) + d) as char,
{
    let cs = ['0', '1', '2', '3', '4', '5', '6', '7', '8', '9'];
    let c = cs[d as usize];
    assert(c == (('0' as nat) + d) as char) by {
        assert(('0' as nat) == 48);
    }
    c
}

impl CountResult {
    /// All counts at zero for the input named `path`.
    pub fn new(path: &str) -> (r: CountResult)
        ensures
            r.path@ == path@,
            r.bytes == 0 && r.words == 0 && r.chars == 0 && r.lines == 0,
    {
        CountResult { path: String::from_str(path), bytes: 0, words: 0, chars: 0, lines: 0 }
    }

    /// The counts that `options` ask for, then the name, separated by tabs:
    /// lines, words, then characters or bytes. With no count asked for,
    /// lines, words and bytes are shown.
    pub fn print(&self, options: &Args) -> (r: String)
        ensures
            r@ == join(shown_fields(*self, *options), seq!['\t']),
    {
        let default_option = !options.count_bytes && !options.count_lines && !options.count_chars
            && !options.count_words;
        let mut fields: Vec<String> = Vec::new();
        if default_option || options.count_lines {
            fields.push(decimal_string(self.lines));
        }
        if default_option || options.count_words {
            fields.push(decimal_string(self.words));
        }
        if options.count_chars {
            fields.push(decimal_string(self.chars));
        } else if default_option || (options.count_bytes && !options.count_chars) {
            fields.push(decimal_string(self.bytes));
        }
        fields.push(self.path.clone());
        let ghost views = fields@.map_values(|s: String| s@);
        assert(views =~= shown_fields(*self, *options));
        let mut r = String::new();
        let mut i: usize = 0;
        while i < fields.len()
            invariant
                i <= fields@.len(),
                views == fields@.map_values(|s: String| s@),
                r@ == join(views.subrange(0, i as int), seq!['\t']),
            decreases fields.len() - i,
        {
            assert(views.subrange(0, i + 1).drop_last() =~= views.subrange(0, i as int));
            if i > 0 {
                push_char(&mut r, '\t');
            }
            let ghost before = r@;
            r.append(fields[i].as_str());
            if i == 0 {
                assert(r@ =~= join(views.subrange(0, 1), seq!['\t']));
            }
            i = i + 1;
        }
        assert(views.subrange(0, i as int) =~= views);
        r
    }

    /// The field-wise sum of two counts, under the first one's name.
    pub fn add(self, other: Self) -> (r: Self)
        requires
            self.bytes + other.bytes <= u64::MAX,
            self.words + other.words <= u64::MAX,
            self.chars + other.chars <= u64::MAX,
            self.lines + other.lines <= u64::MAX,
        ensures
            r.path == self.path,
            r.bytes == self.bytes + other.bytes,
            r.words == self.words + other.words,
            r.chars == self.chars + other.chars,
            r.lines == self.lines + other.lines,
    {
        CountResult {
            path: self.path,
            bytes: self.bytes + other.bytes,
            words: self.words + other.words,
            chars: self.chars + other.chars,
            lines: self.lines + other.lines,
        }
    }
}

proof fn lemma_line_count_bound(s: Seq<char>)
    ensures
        line_count(s) <= s.len(),
    decreases s.len(),
{
    if s.len() > 0 {
        lemma_line_count_bound(s.drop_last());
    }
}

/// Counts the lines, words, characters and bytes of `text`; words are the
/// runs of non-white-space characters.
pub fn count_buf(name: &str, text: &str) -> (r: CountResult)
    ensures
        r.path@ == name@,
        r.bytes == byte_count(text@),
        r.chars == text@.len() as u64,
        r.words == words(text@).len() as u64,
        r.lines == line_count(text@) as u64,
{
    let mut res = CountResult::new(name);
    let cs = chars_of(text);
    let mut lines: usize = 0;
    let mut i: usize = 0;
    while i < cs.len()
        invariant
            i <= cs@.len(),
            cs@ == text@,
            lines == line_count(cs@.subrange(0, i as int)),
        decreases cs.len() - i,
    {
        let ghost p = cs@.subrange(0, i + 1);
        assert(p.drop_last() =~= cs@.subrange(0, i as int));
        proof {
            lemma_line_count_bound(cs@.subrange(0, i as int));
        }
        if i == 0 || cs[i - 1] == '\n' {
            lines = lines + 1;
        }
        i = i + 1;
    }
    assert(cs@.subrange(0, i as int) =~= cs@);
    res.lines = lines as u64;
    res.chars = cs.len() as u64;
    res.bytes = text.len() as u64;
    res.words = split_white_space(cs.as_slice()).len() as u64;
    res
}

/// The counts of the inputs that could be read.
pub open spec fn counted(counts: Seq<Result<CountResult, String>>) -> Seq<CountResult>
    decreases counts.len(),
{
    if counts.len() == 0 {
        Seq::empty()
    } else {
        let before = counted(counts.drop_last());
        match counts.last() {
            Ok(c) => before.push(c),
            Err(_) => before,
        }
    }
}

/// The sum of one count over several inputs.
pub open spec fn total(cs: Seq<CountResult>, f: spec_fn(CountResult) -> u64) -> nat
    decreases cs.len(),
{
    if cs.len() == 0 {
        0
    } else {
        total(cs.drop_last(), f) + f(cs.last()) as nat
    }
}

proof fn lemma_counted_prefix(counts: Seq<Result<CountResult, String>>, i: int, f: spec_fn(CountResult) -> u64)
    requires
        0 <= i < counts.len(),
    ensures
        counted(counts.subrange(0, i + 1)) == match counts[i] {
            Ok(c) => counted(counts.subrange(0, i)).push(c),
            Err(_) => counted(counts.subrange(0, i)),
        },
        total(counted(counts.subrange(0, i + 1)), f) <= total(counted(counts), f),
    decreases counts.len() - i,
{
    assert(counts.subrange(0, i + 1).drop_last() =~= counts.subrange(0, i));
    if i + 1 < counts.len() {
        lemma_counted_prefix(counts, i + 1, f);
        let a = counted(counts.subrange(0, i + 1));
        assert(counts.subrange(0, i + 2).drop_last() =~= counts.subrange(0, i + 1));
        if let Ok(c) = counts[i + 1] {
            assert(a.push(c).drop_last() =~= a);
        }
    } else {
        assert(counts.subrange(0, i + 1) =~= counts);
    }
}

/// The field-wise sum of the counts of the inputs that could be read, under
/// the name `total`.
pub fn sum_counts(counts: Vec<Result<CountResult, String>>) -> (r: CountResult)
    requires
        total(counted(counts@), |c: CountResult| c.bytes) <= u64::MAX,
        total(counted(counts@), |c: CountResult| c.words) <= u64::MAX,
        total(counted(counts@), |c: CountResult| c.chars) <= u64::MAX,
        total(counted(counts@), |c: CountResult| c.lines) <= u64::MAX,
    ensures
        r.path@ == "total"@,
        r.bytes == total(counted(counts@), |c: CountResult| c.bytes),
        r.words == total(counted(counts@), |c: CountResult| c.words),
        r.chars == total(counted(counts@), |c: CountResult| c.chars),
        r.lines == total(counted(counts@), |c: CountResult| c.lines),
{
    let ghost fb = |c: CountResult| c.bytes;
    let ghost fw = |c: CountResult| c.words;
    let ghost fc = |c: CountResult| c.chars;
    let ghost fl = |c: CountResult| c.lines;
    let mut sum = CountResult::new("total");
    let mut i: usize = 0;
    while i < counts.len()
        invariant
            i <= counts@.len(),
            sum.path@ == "total"@,
            fb == (|c: CountResult| c.bytes),
            fw == (|c: CountResult| c.words),
            fc == (|c: CountResult| c.chars),
            fl == (|c: CountResult| c.lines),
            total(counted(counts@), fb) <= u64::MAX,
            total(counted(counts@), fw) <= u64::MAX,
            total(counted(counts@), fc) <= u64::MAX,
            total(counted(counts@), fl) <= u64::MAX,
            sum.bytes == total(counted(counts@.subrange(0, i as int)), fb),
            sum.words == total(counted(counts@.subrange(0, i as int)), fw),
            sum.chars == total(counted(counts@.subrange(0, i as int)), fc),
            sum.lines == total(counted(counts@.subrange(0, i as int)), fl),
        decreases counts.len() - i,
    {
        proof {
            lemma_counted_prefix(counts@, i as int, fb);
            lemma_counted_prefix(counts@, i as int, fw);
            lemma_counted_prefix(counts@, i as int, fc);
            lemma_counted_prefix(counts@, i as int, fl);
        }
        match &counts[i] {
            Ok(c) => {
                let ghost before = counted(counts@.subrange(0, i as int));
                assert(counts@[i as int] == Ok::<CountResult, String>(*c));
                assert(before.push(*c).drop_last() =~= before);
                assert(counted(counts@.subrange(0, i + 1)) == before.push(*c));
                assert(total(before.push(*c), fb) == total(before, fb) + c.bytes);
                assert(total(before.push(*c), fw) == total(before, fw) + c.words);
                assert(total(before.push(*c), fc) == total(before, fc) + c.chars);
                assert(total(before.push(*c), fl) == total(before, fl) + c.lines);
                sum.bytes = sum.bytes + c.bytes;
                sum.words = sum.words + c.words;
                sum.chars = sum.chars + c.chars;
                sum.lines = sum.lines + c.lines;
            },
            Err(_) => {},
        }
        i = i + 1;
    }
    assert(counts@.subrange(0, i as int) =~= counts@);
    sum
}

} // verus!
