use vstd::prelude::*;

use crate::tree::{huffman_of, leaves_of, total_weight, HuffmanTree};

verus! {

/// How often `c` occurs in `s`.
pub open spec fn occurrences(s: Seq<u8>, c: u8) -> nat
    decreases s.len(),
{
    if s.len() == 0 {
        0
    } else {
        occurrences(s.drop_last(), c) + if s.last() == c {
            1nat
        } else {
            0nat
        }
    }
}

/// The distinct bytes of `s`, each at the place of its first occurrence.
pub open spec fn distinct_in_order(s: Seq<u8>) -> Seq<u8>
    decreases s.len(),
{
    if s.len() == 0 {
        Seq::empty()
    } else {
        let d = distinct_in_order(s.drop_last());
        if d.contains(s.last()) {
            d
        } else {
            d.push(s.last())
        }
    }
}

/// The frequency table of `s`: each distinct byte in order of first
/// occurrence, with how often it occurs.
pub open spec fn is_frequency_table(s: Seq<u8>, counts: Seq<(u8, usize)>) -> bool {
    &&& counts.len() == distinct_in_order(s).len()
    &&& forall|i: int|
        0 <= i < counts.len() ==> #[trigger] counts[i].0 == distinct_in_order(s)[i]
            && counts[i].1 == occurrences(s, counts[i].0)
}

/// The frequency table of `s` as a sequence.
pub open spec fn frequencies_of(s: Seq<u8>) -> Seq<(u8, usize)> {
    Seq::new(
        distinct_in_order(s).len(),
        |i: int| (distinct_in_order(s)[i], occurrences(s, distinct_in_order(s)[i]) as usize),
    )
}

pub proof fn lemma_occurrences_bound(s: Seq<u8>, c: u8)
    ensures
        occurrences(s, c) <= s.len(),
    decreases s.len(),
{
    if s.len() > 0 {
        lemma_occurrences_bound(s.drop_last(), c);
    }
}

proof fn lemma_absent_no_occurrences(s: Seq<u8>, c: u8)
    requires
        !distinct_in_order(s).contains(c),
    ensures
        occurrences(s, c) == 0,
    decreases s.len(),
{
    if s.len() > 0 {
        let d = distinct_in_order(s.drop_last());
        if d.contains(s.last()) {
            assert(s.last() != c);
        } else {
            assert(distinct_in_order(s).last() == s.last());
            assert(forall|j: int| 0 <= j < d.len() ==> distinct_in_order(s)[j] == d[j]);
        }
        lemma_absent_no_occurrences(s.drop_last(), c);
    }
}

proof fn lemma_distinct_in_order_unique(s: Seq<u8>)
    ensures
        forall|i: int, j: int|
            0 <= i < j < distinct_in_order(s).len() ==> distinct_in_order(s)[i]
                != distinct_in_order(s)[j],
    decreases s.len(),
{
    if s.len() > 0 {
        lemma_distinct_in_order_unique(s.drop_last());
        let d = distinct_in_order(s.drop_last());
        if !d.contains(s.last()) {
            let e = distinct_in_order(s);
            assert forall|i: int, j: int| 0 <= i < j < e.len() implies e[i] != e[j] by {
                if j == e.len() - 1 {
                    assert(e[i] == d[i]);
                    assert(e[j] == s.last());
                } else {
                    assert(e[i] == d[i] && e[j] == d[j]);
                }
            }
        }
    }
}

/// Counts how often each byte of `s` occurs; the table lists the bytes in
/// order of first occurrence.
pub fn count_frequencies(s: &[u8]) -> (r: Vec<(u8, usize)>)
    ensures
        is_frequency_table(s@, r@),
        r@ == frequencies_of(s@),
{
    let mut counts: Vec<(u8, usize)> = Vec::new();
    let mut i: usize = 0;
    while i < s.len()
        invariant
            i <= s@.len(),
            is_frequency_table(s@.subrange(0, i as int), counts@),
        decreases s.len() - i,
    {
        let c = s[i];
        let ghost p = s@.subrange(0, i as int);
        let ghost q = s@.subrange(0, i + 1);
        assert(q.drop_last() =~= p);
        let ghost d = distinct_in_order(p);
        let mut k: usize = 0;
        while k < counts.len() && counts[k].0 != c
            invariant
                k <= counts@.len(),
                forall|j: int| 0 <= j < k ==> counts@[j].0 != c,
            decreases counts.len() - k,
        {
            k = k + 1;
        }
        proof {
            lemma_occurrences_bound(p, c);
        }
        let ghost c0 = counts@;
        assert(q.last() == c);
        assert(forall|x: u8| occurrences(q, x) == occurrences(p, x) + if x == c {
            1nat
        } else {
            0nat
        });
        if k < counts.len() {
            let (b, n) = counts[k];
            assert(d[k as int] == c);
            assert(d.contains(c));
            assert(distinct_in_order(q) == d);
            counts.set(k, (b, n + 1));
            assert forall|j: int| 0 <= j < counts@.len() implies #[trigger] counts@[j].0
                == distinct_in_order(q)[j] && counts@[j].1 == occurrences(q, counts@[j].0) by {
                assert(c0[j].0 == d[j]);
                if j != k {
                    assert(counts@[j] == c0[j]);
                    lemma_distinct_in_order_unique(p);
                    assert(c0[j].0 != c);
                }
            }
        } else {
            assert(!d.contains(c)) by {
                if d.contains(c) {
                    let j = choose|j: int| 0 <= j < d.len() && d[j] == c;
                    assert(counts@[j].0 == c);
                }
            }
            assert(distinct_in_order(q) == d.push(c));
            assert(occurrences(p, c) == 0) by {
                lemma_absent_no_occurrences(p, c);
            }
            counts.push((c, 1));
            assert forall|j: int| 0 <= j < counts@.len() implies #[trigger] counts@[j].0
                == distinct_in_order(q)[j] && counts@[j].1 == occurrences(q, counts@[j].0) by {
                if j < counts@.len() - 1 {
                    assert(counts@[j] == c0[j]);
                    assert(c0[j].0 == d[j]);
                    assert(counts@[j].0 != c);
                }
            }
        }
        i = i + 1;
    }
    assert(s@.subrange(0, i as int) =~= s@);
    assert forall|j: int| 0 <= j < counts@.len() implies #[trigger] counts@[j] == frequencies_of(
        s@,
    )[j] by {
        assert(counts@[j].0 == distinct_in_order(s@)[j]);
        assert(counts@[j].1 == occurrences(s@, counts@[j].0));
    }
    assert(counts@ =~= frequencies_of(s@));
    counts
}

/// The sum of the counts of a frequency table.
pub open spec fn count_sum(c: Seq<(u8, usize)>) -> nat
    decreases c.len(),
{
    if c.len() == 0 {
        0
    } else {
        count_sum(c.drop_last()) + c.last().1 as nat
    }
}

/// The summed occurrences in `s` of the bytes listed in `d`.
spec fn occurrences_of_all(d: Seq<u8>, s: Seq<u8>) -> nat
    decreases d.len(),
{
    if d.len() == 0 {
        0
    } else {
        occurrences_of_all(d.drop_last(), s) + occurrences(s, d.last())
    }
}

/// How many entries of `d` equal `b`.
spec fn entries_equal(d: Seq<u8>, b: u8) -> nat
    decreases d.len(),
{
    if d.len() == 0 {
        0
    } else {
        entries_equal(d.drop_last(), b) + if d.last() == b {
            1nat
        } else {
            0nat
        }
    }
}

pub proof fn lemma_leaves_weight(c: Seq<(u8, usize)>)
    ensures
        total_weight(leaves_of(c)) == count_sum(c),
    decreases c.len(),
{
    if c.len() > 0 {
        assert(leaves_of(c).drop_last() =~= leaves_of(c.drop_last()));
        lemma_leaves_weight(c.drop_last());
    }
}

proof fn lemma_table_sum(c: Seq<(u8, usize)>, d: Seq<u8>, s: Seq<u8>)
    requires
        c.len() == d.len(),
        forall|i: int| 0 <= i < c.len() ==> #[trigger] c[i] == (d[i], occurrences(s, d[i]) as usize),
        forall|i: int| 0 <= i < c.len() ==> occurrences(s, #[trigger] d[i]) <= usize::MAX,
    ensures
        count_sum(c) == occurrences_of_all(d, s),
    decreases c.len(),
{
    if c.len() > 0 {
        assert(c.last() == c[c.len() - 1]);
        lemma_table_sum(c.drop_last(), d.drop_last(), s);
    }
}

proof fn lemma_occurrences_of_all_push(d: Seq<u8>, p: Seq<u8>, b: u8)
    ensures
        occurrences_of_all(d, p.push(b)) == occurrences_of_all(d, p) + entries_equal(d, b),
    decreases d.len(),
{
    assert(p.push(b).drop_last() =~= p);
    if d.len() > 0 {
        lemma_occurrences_of_all_push(d.drop_last(), p, b);
    }
}

proof fn lemma_entries_equal_distinct(d: Seq<u8>, b: u8)
    requires
        forall|i: int, j: int| 0 <= i < j < d.len() ==> d[i] != d[j],
    ensures
        entries_equal(d, b) == if d.contains(b) {
            1nat
        } else {
            0nat
        },
    decreases d.len(),
{
    if d.len() > 0 {
        let e = d.drop_last();
        lemma_entries_equal_distinct(e, b);
        if d.last() == b {
            assert(!e.contains(b)) by {
                if e.contains(b) {
                    let k = choose|k: int| 0 <= k < e.len() && e[k] == b;
                    assert(d[k] == d[d.len() - 1]);
                }
            }
            assert(d[d.len() - 1] == b);
        } else {
            if d.contains(b) {
                let k = choose|k: int| 0 <= k < d.len() && d[k] == b;
                assert(e[k] == b);
            }
            if e.contains(b) {
                let k = choose|k: int| 0 <= k < e.len() && e[k] == b;
                assert(d[k] == b);
            }
        }
    }
}

proof fn lemma_distinct_total(s: Seq<u8>)
    ensures
        occurrences_of_all(distinct_in_order(s), s) == s.len(),
    decreases s.len(),
{
    if s.len() > 0 {
        let p = s.drop_last();
        let b = s.last();
        let dp = distinct_in_order(p);
        assert(p.push(b) =~= s);
        lemma_distinct_total(p);
        lemma_distinct_in_order_unique(p);
        lemma_occurrences_of_all_push(dp, p, b);
        lemma_entries_equal_distinct(dp, b);
        if !dp.contains(b) {
            lemma_absent_no_occurrences(p, b);
            assert(dp.push(b).drop_last() =~= dp);
        }
    }
}

/// The counts of a frequency table of `s` add up to the length of `s`.
pub proof fn lemma_frequency_table_sum(s: Seq<u8>, c: Seq<(u8, usize)>)
    requires
        is_frequency_table(s, c),
    ensures
        count_sum(c) == s.len(),
        total_weight(leaves_of(c)) == s.len(),
{
    assert forall|i: int| 0 <= i < c.len() implies occurrences(s, #[trigger] distinct_in_order(
        s,
    )[i]) <= usize::MAX by {
        assert(c[i].0 == distinct_in_order(s)[i]);
    }
    assert forall|i: int| 0 <= i < c.len() implies #[trigger] c[i] == (
        distinct_in_order(s)[i],
        occurrences(s, distinct_in_order(s)[i]) as usize,
    ) by {
        assert(c[i].0 == distinct_in_order(s)[i]);
    }
    lemma_table_sum(c, distinct_in_order(s), s);
    lemma_distinct_total(s);
    lemma_leaves_weight(c);
}

/// Builds the Huffman tree of a frequency table, boxed.
pub fn create_huffman_tree(counts: Vec<(u8, usize)>) -> (r: Box<HuffmanTree>)
    requires
        counts@.len() >= 1,
        total_weight(leaves_of(counts@)) <= usize::MAX,
    ensures
        *r == huffman_of(counts@),
{
    Box::new(HuffmanTree::create(&counts))
}

/// What one decoding step yields: nothing yet, or a decoded symbol.
#[derive(Debug, PartialEq, Eq)]
pub enum HuffmanDecodeResult {
    Decoding,
    Decoded(u8),
}

/// The subtree that `path` leads to from `t`, a 0 bit going left and any
/// other bit going right; a leaf stays where it is.
pub open spec fn subtree_at(t: HuffmanTree, path: Seq<u8>) -> HuffmanTree
    decreases path.len(),
{
    if path.len() == 0 {
        t
    } else {
        let s = subtree_at(t, path.drop_last());
        match s {
            HuffmanTree::Node(_, l, r) => if path.last() == 0 {
                *l
            } else {
                *r
            },
            HuffmanTree::Leaf(_, _) => s,
        }
    }
}

/// Where one bit moves a decoder that stands at `cur`: to a child of a node,
/// or from a leaf back to the root.
pub open spec fn step_target(root: HuffmanTree, cur: HuffmanTree, bit: u8) -> HuffmanTree {
    match cur {
        HuffmanTree::Node(_, l, r) => if bit == 0 {
            *l
        } else {
            *r
        },
        HuffmanTree::Leaf(_, _) => root,
    }
}

fn walk<'a>(t: &'a HuffmanTree, path: &Vec<u8>) -> (r: &'a HuffmanTree)
    ensures
        *r == subtree_at(*t, path@),
{
    let mut cur: &HuffmanTree = t;
    let mut i: usize = 0;
    while i < path.len()
        invariant
            i <= path@.len(),
            *cur == subtree_at(*t, path@.subrange(0, i as int)),
        decreases path.len() - i,
    {
        assert(path@.subrange(0, i + 1).drop_last() =~= path@.subrange(0, i as int));
        match cur {
            HuffmanTree::Node(_, l, r) => {
                if path[i] == 0 {
                    cur = &**l;
                } else {
                    cur = &**r;
                }
            },
            HuffmanTree::Leaf(_, _) => {},
        }
        i = i + 1;
    }
    assert(path@.subrange(0, i as int) =~= path@);
    cur
}

/// Decodes a bit stream one bit at a time by walking a Huffman tree.
pub struct HuffmanDecoder {
    tree: HuffmanTree,
    path: Vec<u8>,
}

impl HuffmanDecoder {
    pub closed spec fn root(&self) -> HuffmanTree {
        self.tree
    }

    /// The subtree that the decoder stands at.
    pub closed spec fn current(&self) -> HuffmanTree {
        subtree_at(self.tree, self.path@)
    }

    pub fn new(tree: HuffmanTree) -> (r: Self)
        ensures
            r.root() == tree,
            r.current() == tree,
    {
        HuffmanDecoder { tree, path: Vec::new() }
    }

    /// Moves by one bit. Reaching a leaf yields its symbol and returns the
    /// decoder to the root; reaching a node yields nothing yet.
    pub fn step(&mut self, bit: u8) -> (r: HuffmanDecodeResult)
        ensures
            final(self).root() == old(self).root(),
            match step_target(old(self).root(), old(self).current(), bit) {
                HuffmanTree::Leaf(_, v) => r == HuffmanDecodeResult::Decoded(v)
                    && final(self).current() == old(self).root(),
                HuffmanTree::Node(_, _, _) => r == HuffmanDecodeResult::Decoding
                    && final(self).current() == step_target(
                    old(self).root(),
                    old(self).current(),
                    bit,
                ),
            },
    {
        let at_node = match walk(&self.tree, &self.path) {
            HuffmanTree::Node(_, _, _) => true,
            HuffmanTree::Leaf(_, _) => false,
        };
        if at_node {
            let ghost p = self.path@;
            self.path.push(bit);
            assert(self.path@.drop_last() =~= p);
        } else {
            self.path.clear();
            assert(self.path@ =~= Seq::<u8>::empty());
        }
        let decoded = match walk(&self.tree, &self.path) {
            HuffmanTree::Node(_, _, _) => None,
            HuffmanTree::Leaf(_, v) => Some(*v),
        };
        match decoded {
            Some(v) => {
                self.path.clear();
                assert(self.path@ =~= Seq::<u8>::empty());
                HuffmanDecodeResult::Decoded(v)
            },
            None => HuffmanDecodeResult::Decoding,
        }
    }
}

} // verus!
