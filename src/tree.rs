use vstd::prelude::*;

verus! {

/// A Huffman code tree. Each subtree carries its weight: for a leaf, how
/// often its symbol occurs; for a node, the sum of its children's weights.
/// Going left appends a 0 bit to a code, going right a 1 bit.
#[derive(Debug, PartialEq, Eq)]
pub enum HuffmanTree {
    Node(usize, Box<HuffmanTree>, Box<HuffmanTree>),
    Leaf(usize, u8),
}

impl Clone for HuffmanTree {
    fn clone(&self) -> (r: Self)
        ensures
            r == *self,
        decreases self,
    {
        match self {
            HuffmanTree::Node(w, l, r) => HuffmanTree::Node(
                *w,
                Box::new((**l).clone()),
                Box::new((**r).clone()),
            ),
            HuffmanTree::Leaf(w, v) => HuffmanTree::Leaf(*w, *v),
        }
    }
}

pub open spec fn weight(t: HuffmanTree) -> usize {
    match t {
        HuffmanTree::Leaf(count, _) => count,
        HuffmanTree::Node(count, _, _) => count,
    }
}

/// The code of `value` in `t`: the path to the first leaf, left before
/// right, that holds it.
pub open spec fn code_of(t: HuffmanTree, value: u8) -> Option<Seq<u8>>
    decreases t,
{
    match t {
        HuffmanTree::Leaf(_, v) => if v == value {
            Some(Seq::empty())
        } else {
            None
        },
        HuffmanTree::Node(_, left, right) => match code_of(*left, value) {
            Some(c) => Some(seq![0u8] + c),
            None => match code_of(*right, value) {
                Some(c) => Some(seq![1u8] + c),
                None => None,
            },
        },
    }
}

/// The position of the lightest tree in a forest; the earliest such
/// position when several are equally light.
pub open spec fn min_index(f: Seq<HuffmanTree>) -> int
    decreases f.len(),
{
    if f.len() <= 1 {
        0
    } else {
        let k = min_index(f.drop_last());
        if weight(f.last()) < weight(f[k]) {
            f.len() - 1
        } else {
            k
        }
    }
}

/// One merge step: the lightest tree and then the lightest of the others
/// leave the forest, and a node holding them, left and right, joins it at
/// the end.
pub open spec fn merge_lightest(f: Seq<HuffmanTree>) -> Seq<HuffmanTree> {
    let a = f[min_index(f)];
    let f1 = f.remove(min_index(f));
    let b = f1[min_index(f1)];
    let f2 = f1.remove(min_index(f1));
    f2.push(HuffmanTree::Node((weight(a) + weight(b)) as usize, Box::new(a), Box::new(b)))
}

/// The tree that `n` trees merge into, merging the two lightest as long as
/// more than one is left.
pub open spec fn merge_all(f: Seq<HuffmanTree>, n: nat) -> HuffmanTree
    decreases n,
{
    if n <= 1 {
        f[0]
    } else {
        merge_all(merge_lightest(f), (n - 1) as nat)
    }
}

/// One leaf per (symbol, count) pair, in the same order.
pub open spec fn leaves_of(counts: Seq<(u8, usize)>) -> Seq<HuffmanTree> {
    Seq::new(counts.len(), |i: int| HuffmanTree::Leaf(counts[i].1, counts[i].0))
}

/// The total weight of a forest.
pub open spec fn total_weight(f: Seq<HuffmanTree>) -> nat
    decreases f.len(),
{
    if f.len() == 0 {
        0
    } else {
        total_weight(f.drop_last()) + weight(f.last()) as nat
    }
}

/// The Huffman tree of a frequency table.
pub open spec fn huffman_of(counts: Seq<(u8, usize)>) -> HuffmanTree {
    merge_all(leaves_of(counts), counts.len())
}

pub proof fn lemma_min_index_bounds(f: Seq<HuffmanTree>)
    requires
        f.len() >= 1,
    ensures
        0 <= min_index(f) < f.len(),
        forall|j: int| 0 <= j < f.len() ==> weight(f[min_index(f)]) <= weight(#[trigger] f[j]),
    decreases f.len(),
{
    if f.len() > 1 {
        lemma_min_index_bounds(f.drop_last());
        assert forall|j: int| 0 <= j < f.len() implies weight(f[min_index(f)]) <= weight(
            #[trigger] f[j],
        ) by {
            if j < f.len() - 1 {
                assert(f.drop_last()[j] == f[j]);
            }
        }
    }
}

proof fn lemma_total_weight_remove(f: Seq<HuffmanTree>, i: int)
    requires
        0 <= i < f.len(),
    ensures
        total_weight(f) == total_weight(f.remove(i)) + weight(f[i]),
    decreases f.len(),
{
    if i == f.len() - 1 {
        assert(f.remove(i) =~= f.drop_last());
    } else {
        lemma_total_weight_remove(f.drop_last(), i);
        assert(f.remove(i).drop_last() =~= f.drop_last().remove(i));
        assert(f.remove(i).last() == f.last());
    }
}

proof fn lemma_total_weight_push(f: Seq<HuffmanTree>, t: HuffmanTree)
    ensures
        total_weight(f.push(t)) == total_weight(f) + weight(t),
{
    assert(f.push(t).drop_last() =~= f);
}

fn min_index_exec(f: &Vec<HuffmanTree>) -> (r: usize)
    requires
        f@.len() >= 1,
    ensures
        r == min_index(f@),
{
    let mut k: usize = 0;
    let mut m: usize = 1;
    assert(f@.subrange(0, 1).len() == 1);
    while m < f.len()
        invariant
            1 <= m <= f@.len(),
            k == min_index(f@.subrange(0, m as int)),
            k < m,
        decreases f.len() - m,
    {
        let ghost g = f@.subrange(0, m + 1);
        assert(g.drop_last() =~= f@.subrange(0, m as int));
        if f[m].value() < f[k].value() {
            k = m;
        }
        m = m + 1;
    }
    assert(f@.subrange(0, m as int) =~= f@);
    k
}

impl HuffmanTree {
    /// Builds the Huffman tree of a frequency table: one leaf per entry, then
    /// the two lightest trees are merged, the lighter one on the left, until
    /// one tree is left. Among equally light trees the earliest is taken
    /// first; leaves stand in table order and merged nodes join at the end.
    pub fn create(counts: &Vec<(u8, usize)>) -> (r: HuffmanTree)
        requires
            counts@.len() >= 1,
            total_weight(leaves_of(counts@)) <= usize::MAX,
        ensures
            r == huffman_of(counts@),
    {
        let mut heap: Vec<HuffmanTree> = Vec::new();
        let mut i: usize = 0;
        while i < counts.len()
            invariant
                i <= counts@.len(),
                heap@ == leaves_of(counts@).subrange(0, i as int),
            decreases counts.len() - i,
        {
            let (elem, count) = counts[i];
            heap.push(HuffmanTree::Leaf(count, elem));
            assert(heap@ =~= leaves_of(counts@).subrange(0, i + 1));
            i = i + 1;
        }
        assert(heap@ =~= leaves_of(counts@));
        while heap.len() > 1
            invariant
                heap@.len() >= 1,
                merge_all(heap@, heap@.len() as nat) == huffman_of(counts@),
                total_weight(heap@) <= usize::MAX,
            decreases heap.len(),
        {
            let ghost f = heap@;
            let a = min_index_exec(&heap);
            proof {
                lemma_min_index_bounds(f);
                lemma_total_weight_remove(f, a as int);
            }
            let left = heap.remove(a);
            let ghost f1 = heap@;
            let b = min_index_exec(&heap);
            proof {
                lemma_min_index_bounds(f1);
                lemma_total_weight_remove(f1, b as int);
            }
            let right = heap.remove(b);
            let w = left.value() + right.value();
            let node = HuffmanTree::Node(w, Box::new(left), Box::new(right));
            heap.push(node);
            proof {
                lemma_total_weight_push(heap@.drop_last(), node);
                assert(heap@.drop_last() =~= f1.remove(b as int));
                assert(heap@ =~= merge_lightest(f));
            }
        }
        heap.remove(0)
    }

    pub fn value(&self) -> (r: usize)
        ensures
            r == weight(*self),
    {
        match self {
            HuffmanTree::Leaf(count, _) => *count,
            HuffmanTree::Node(count, _, _) => *count,
        }
    }

    /// The code of `value`: the bits of the path to its leaf, or `None` when
    /// no leaf holds it.
    pub fn encode(&self, value: u8) -> (r: Option<Vec<u8>>)
        ensures
            match r {
                Some(v) => code_of(*self, value) == Some(v@),
                None => code_of(*self, value) is None,
            },
        decreases self,
    {
        match self {
            HuffmanTree::Leaf(_, val) => {
                if *val == value {
                    return Some(Vec::new());
                }
                None
            },
            HuffmanTree::Node(_, left, right) => {
                match left.encode(value) {
                    Some(mut res) => {
                        let ghost c = res@;
                        res.insert(0, 0);
                        assert(res@ =~= seq![0u8] + c);
                        return Some(res);
                    },
                    None => {},
                }
                match right.encode(value) {
                    Some(mut res) => {
                        let ghost c = res@;
                        res.insert(0, 1);
                        assert(res@ =~= seq![1u8] + c);
                        Some(res)
                    },
                    None => None,
                }
            },
        }
    }
}

} // verus!
