use vstd::prelude::*;

use crate::bitmanipulation::{all_bits, bits_of_bytes, low_bits, padded, BitWriter};
use crate::header::Header;
use crate::tree::{code_of, huffman_of, leaves_of, total_weight, HuffmanTree};

verus! {

/// The codes of the bytes of `s`, one after the other; `None` when a byte
/// has no code in `t`.
pub open spec fn codes_of(t: HuffmanTree, s: Seq<u8>) -> Option<Seq<u8>>
    decreases s.len(),
{
    if s.len() == 0 {
        Some(Seq::empty())
    } else {
        match (codes_of(t, s.drop_last()), code_of(t, s.last())) {
            (Some(a), Some(b)) => Some(a + b),
            _ => None,
        }
    }
}

proof fn lemma_code_bits(t: HuffmanTree, v: u8)
    ensures
        code_of(t, v) matches Some(c) ==> all_bits(c),
    decreases t,
{
    match t {
        HuffmanTree::Node(_, l, r) => {
            lemma_code_bits(*l, v);
            lemma_code_bits(*r, v);
            if let Some(c) = code_of(*l, v) {
                assert(all_bits(seq![0u8] + c)) by {
                    assert(forall|i: int| 1 <= i < c.len() + 1 ==> (seq![0u8] + c)[i] == c[i - 1]);
                }
            } else if let Some(c) = code_of(*r, v) {
                assert(all_bits(seq![1u8] + c)) by {
                    assert(forall|i: int| 1 <= i < c.len() + 1 ==> (seq![1u8] + c)[i] == c[i - 1]);
                }
            }
        },
        HuffmanTree::Leaf(_, _) => {},
    }
}

proof fn lemma_low_bits_id(s: Seq<u8>)
    requires
        all_bits(s),
    ensures
        low_bits(s) == s,
{
    assert forall|i: int| 0 <= i < s.len() implies #[trigger] low_bits(s)[i] == s[i] by {
        let b = s[i];
        assert(b <= 1 ==> b & 1u8 == b) by (bit_vector);
    }
    assert(low_bits(s) =~= s);
}

/// Turns bytes into the bit stream of their codes.
pub struct HuffmanEncoder {
    tree: HuffmanTree,
}

impl HuffmanEncoder {
    pub closed spec fn tree(&self) -> HuffmanTree {
        self.tree
    }

    /// An encoder for the tree that `header` describes.
    pub fn new(header: &Header) -> (r: Self)
        requires
            header.counts@.len() >= 1,
            total_weight(leaves_of(header.counts@)) <= usize::MAX,
        ensures
            r.tree() == huffman_of(header.counts@),
    {
        HuffmanEncoder { tree: HuffmanTree::create(&header.counts) }
    }

    /// The codes of the bytes of `source`, packed eight to a byte and padded
    /// with zero bits; `None` when some byte has no code.
    pub fn encode(&self, source: &[u8]) -> (r: Option<Vec<u8>>)
        ensures
            match codes_of(self.tree(), source@) {
                Some(bits) => r matches Some(v) && bits_of_bytes(v@) == padded(bits),
                None => r is None,
            },
    {
        let mut writer = BitWriter::new();
        let mut i: usize = 0;
        while i < source.len()
            invariant
                i <= source@.len(),
                writer.wf(),
                codes_of(self.tree, source@.subrange(0, i as int)) == Some(writer.written()),
            decreases source.len() - i,
        {
            let ghost p = source@.subrange(0, i + 1);
            assert(p.drop_last() =~= source@.subrange(0, i as int));
            match self.tree.encode(source[i]) {
                Some(code) => {
                    proof {
                        lemma_code_bits(self.tree, source@[i as int]);
                        lemma_low_bits_id(code@);
                    }
                    writer.write(code.as_slice());
                },
                None => {
                    proof {
                        lemma_codes_none(self.tree, source@, i + 1);
                    }
                    return None;
                },
            }
            i = i + 1;
        }
        assert(source@.subrange(0, i as int) =~= source@);
        writer.flush();
        Some(writer.into_bytes())
    }
}

proof fn lemma_codes_none(t: HuffmanTree, s: Seq<u8>, n: int)
    requires
        0 <= n <= s.len(),
        codes_of(t, s.subrange(0, n)) is None,
    ensures
        codes_of(t, s) is None,
    decreases s.len() - n,
{
    if n < s.len() {
        assert(s.subrange(0, n + 1).drop_last() =~= s.subrange(0, n));
        lemma_codes_none(t, s, n + 1);
    } else {
        assert(s.subrange(0, n) =~= s);
    }
}

} // verus!
