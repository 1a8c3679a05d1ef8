use vstd::prelude::*;

use crate::bitmanipulation::{bits_of_bytes, copy_bytes, BitReader};
use crate::header::Header;
use crate::huffman::{step_target, HuffmanDecodeResult, HuffmanDecoder as Stepper};
use crate::tree::{huffman_of, leaves_of, total_weight, HuffmanTree};

verus! {

/// The symbols that `bits` decode to, walking `root` from `cur`, until
/// `limit` symbols are out or the bits run out.
pub open spec fn decode_from(root: HuffmanTree, cur: HuffmanTree, bits: Seq<u8>, limit: nat) -> Seq<
    u8,
>
    decreases bits.len(),
{
    if bits.len() == 0 || limit == 0 {
        Seq::empty()
    } else {
        let t = step_target(root, cur, bits[0]);
        match t {
            HuffmanTree::Leaf(_, v) => seq![v] + decode_from(
                root,
                root,
                bits.drop_first(),
                (limit - 1) as nat,
            ),
            HuffmanTree::Node(_, _, _) => decode_from(root, t, bits.drop_first(), limit),
        }
    }
}

/// Turns the bit stream after a header back into the uncompressed bytes.
pub struct HuffmanDecoder {
    tree: HuffmanTree,
    filesize: usize,
}

impl HuffmanDecoder {
    pub closed spec fn tree(&self) -> HuffmanTree {
        self.tree
    }

    pub closed spec fn filesize(&self) -> usize {
        self.filesize
    }

    /// A decoder for the tree and size that `header` describes.
    pub fn new(header: &Header) -> (r: Self)
        requires
            header.counts@.len() >= 1,
            total_weight(leaves_of(header.counts@)) <= usize::MAX,
        ensures
            r.tree() == huffman_of(header.counts@),
            r.filesize() == header.filesize,
    {
        HuffmanDecoder { tree: HuffmanTree::create(&header.counts), filesize: header.filesize }
    }

    /// Decodes `source` until `filesize` symbols are out or the bits run
    /// out.
    pub fn decode(&self, source: &[u8]) -> (r: Vec<u8>)
        ensures
            r@ == decode_from(
                self.tree(),
                self.tree(),
                bits_of_bytes(source@),
                self.filesize() as nat,
            ),
    {
        let mut reader = BitReader::new(copy_bytes(source));
        let mut stepper = Stepper::new(self.tree.clone());
        let mut out: Vec<u8> = Vec::new();
        let mut buf: Vec<u8> = vec![0u8];
        let ghost all = bits_of_bytes(source@);
        let mut done = false;
        while !done && out.len() < self.filesize
            invariant
                done ==> reader.remaining().len() == 0,
                reader.wf(),
                buf@.len() == 1,
                stepper.root() == self.tree,
                out@.len() <= self.filesize,
                out@ + decode_from(
                    self.tree,
                    stepper.current(),
                    reader.remaining(),
                    (self.filesize - out@.len()) as nat,
                ) == decode_from(self.tree, self.tree, all, self.filesize as nat),
            decreases reader.remaining().len() + if done {
                0int
            } else {
                1int
            },
        {
            let ghost bits = reader.remaining();
            let ghost cur = stepper.current();
            let n = reader.read(&mut buf);
            if n == 0 {
                done = true;
                continue;
            }
            let bit = buf[0];
            assert(bit == bits[0]);
            assert(reader.remaining() =~= bits.drop_first());
            match stepper.step(bit) {
                HuffmanDecodeResult::Decoded(v) => {
                    let ghost o = out@;
                    out.push(v);
                    assert(out@ + decode_from(
                        self.tree,
                        stepper.current(),
                        reader.remaining(),
                        (self.filesize - out@.len()) as nat,
                    ) =~= o + decode_from(
                        self.tree,
                        cur,
                        bits,
                        (self.filesize - o.len()) as nat,
                    ));
                },
                HuffmanDecodeResult::Decoding => {},
            }
        }
        assert(decode_from(
            self.tree,
            stepper.current(),
            reader.remaining(),
            (self.filesize - out@.len()) as nat,
        ) =~= Seq::<u8>::empty());
        assert(out@ + Seq::<u8>::empty() =~= out@);
        out
    }
}

} // verus!
