use vstd::prelude::*;

use crate::bitmanipulation::{bits_of_bytes, padded};
use crate::decoder::{decode_from, HuffmanDecoder};
use crate::encoder::{codes_of, HuffmanEncoder};
use crate::header::{has_header, header_bytes, header_counts, header_filesize, Header};
use crate::huffman::{
    count_frequencies,
    count_sum,
    frequencies_of,
    lemma_frequency_table_sum,
    lemma_leaves_weight,
};
use crate::tree::{huffman_of, leaves_of, total_weight};

verus! {

/// What compressing `input` gives: the header, then (for a non-empty input
/// whose bytes all have codes) the codes packed into bytes.
pub open spec fn compressed(input: Seq<u8>, r: Seq<u8>) -> bool {
    let counts = frequencies_of(input);
    let head = header_bytes(counts, input.len() as usize);
    &&& r.len() >= head.len()
    &&& r.subrange(0, head.len() as int) == head
    &&& counts.len() == 0 ==> r == head
    &&& counts.len() > 0 ==> match codes_of(huffman_of(counts), input) {
        Some(bits) => bits_of_bytes(r.subrange(head.len() as int, r.len() as int)) == padded(bits),
        None => r == head,
    }
}

/// What decompressing `input` gives: nothing without a complete header or
/// with counts too large to add up; otherwise the symbols that the bits after
/// the header decode to, up to the recorded size.
pub open spec fn decompressed(input: Seq<u8>, r: Option<Vec<u8>>) -> bool {
    &&& !has_header(input) ==> r is None
    &&& has_header(input) ==> {
        let counts = header_counts(input);
        let start = 9 + 5 * counts.len() as int;
        let tree = huffman_of(counts);
        &&& counts.len() == 0 ==> (r matches Some(v) && v@ == Seq::<u8>::empty())
        &&& counts.len() > 0 && count_sum(counts) > usize::MAX ==> r is None
        &&& counts.len() > 0 && count_sum(counts) <= usize::MAX ==> (r matches Some(v) && v@
            == decode_from(
            tree,
            tree,
            bits_of_bytes(input.subrange(start, input.len() as int)),
            header_filesize(input) as nat,
        ))
    }
}

/// The bytes of `s` from `start` on.
fn bytes_from(s: &[u8], start: usize) -> (r: Vec<u8>)
    requires
        start <= s@.len(),
    ensures
        r@ == s@.subrange(start as int, s@.len() as int),
{
    let mut r: Vec<u8> = Vec::new();
    let mut i: usize = start;
    while i < s.len()
        invariant
            start <= i <= s@.len(),
            r@ == s@.subrange(start as int, i as int),
        decreases s.len() - i,
    {
        r.push(s[i]);
        assert(r@ =~= s@.subrange(start as int, i + 1));
        i = i + 1;
    }
    r
}

/// Compresses `input`: a header with its size and frequency table, then the
/// Huffman codes of its bytes, packed eight to a byte. Empty input gives a
/// header alone.
pub fn compress(input: &[u8]) -> (r: Vec<u8>)
    ensures
        compressed(input@, r@),
{
    let counts = count_frequencies(input);
    proof {
        lemma_frequency_table_sum(input@, counts@);
    }
    let header = Header { counts, filesize: input.len() };
    let mut out = header.write();
    let ghost head = out@;
    if header.counts.len() == 0 {
        assert(out@.subrange(0, head.len() as int) =~= head);
        return out;
    }
    let encoder = HuffmanEncoder::new(&header);
    match encoder.encode(input) {
        Some(body) => {
            let mut i: usize = 0;
            while i < body.len()
                invariant
                    i <= body@.len(),
                    out@ == head + body@.subrange(0, i as int),
                decreases body.len() - i,
            {
                out.push(body[i]);
                assert(out@ =~= head + body@.subrange(0, i + 1));
                i = i + 1;
            }
            assert(out@.subrange(0, head.len() as int) =~= head);
            assert(out@.subrange(head.len() as int, out@.len() as int) =~= body@);
        },
        None => {
            assert(out@.subrange(0, head.len() as int) =~= head);
        },
    }
    out
}

proof fn lemma_count_sum_prefix(c: Seq<(u8, usize)>, i: int)
    requires
        0 <= i <= c.len(),
    ensures
        count_sum(c.subrange(0, i)) <= count_sum(c),
    decreases c.len() - i,
{
    if i < c.len() {
        assert(c.subrange(0, i + 1).drop_last() =~= c.subrange(0, i));
        lemma_count_sum_prefix(c, i + 1);
    } else {
        assert(c.subrange(0, i) =~= c);
    }
}

/// Whether the counts of a table add up to at most `usize::MAX`.
fn counts_fit(counts: &Vec<(u8, usize)>) -> (r: bool)
    ensures
        r == (count_sum(counts@) <= usize::MAX),
{
    let mut total: usize = 0;
    let mut i: usize = 0;
    while i < counts.len()
        invariant
            i <= counts@.len(),
            total == count_sum(counts@.subrange(0, i as int)),
        decreases counts.len() - i,
    {
        assert(counts@.subrange(0, i + 1).drop_last() =~= counts@.subrange(0, i as int));
        if total > usize::MAX - counts[i].1 {
            proof {
                lemma_count_sum_prefix(counts@, i + 1);
            }
            return false;
        }
        total = total + counts[i].1;
        i = i + 1;
    }
    assert(counts@.subrange(0, i as int) =~= counts@);
    true
}

/// Decompresses what `compress` produced: reads the header, rebuilds the
/// code tree from its table and decodes the rest until the recorded size is
/// reached or the bits run out. `None` when `input` holds no complete
/// header, or when the counts of its table add up to more than
/// `usize::MAX`.
pub fn decompress(input: &[u8]) -> (r: Option<Vec<u8>>)
    ensures
        decompressed(input@, r),
{
    let header = match Header::read(input) {
        Some(h) => h,
        None => return None,
    };
    if header.counts.len() == 0 {
        return Some(Vec::new());
    }
    if !counts_fit(&header.counts) {
        return None;
    }
    proof {
        lemma_leaves_weight(header.counts@);
    }
    let decoder = HuffmanDecoder::new(&header);
    let body = bytes_from(input, 9 + 5 * header.counts.len());
    Some(decoder.decode(body.as_slice()))
}

} // verus!
