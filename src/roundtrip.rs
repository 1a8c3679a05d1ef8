use vstd::prelude::*;

use crate::bitmanipulation::{bits_of_bytes, padded};
use crate::header::{
    entries_bytes,
    has_header,
    header_bytes,
    header_counts,
    header_filesize,
    le_bytes,
    u32_le,
    u64_le,
};
use crate::decoder::decode_from;
use crate::encoder::codes_of;
use crate::codec::{compressed, decompressed};
use crate::huffman::{
    count_sum,
    distinct_in_order,
    frequencies_of,
    is_frequency_table,
    lemma_frequency_table_sum,
    lemma_occurrences_bound,
    occurrences,
    step_target,
};
use crate::tree::{
    lemma_min_index_bounds,
    code_of,
    huffman_of,
    leaves_of,
    merge_all,
    merge_lightest,
    min_index,
    HuffmanTree,
};

verus! {

/// The symbols held by the leaves of `t`.
pub open spec fn symbols(t: HuffmanTree) -> Set<u8>
    decreases t,
{
    match t {
        HuffmanTree::Leaf(_, v) => set![v],
        HuffmanTree::Node(_, l, r) => symbols(*l) + symbols(*r),
    }
}

/// The symbols held by the leaves of all trees of a forest.
pub open spec fn forest_symbols(f: Seq<HuffmanTree>) -> Set<u8>
    decreases f.len(),
{
    if f.len() == 0 {
        Set::empty()
    } else {
        forest_symbols(f.drop_last()) + symbols(f.last())
    }
}

proof fn lemma_code_exists(t: HuffmanTree, x: u8)
    ensures
        code_of(t, x) is Some <==> symbols(t).contains(x),
    decreases t,
{
    match t {
        HuffmanTree::Node(_, l, r) => {
            lemma_code_exists(*l, x);
            lemma_code_exists(*r, x);
        },
        HuffmanTree::Leaf(_, _) => {},
    }
}

proof fn lemma_forest_symbols_remove(f: Seq<HuffmanTree>, i: int)
    requires
        0 <= i < f.len(),
    ensures
        forest_symbols(f) == forest_symbols(f.remove(i)) + symbols(f[i]),
    decreases f.len(),
{
    if i == f.len() - 1 {
        assert(f.remove(i) =~= f.drop_last());
    } else {
        lemma_forest_symbols_remove(f.drop_last(), i);
        assert(f.remove(i).drop_last() =~= f.drop_last().remove(i));
        assert(f.remove(i).last() == f.last());
        assert(forest_symbols(f) =~= forest_symbols(f.remove(i)) + symbols(f[i]));
    }
}

proof fn lemma_merge_lightest(f: Seq<HuffmanTree>)
    requires
        f.len() >= 2,
    ensures
        merge_lightest(f).len() == f.len() - 1,
        forest_symbols(merge_lightest(f)) == forest_symbols(f),
        merge_lightest(f).last() is Node,
{
    let i = min_index(f);
    lemma_min_index_bounds(f);
    let a = f[i];
    let f1 = f.remove(i);
    lemma_min_index_bounds(f1);
    let j = min_index(f1);
    let b = f1[j];
    let f2 = f1.remove(j);
    let node = HuffmanTree::Node((crate::tree::weight(a) + crate::tree::weight(b)) as usize, Box::new(a), Box::new(b));
    lemma_forest_symbols_remove(f, i);
    lemma_forest_symbols_remove(f1, j);
    assert(f2.push(node).drop_last() =~= f2);
    assert(forest_symbols(merge_lightest(f)) =~= forest_symbols(f));
}

proof fn lemma_merge_all(f: Seq<HuffmanTree>, n: nat)
    requires
        n == f.len(),
        n >= 1,
    ensures
        symbols(merge_all(f, n)) == forest_symbols(f),
        n >= 2 ==> merge_all(f, n) is Node,
    decreases n,
{
    if n == 1 {
        assert(f.drop_last() =~= Seq::<HuffmanTree>::empty());
        assert(forest_symbols(f.drop_last()) == Set::<u8>::empty());
        assert(f.last() == f[0]);
        assert(forest_symbols(f) =~= symbols(f[0]));
    } else {
        lemma_merge_lightest(f);
        lemma_merge_all(merge_lightest(f), (n - 1) as nat);
        if n == 2 {
            assert(merge_lightest(f)[0] == merge_lightest(f).last());
        }
    }
}

proof fn lemma_leaves_symbols(c: Seq<(u8, usize)>, x: u8)
    ensures
        forest_symbols(leaves_of(c)).contains(x) <==> exists|i: int| 0 <= i < c.len() && #[trigger] c[i].0 == x,
    decreases c.len(),
{
    if c.len() > 0 {
        assert(leaves_of(c).drop_last() =~= leaves_of(c.drop_last()));
        lemma_leaves_symbols(c.drop_last(), x);
        if exists|i: int| 0 <= i < c.len() && #[trigger] c[i].0 == x {
            let i = choose|i: int| 0 <= i < c.len() && #[trigger] c[i].0 == x;
            if i < c.len() - 1 {
                assert(c.drop_last()[i].0 == x);
            }
        }
        if exists|i: int| 0 <= i < c.len() - 1 && #[trigger] c.drop_last()[i].0 == x {
            let i = choose|i: int| 0 <= i < c.len() - 1 && #[trigger] c.drop_last()[i].0 == x;
            assert(c[i].0 == x);
        }
    }
}

proof fn lemma_distinct_contains(s: Seq<u8>, x: u8)
    ensures
        distinct_in_order(s).contains(x) <==> s.contains(x),
    decreases s.len(),
{
    if s.len() > 0 {
        lemma_distinct_contains(s.drop_last(), x);
        let d = distinct_in_order(s.drop_last());
        if s.contains(x) {
            let k = choose|k: int| 0 <= k < s.len() && s[k] == x;
            if k < s.len() - 1 {
                assert(s.drop_last()[k] == x);
                let j = choose|j: int| 0 <= j < d.len() && d[j] == x;
                assert(distinct_in_order(s)[j] == x);
            } else if !d.contains(x) {
                assert(distinct_in_order(s).last() == x);
            }
        }
        if distinct_in_order(s).contains(x) {
            let j = choose|j: int| 0 <= j < distinct_in_order(s).len() && distinct_in_order(s)[j] == x;
            if d.contains(x) {
                let k = choose|k: int| 0 <= k < s.drop_last().len() && s.drop_last()[k] == x;
                assert(s[k] == x);
            } else if j == d.len() {
                assert(s[s.len() - 1] == x);
            } else {
                assert(d[j] == x);
            }
        }
    }
}

proof fn lemma_decode_code(
    root: HuffmanTree,
    n: HuffmanTree,
    x: u8,
    c: Seq<u8>,
    rest: Seq<u8>,
    limit: nat,
)
    requires
        n is Node,
        code_of(n, x) == Some(c),
        limit >= 1,
    ensures
        decode_from(root, n, c + rest, limit) == seq![x] + decode_from(
            root,
            root,
            rest,
            (limit - 1) as nat,
        ),
    decreases n,
{
    if let HuffmanTree::Node(_, l, r) = n {
        let bits = c + rest;
        match code_of(*l, x) {
            Some(cl) => {
                assert(c == seq![0u8] + cl);
                assert(bits[0] == 0u8);
                assert(bits.drop_first() =~= cl + rest);
                assert(step_target(root, n, bits[0]) == *l);
                match *l {
                    HuffmanTree::Leaf(_, v) => {
                        assert(cl.len() == 0 && v == x);
                        assert(cl + rest =~= rest);
                    },
                    HuffmanTree::Node(_, _, _) => {
                        lemma_decode_code(root, *l, x, cl, rest, limit);
                    },
                }
            },
            None => {
                let cr = code_of(*r, x)->0;
                assert(c == seq![1u8] + cr);
                assert(bits[0] == 1u8);
                assert(bits.drop_first() =~= cr + rest);
                assert(step_target(root, n, bits[0]) == *r);
                match *r {
                    HuffmanTree::Leaf(_, v) => {
                        assert(cr.len() == 0 && v == x);
                        assert(cr + rest =~= rest);
                    },
                    HuffmanTree::Node(_, _, _) => {
                        lemma_decode_code(root, *r, x, cr, rest, limit);
                    },
                }
            },
        }
    }
}

proof fn lemma_codes_all_some(t: HuffmanTree, s: Seq<u8>)
    requires
        forall|i: int| 0 <= i < s.len() ==> code_of(t, #[trigger] s[i]) is Some,
    ensures
        codes_of(t, s) is Some,
    decreases s.len(),
{
    if s.len() > 0 {
        lemma_codes_all_some(t, s.drop_last());
        assert(code_of(t, s[s.len() - 1]) is Some);
    }
}

proof fn lemma_codes_front(t: HuffmanTree, s: Seq<u8>)
    requires
        s.len() >= 1,
        codes_of(t, s) is Some,
    ensures
        code_of(t, s[0]) is Some,
        codes_of(t, s.drop_first()) is Some,
        codes_of(t, s)->0 == code_of(t, s[0])->0 + codes_of(t, s.drop_first())->0,
    decreases s.len(),
{
    if s.len() == 1 {
        assert(s.drop_last() =~= Seq::<u8>::empty());
        assert(s.drop_first() =~= Seq::<u8>::empty());
        assert(s.last() == s[0]);
        assert(codes_of(t, s)->0 =~= code_of(t, s[0])->0 + Seq::<u8>::empty());
    } else {
        let p = s.drop_last();
        lemma_codes_front(t, p);
        assert(p[0] == s[0]);
        assert(s.drop_first().drop_last() =~= p.drop_first());
        assert(s.drop_first().last() == s.last());
        assert(codes_of(t, s)->0 =~= code_of(t, s[0])->0 + codes_of(t, s.drop_first())->0);
    }
}

proof fn lemma_decode_codes(root: HuffmanTree, s: Seq<u8>, pad: Seq<u8>)
    requires
        root is Node,
        codes_of(root, s) is Some,
    ensures
        decode_from(root, root, codes_of(root, s)->0 + pad, s.len()) == s,
    decreases s.len(),
{
    if s.len() == 0 {
        assert(decode_from(root, root, codes_of(root, s)->0 + pad, 0) =~= s);
    } else {
        lemma_codes_front(root, s);
        let c0 = code_of(root, s[0])->0;
        let rest = codes_of(root, s.drop_first())->0;
        assert(codes_of(root, s)->0 + pad =~= c0 + (rest + pad));
        lemma_decode_code(root, root, s[0], c0, rest + pad, s.len());
        lemma_decode_codes(root, s.drop_first(), pad);
        assert(seq![s[0]] + s.drop_first() =~= s);
    }
}

proof fn lemma_u32_le(x: u64)
    requires
        x <= 0xffff_ffffu64,
    ensures
        u32_le(le_bytes(x, 4), 0) == x as u32,
{
    let b = le_bytes(x, 4);
    assert(b[0] == ((x >> 0u64) & 0xffu64) as u8);
    assert(b[1] == ((x >> 8u64) & 0xffu64) as u8);
    assert(b[2] == ((x >> 16u64) & 0xffu64) as u8);
    assert(b[3] == ((x >> 24u64) & 0xffu64) as u8);
    assert((((x >> 0u64) & 0xffu64) as u8 as u32) | ((((x >> 8u64) & 0xffu64) as u8 as u32)
        << 8u32) | ((((x >> 16u64) & 0xffu64) as u8 as u32) << 16u32) | ((((x >> 24u64)
        & 0xffu64) as u8 as u32) << 24u32) == x as u32) by (bit_vector)
        requires
            x <= 0xffff_ffffu64,
    ;
}

proof fn lemma_u64_le(x: u64)
    ensures
        u64_le(le_bytes(x, 8), 0) == x,
{
    let b = le_bytes(x, 8);
    assert(b[0] == ((x >> 0u64) & 0xffu64) as u8);
    assert(b[1] == ((x >> 8u64) & 0xffu64) as u8);
    assert(b[2] == ((x >> 16u64) & 0xffu64) as u8);
    assert(b[3] == ((x >> 24u64) & 0xffu64) as u8);
    assert(b[4] == ((x >> 32u64) & 0xffu64) as u8);
    assert(b[5] == ((x >> 40u64) & 0xffu64) as u8);
    assert(b[6] == ((x >> 48u64) & 0xffu64) as u8);
    assert(b[7] == ((x >> 56u64) & 0xffu64) as u8);
    assert((((x >> 0u64) & 0xffu64) as u8 as u64) | ((((x >> 8u64) & 0xffu64) as u8 as u64)
        << 8u64) | ((((x >> 16u64) & 0xffu64) as u8 as u64) << 16u64) | ((((x >> 24u64)
        & 0xffu64) as u8 as u64) << 24u64) | ((((x >> 32u64) & 0xffu64) as u8 as u64) << 32u64)
        | ((((x >> 40u64) & 0xffu64) as u8 as u64) << 40u64) | ((((x >> 48u64) & 0xffu64) as u8
        as u64) << 48u64) | ((((x >> 56u64) & 0xffu64) as u8 as u64) << 56u64) == x)
        by (bit_vector);
}

proof fn lemma_entries(c: Seq<(u8, usize)>)
    ensures
        entries_bytes(c).len() == 5 * c.len(),
        forall|i: int|
            0 <= i < c.len() ==> entries_bytes(c)[5 * i] == (#[trigger] c[i]).0
                && entries_bytes(c).subrange(5 * i + 1, 5 * i + 5) == le_bytes(
                c[i].1 as u32 as u64,
                4,
            ),
    decreases c.len(),
{
    if c.len() > 0 {
        let p = c.drop_last();
        lemma_entries(p);
        let e = entries_bytes(c);
        let tail = le_bytes(c.last().1 as u32 as u64, 4);
        assert(e == entries_bytes(p) + seq![c.last().0] + tail);
        assert forall|i: int| 0 <= i < c.len() implies e[5 * i] == (#[trigger] c[i]).0
            && e.subrange(5 * i + 1, 5 * i + 5) == le_bytes(c[i].1 as u32 as u64, 4) by {
            if i < p.len() {
                assert(p[i] == c[i]);
                assert(e.subrange(5 * i + 1, 5 * i + 5) =~= entries_bytes(p).subrange(
                    5 * i + 1,
                    5 * i + 5,
                ));
            } else {
                assert(e.subrange(5 * i + 1, 5 * i + 5) =~= tail);
            }
        }
    }
}

/// Reading back a header that was written with at most 255 entries, each
/// count at most `u32::MAX`, gives the same size and table, and the bytes
/// after it.
pub proof fn lemma_header_round_trip(c: Seq<(u8, usize)>, filesize: usize, body: Seq<u8>)
    requires
        c.len() <= 255,
        forall|i: int| 0 <= i < c.len() ==> (#[trigger] c[i]).1 <= u32::MAX,
    ensures
        has_header(header_bytes(c, filesize) + body),
        header_filesize(header_bytes(c, filesize) + body) == filesize,
        header_counts(header_bytes(c, filesize) + body) == c,
        (header_bytes(c, filesize) + body).subrange(
            9 + 5 * c.len() as int,
            (header_bytes(c, filesize) + body).len() as int,
        ) == body,
{
    let h = header_bytes(c, filesize);
    let b = h + body;
    lemma_entries(c);
    assert(b[8] == c.len() as u8);
    assert(b.len() >= 9 + 5 * c.len());
    lemma_u64_le(filesize as u64);
    assert(u64_le(b, 0) == u64_le(le_bytes(filesize as u64, 8), 0));
    assert forall|i: int| 0 <= i < c.len() implies #[trigger] header_counts(b)[i] == c[i] by {
        let e = entries_bytes(c);
        assert(b[9 + 5 * i] == e[5 * i]);
        let le = le_bytes(c[i].1 as u32 as u64, 4);
        lemma_u32_le(c[i].1 as u32 as u64);
        assert(le[0] == e.subrange(5 * i + 1, 5 * i + 5)[0]);
        assert(u32_le(b, 10 + 5 * i) == u32_le(le, 0));
    }
    assert(header_counts(b) =~= c);
    assert(b.subrange(9 + 5 * c.len() as int, b.len() as int) =~= body);
}

/// Every byte of `s` has a code in the Huffman tree of its frequency table;
/// with two or more distinct bytes that tree is a node.
pub proof fn lemma_every_byte_has_a_code(s: Seq<u8>, x: u8)
    requires
        s.len() >= 1,
        s.contains(x),
    ensures
        code_of(huffman_of(frequencies_of(s)), x) is Some,
        distinct_in_order(s).len() >= 2 ==> huffman_of(frequencies_of(s)) is Node,
{
    let c = frequencies_of(s);
    lemma_distinct_contains(s, x);
    let j = choose|j: int| 0 <= j < distinct_in_order(s).len() && distinct_in_order(s)[j] == x;
    assert(c[j].0 == x);
    lemma_leaves_symbols(c, x);
    lemma_merge_all(leaves_of(c), c.len());
    lemma_code_exists(huffman_of(c), x);
}

/// Decompressing what compressing `s` gave yields `s` again, for every
/// input with at least two and at most 255 distinct bytes, none of which
/// occurs more than `u32::MAX` times. (With one distinct byte every code is
/// empty, so no bits are written; with 256 the entry count does not fit its
/// byte.)
pub proof fn lemma_compress_round_trip(s: Seq<u8>, packed: Seq<u8>, out: Option<Vec<u8>>)
    requires
        2 <= distinct_in_order(s).len() <= 255,
        forall|x: u8| occurrences(s, x) <= u32::MAX,
        s.len() <= usize::MAX,
        compressed(s, packed),
        decompressed(packed, out),
    ensures
        out matches Some(v) && v@ == s,
{
    let c = frequencies_of(s);
    let n = s.len() as usize;
    let head = header_bytes(c, n);
    let tree = huffman_of(c);
    lemma_entries(c);
    assert(head.len() == 9 + 5 * c.len());
    let body = packed.subrange(head.len() as int, packed.len() as int);
    assert(packed =~= head + body);
    assert forall|i: int| 0 <= i < c.len() implies (#[trigger] c[i]).1 <= u32::MAX by {
        lemma_occurrences_bound(s, distinct_in_order(s)[i]);
    }
    lemma_header_round_trip(c, n, body);
    assert forall|i: int| 0 <= i < c.len() implies #[trigger] c[i].0 == distinct_in_order(s)[i]
        && c[i].1 == occurrences(s, c[i].0) by {
        lemma_occurrences_bound(s, distinct_in_order(s)[i]);
    }
    assert(is_frequency_table(s, c));
    lemma_frequency_table_sum(s, c);
    assert forall|i: int| 0 <= i < s.len() implies code_of(tree, #[trigger] s[i]) is Some by {
        lemma_every_byte_has_a_code(s, s[i]);
    }
    lemma_every_byte_has_a_code(s, s[0]);
    lemma_codes_all_some(tree, s);
    let bits = codes_of(tree, s)->0;
    let zeros = Seq::new(((8 - bits.len() % 8) % 8) as nat, |i: int| 0u8);
    assert(padded(bits) == bits + zeros);
    lemma_decode_codes(tree, s, zeros);
}

} // verus!
