use vstd::prelude::*;

verus! {

/// Bit `j` of `b`, counting from the least significant bit.
pub open spec fn bit_at(b: u8, j: int) -> u8 {
    (b >> (j as u8)) & 1u8
}

/// The eight bits of a byte, least significant first.
pub open spec fn byte_bits(b: u8) -> Seq<u8> {
    Seq::new(8, |j: int| bit_at(b, j))
}

/// The bit stream that a byte sequence carries: each byte's bits, least
/// significant first, byte after byte.
pub open spec fn bits_of_bytes(bytes: Seq<u8>) -> Seq<u8>
    decreases bytes.len(),
{
    if bytes.len() == 0 {
        Seq::empty()
    } else {
        byte_bits(bytes[0]) + bits_of_bytes(bytes.drop_first())
    }
}

/// Every element is a bit: 0 or 1.
pub open spec fn all_bits(s: Seq<u8>) -> bool {
    forall|i: int| 0 <= i < s.len() ==> #[trigger] s[i] <= 1
}

/// The stream, with each element reduced to its lowest bit.
pub open spec fn low_bits(s: Seq<u8>) -> Seq<u8> {
    s.map_values(|b: u8| b & 1u8)
}

/// The bit stream that the bytes `source[byte..]` carry, starting at bit
/// `bit` of the first of them.
pub open spec fn bits_from(source: Seq<u8>, byte: int, bit: int) -> Seq<u8> {
    if byte >= source.len() {
        Seq::empty()
    } else {
        byte_bits(source[byte]).subrange(bit, 8) + bits_of_bytes(
            source.subrange(byte + 1, source.len() as int),
        )
    }
}

proof fn lemma_bits_of_bytes_len(bytes: Seq<u8>)
    ensures
        bits_of_bytes(bytes).len() == 8 * bytes.len(),
    decreases bytes.len(),
{
    if bytes.len() > 0 {
        lemma_bits_of_bytes_len(bytes.drop_first());
    }
}

proof fn lemma_bits_of_bytes_push(bytes: Seq<u8>, b: u8)
    ensures
        bits_of_bytes(bytes.push(b)) == bits_of_bytes(bytes) + byte_bits(b),
    decreases bytes.len(),
{
    if bytes.len() == 0 {
        assert(bytes.push(b).drop_first() =~= Seq::<u8>::empty());
        assert(bits_of_bytes(bytes.push(b).drop_first()) =~= Seq::<u8>::empty());
        assert(bytes.push(b)[0] == b);
        assert(bits_of_bytes(bytes.push(b)) =~= byte_bits(b));
    } else {
        assert(bytes.push(b).drop_first() =~= bytes.drop_first().push(b));
        lemma_bits_of_bytes_push(bytes.drop_first(), b);
        assert(bits_of_bytes(bytes.push(b)) =~= bits_of_bytes(bytes) + byte_bits(b));
    }
}

/// A vector holding the same bytes as `s`.
pub fn copy_bytes(s: &[u8]) -> (r: Vec<u8>)
    ensures
        r@ == s@,
{
    let mut r: Vec<u8> = Vec::new();
    let mut i: usize = 0;
    while i < s.len()
        invariant
            i <= s@.len(),
            r@ == s@.subrange(0, i as int),
        decreases s.len() - i,
    {
        r.push(s[i]);
        assert(r@ =~= s@.subrange(0, i + 1));
        i = i + 1;
    }
    assert(r@ =~= s@);
    r
}

/// Reads a byte sequence bit by bit, least significant bit of each byte
/// first.
pub struct BitReader {
    source: Vec<u8>,
    byte: usize,
    bit: usize,
}

impl BitReader {
    pub closed spec fn wf(&self) -> bool {
        self.bit < 8 && self.byte <= self.source@.len()
    }

    /// The bits that are still to be read.
    pub closed spec fn remaining(&self) -> Seq<u8> {
        bits_from(self.source@, self.byte as int, self.bit as int)
    }

    pub fn new(source: Vec<u8>) -> (r: Self)
        ensures
            r.wf(),
            r.remaining() == bits_of_bytes(source@),
    {
        let r = BitReader { source, byte: 0, bit: 0 };
        proof {
            if r.source@.len() > 0 {
                assert(byte_bits(r.source@[0]).subrange(0, 8) =~= byte_bits(r.source@[0]));
                assert(r.source@.subrange(1, r.source@.len() as int) =~= r.source@.drop_first());
            }
        }
        r
    }

    /// Fills `out` from the front with the next bits, one bit (0 or 1) per
    /// element, until `out` is full or the bits run out; returns how many were
    /// read. The rest of `out` is left as it was.
    pub fn read(&mut self, out: &mut Vec<u8>) -> (n: u8)
        requires
            old(self).wf(),
            old(out)@.len() <= 255,
        ensures
            final(self).wf(),
            n == if old(out)@.len() <= old(self).remaining().len() {
                old(out)@.len()
            } else {
                old(self).remaining().len()
            },
            final(out)@ == old(self).remaining().subrange(0, n as int) + old(out)@.subrange(
                n as int,
                old(out)@.len() as int,
            ),
            final(self).remaining() == old(self).remaining().subrange(
                n as int,
                old(self).remaining().len() as int,
            ),
    {
        let ghost start = self.remaining();
        let ghost out0 = out@;
        let mut n: u8 = 0;
        let len = out.len();
        while (n as usize) < len
            invariant
                self.wf(),
                start == old(self).remaining(),
                out0 == old(out)@,
                len == out0.len(),
                len <= 255,
                out@.len() == len,
                n <= len,
                n <= start.len(),
                self.remaining() == start.subrange(n as int, start.len() as int),
                out@ == start.subrange(0, n as int) + out0.subrange(n as int, len as int),
            decreases len - n,
        {
            if self.byte >= self.source.len() {
                assert(self.remaining().len() == 0);
                assert(n == start.len());
                assert(out0.subrange(n as int, len as int) =~= out@.subrange(n as int, len as int));
                return n;
            }
            let b = self.source[self.byte];
            let val = (b >> (self.bit as u8)) & 1u8;
            proof {
                lemma_bits_of_bytes_len(
                    self.source@.subrange(self.byte + 1, self.source@.len() as int),
                );
                assert(self.remaining()[0] == val);
            }
            out.set(n as usize, val);
            let ghost before = self.remaining();
            if self.bit == 7 {
                self.byte = self.byte + 1;
                self.bit = 0;
                proof {
                    let rest = self.source@.subrange(self.byte as int, self.source@.len() as int);
                    if self.byte < self.source@.len() {
                        assert(rest.drop_first() =~= self.source@.subrange(
                            self.byte + 1,
                            self.source@.len() as int,
                        ));
                        assert(byte_bits(rest[0]).subrange(0, 8) =~= byte_bits(rest[0]));
                    }
                    assert(self.remaining() =~= before.subrange(1, before.len() as int));
                }
            } else {
                self.bit = self.bit + 1;
                assert(self.remaining() =~= before.subrange(1, before.len() as int));
            }
            assert(out@ =~= start.subrange(0, n + 1) + out0.subrange(n + 1, len as int));
            n = n + 1;
            assert(self.remaining() =~= start.subrange(n as int, start.len() as int));
        }
        n
    }
}


proof fn lemma_set_bit(c: u8, b: u8, idx: u8, j: u8)
    requires
        idx < 8,
        j < 8,
    ensures
        ((c | ((b & 1u8) << idx)) >> j) & 1u8 == if j == idx {
            ((c >> j) & 1u8) | (b & 1u8)
        } else {
            (c >> j) & 1u8
        },
{
    assert(((c | ((b & 1u8) << idx)) >> j) & 1u8 == if j == idx {
        ((c >> j) & 1u8) | (b & 1u8)
    } else {
        (c >> j) & 1u8
    }) by (bit_vector)
        requires
            idx < 8,
            j < 8,
    ;
}

proof fn lemma_zero_bits(j: u8)
    requires
        j < 8,
    ensures
        (0u8 >> j) & 1u8 == 0,
{
    assert((0u8 >> j) & 1u8 == 0) by (bit_vector);
}

/// The bytes that a bit stream packs into: eight bits to a byte, least
/// significant first, the last byte padded with zero bits.
pub open spec fn padded(bits: Seq<u8>) -> Seq<u8> {
    bits + Seq::new(((8 - bits.len() % 8) % 8) as nat, |i: int| 0u8)
}

/// Packs bits into bytes, least significant bit of each byte first. Whole
/// bytes go out as soon as the next bit needs room; `flush` sends the last,
/// partial one.
pub struct BitWriter {
    sink: Vec<u8>,
    current: u8,
    index: usize,
}

impl BitWriter {
    pub closed spec fn wf(&self) -> bool {
        &&& self.index <= 8
        &&& forall|j: int| self.index <= j < 8 ==> #[trigger] bit_at(self.current, j) == 0
    }

    /// Every bit written so far, in order.
    pub closed spec fn written(&self) -> Seq<u8> {
        bits_of_bytes(self.sink@) + byte_bits(self.current).subrange(0, self.index as int)
    }

    /// The bytes sent out so far.
    pub closed spec fn sent(&self) -> Seq<u8> {
        self.sink@
    }

    pub fn new() -> (r: Self)
        ensures
            r.wf(),
            r.written() == Seq::<u8>::empty(),
            r.sent() == Seq::<u8>::empty(),
    {
        let r = BitWriter { sink: Vec::new(), current: 0, index: 0 };
        assert forall|j: int| 0 <= j < 8 implies #[trigger] bit_at(r.current, j) == 0 by {
            lemma_zero_bits(j as u8);
        }
        assert(r.written() =~= Seq::<u8>::empty());
        r
    }

    /// Appends the lowest bit of each element of `bits` to the stream and
    /// returns how many were taken: all of them.
    pub fn write(&mut self, bits: &[u8]) -> (n: usize)
        requires
            old(self).wf(),
        ensures
            final(self).wf(),
            n == bits@.len(),
            final(self).written() == old(self).written() + low_bits(bits@),
    {
        let ghost w0 = self.written();
        let mut i: usize = 0;
        while i < bits.len()
            invariant
                self.wf(),
                w0 == old(self).written(),
                i <= bits@.len(),
                self.written() == w0 + low_bits(bits@.subrange(0, i as int)),
            decreases bits.len() - i,
        {
            if self.index > 7 {
                let ghost before = self.written();
                let ghost sink0 = self.sink@;
                let ghost c = self.current;
                self.sink.push(self.current);
                self.current = 0;
                self.index = 0;
                proof {
                    lemma_bits_of_bytes_push(sink0, c);
                    assert(byte_bits(c).subrange(0, 8) =~= byte_bits(c));
                    assert forall|j: int| 0 <= j < 8 implies #[trigger] bit_at(self.current, j)
                        == 0 by {
                        lemma_zero_bits(j as u8);
                    }
                    assert(self.written() =~= before);
                }
            }
            let bit = bits[i];
            let ghost before = self.written();
            let ghost c0 = self.current;
            let idx = self.index as u8;
            self.current = self.current | ((bit & 1u8) << idx);
            self.index = self.index + 1;
            proof {
                assert forall|j: int| 0 <= j < 8 implies #[trigger] bit_at(self.current, j) == if j
                    == idx {
                    bit & 1u8
                } else {
                    bit_at(c0, j)
                } by {
                    lemma_set_bit(c0, bit, idx, j as u8);
                    if j == idx {
                        assert(bit_at(c0, j) == 0);
                        assert((0u8 | (bit & 1u8)) == bit & 1u8) by (bit_vector);
                    }
                }
                assert(byte_bits(self.current).subrange(0, self.index as int) =~= byte_bits(
                    c0,
                ).subrange(0, idx as int).push(bit & 1u8));
                assert(low_bits(bits@.subrange(0, i + 1)) =~= low_bits(
                    bits@.subrange(0, i as int),
                ).push(bit & 1u8));
                assert(self.written() =~= before.push(bit & 1u8));
            }
            i = i + 1;
        }
        assert(bits@.subrange(0, i as int) =~= bits@);
        i
    }

    /// Sends the partial byte, if any, padded with zero bits. Afterwards
    /// every bit written so far has been sent, followed by the padding.
    pub fn flush(&mut self)
        requires
            old(self).wf(),
        ensures
            final(self).wf(),
            bits_of_bytes(final(self).sent()) == padded(old(self).written()),
            final(self).written() == bits_of_bytes(final(self).sent()),
    {
        let ghost w = self.written();
        let ghost sink0 = self.sink@;
        let ghost c = self.current;
        let ghost idx = self.index as int;
        proof {
            lemma_bits_of_bytes_len(sink0);
            let m = sink0.len() as int;
            assert((8 * m + idx) % 8 == idx % 8) by (nonlinear_arith)
                requires
                    0 <= idx <= 8,
                    m >= 0,
            ;
        }
        if self.index > 0 {
            self.sink.push(self.current);
            self.current = 0;
            self.index = 0;
            proof {
                lemma_bits_of_bytes_push(sink0, c);
                assert(bits_of_bytes(self.sink@) =~= padded(w));
            }
        } else {
            assert(padded(w) =~= w);
        }
        assert forall|j: int| 0 <= j < 8 implies #[trigger] bit_at(self.current, j) == 0 by {
            lemma_zero_bits(j as u8);
        }
        assert(self.written() =~= bits_of_bytes(self.sink@));
    }

    /// The bytes sent so far.
    pub fn into_bytes(self) -> (r: Vec<u8>)
        ensures
            r@ == self.sent(),
    {
        self.sink
    }
}

} // verus!
