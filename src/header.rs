use vstd::prelude::*;

verus! {

/// The first `n` bytes of `x`, least significant first.
pub open spec fn le_bytes(x: u64, n: nat) -> Seq<u8> {
    Seq::new(n, |k: int| ((x >> ((8 * k) as u64)) & 0xffu64) as u8)
}

/// The little-endian value of the eight bytes at `at`.
pub open spec fn u64_le(b: Seq<u8>, at: int) -> u64 {
    (b[at] as u64) | ((b[at + 1] as u64) << 8u64) | ((b[at + 2] as u64) << 16u64) | ((b[at
        + 3] as u64) << 24u64) | ((b[at + 4] as u64) << 32u64) | ((b[at + 5] as u64) << 40u64)
        | ((b[at + 6] as u64) << 48u64) | ((b[at + 7] as u64) << 56u64)
}

/// The little-endian value of the four bytes at `at`.
pub open spec fn u32_le(b: Seq<u8>, at: int) -> u32 {
    (b[at] as u32) | ((b[at + 1] as u32) << 8u32) | ((b[at + 2] as u32) << 16u32) | ((b[at
        + 3] as u32) << 24u32)
}

/// The encoded frequency entries: per entry its symbol, then its count as
/// four little-endian bytes (the count truncated to 32 bits).
pub open spec fn entries_bytes(counts: Seq<(u8, usize)>) -> Seq<u8>
    decreases counts.len(),
{
    if counts.len() == 0 {
        Seq::empty()
    } else {
        entries_bytes(counts.drop_last()) + seq![counts.last().0] + le_bytes(
            counts.last().1 as u32 as u64,
            4,
        )
    }
}

/// The encoded header: the file size as eight little-endian bytes, the
/// number of entries as one byte (truncated), then the entries.
pub open spec fn header_bytes(counts: Seq<(u8, usize)>, filesize: usize) -> Seq<u8> {
    le_bytes(filesize as u64, 8) + seq![counts.len() as u8] + entries_bytes(counts)
}

/// Whether `bytes` start with a complete header: eight size bytes, an entry
/// count, and that many five-byte entries.
pub open spec fn has_header(bytes: Seq<u8>) -> bool {
    bytes.len() >= 9 && bytes.len() >= 9 + 5 * (bytes[8] as int)
}

/// The file size that a header holds.
pub open spec fn header_filesize(bytes: Seq<u8>) -> usize {
    u64_le(bytes, 0) as usize
}

/// The frequency table that a header holds.
pub open spec fn header_counts(bytes: Seq<u8>) -> Seq<(u8, usize)> {
    Seq::new(bytes[8] as nat, |i: int| (bytes[9 + 5 * i], u32_le(bytes, 10 + 5 * i) as usize))
}

/// The header of a compressed stream: the uncompressed size and the frequency
/// table that the code tree is built from.
#[derive(Debug, PartialEq, Eq)]
pub struct Header {
    pub counts: Vec<(u8, usize)>,
    pub filesize: usize,
}

fn push_le(out: &mut Vec<u8>, x: u64, n: u64)
    requires
        n <= 8,
    ensures
        final(out)@ == old(out)@ + le_bytes(x, n as nat),
{
    let ghost start = out@;
    let mut k: u64 = 0;
    while k < n
        invariant
            k <= n <= 8,
            out@ == start + le_bytes(x, k as nat),
        decreases n - k,
    {
        out.push(((x >> (8 * k)) & 0xff) as u8);
        assert(le_bytes(x, (k + 1) as nat) =~= le_bytes(x, k as nat).push(
            ((x >> ((8 * k) as u64)) & 0xffu64) as u8,
        ));
        k = k + 1;
    }
}

impl Header {
    /// How many bytes the encoded header takes.
    pub fn size(&self) -> (r: usize)
        requires
            self.counts@.len() <= 255,
        ensures
            r == 9 + 5 * self.counts@.len(),
    {
        9 + 5 * self.counts.len()
    }

    /// Encodes the header.
    pub fn write(&self) -> (r: Vec<u8>)
        ensures
            r@ == header_bytes(self.counts@, self.filesize),
    {
        let mut out: Vec<u8> = Vec::new();
        push_le(&mut out, self.filesize as u64, 8);
        out.push(self.counts.len() as u8);
        let ghost head = out@;
        let mut i: usize = 0;
        while i < self.counts.len()
            invariant
                i <= self.counts@.len(),
                out@ == head + entries_bytes(self.counts@.subrange(0, i as int)),
            decreases self.counts.len() - i,
        {
            let (c, count) = self.counts[i];
            out.push(c);
            push_le(&mut out, (count as u32) as u64, 4);
            assert(self.counts@.subrange(0, i + 1).drop_last() =~= self.counts@.subrange(
                0,
                i as int,
            ));
            assert(out@ =~= head + entries_bytes(self.counts@.subrange(0, i + 1)));
            i = i + 1;
        }
        assert(self.counts@.subrange(0, i as int) =~= self.counts@);
        out
    }

    /// Decodes the header at the start of `bytes`; `None` when they are too
    /// short to hold one.
    pub fn read(bytes: &[u8]) -> (r: Option<Header>)
        ensures
            r is None <==> !has_header(bytes@),
            r matches Some(h) ==> h.filesize == header_filesize(bytes@) && h.counts@
                == header_counts(bytes@),
    {
        if bytes.len() < 9 {
            return None;
        }
        let n = bytes[8] as usize;
        if bytes.len() - 9 < 5 * n {
            return None;
        }
        let filesize = ((bytes[0] as u64) | ((bytes[1] as u64) << 8u64) | ((bytes[2] as u64)
            << 16u64) | ((bytes[3] as u64) << 24u64) | ((bytes[4] as u64) << 32u64) | ((
        bytes[5] as u64) << 40u64) | ((bytes[6] as u64) << 48u64) | ((bytes[7] as u64)
            << 56u64)) as usize;
        let mut counts: Vec<(u8, usize)> = Vec::new();
        let mut i: usize = 0;
        let mut pos: usize = 9;
        while i < n
            invariant
                n == bytes@[8] as int,
                bytes@.len() >= 9 + 5 * n,
                i <= n,
                pos == 9 + 5 * i,
                counts@.len() == i,
                forall|j: int|
                    0 <= j < i ==> #[trigger] counts@[j] == (
                        bytes@[9 + 5 * j],
                        u32_le(bytes@, 10 + 5 * j) as usize,
                    ),
            decreases n - i,
        {
            let symbol = bytes[pos];
            let count = ((bytes[pos + 1] as u32) | ((bytes[pos + 2] as u32) << 8u32) | ((bytes[pos
                + 3] as u32) << 16u32) | ((bytes[pos + 4] as u32) << 24u32)) as usize;
            counts.push((symbol, count));
            i = i + 1;
            pos = pos + 5;
        }
        assert(counts@ =~= header_counts(bytes@));
        Some(Header { counts, filesize })
    }
}

} // verus!
