//! Little-endian integers in byte sequences.

use vstd::prelude::*;

verus! {

/// The `u16` whose little-endian bytes stand at `off`.
pub open spec fn le16(s: Seq<u8>, off: int) -> u16 {
    (s[off] as int + 0x100 * (s[off + 1] as int)) as u16
}

/// The `u32` whose little-endian bytes stand at `off`.
pub open spec fn le32(s: Seq<u8>, off: int) -> u32 {
    (s[off] as int + 0x100 * (s[off + 1] as int) + 0x1_0000 * (s[off + 2] as int) + 0x100_0000 * (
    s[off + 3] as int)) as u32
}

/// The `i`-th little-endian byte of `v`.
pub open spec fn byte_of(v: u32, i: int) -> u8 {
    if i == 0 {
        (v % 0x100) as u8
    } else if i == 1 {
        ((v / 0x100) % 0x100) as u8
    } else if i == 2 {
        ((v / 0x1_0000) % 0x100) as u8
    } else {
        ((v / 0x100_0000) % 0x100) as u8
    }
}

/// `s` with the little-endian bytes of `v` at `off`.
pub open spec fn put16(s: Seq<u8>, off: int, v: u16) -> Seq<u8> {
    s.update(off, byte_of(v as u32, 0)).update(off + 1, byte_of(v as u32, 1))
}

/// `s` with the little-endian bytes of `v` at `off`.
pub open spec fn put32(s: Seq<u8>, off: int, v: u32) -> Seq<u8> {
    s.update(off, byte_of(v, 0)).update(off + 1, byte_of(v, 1)).update(
        off + 2,
        byte_of(v, 2),
    ).update(off + 3, byte_of(v, 3))
}

/// What was put is read back, and the other bytes stay.
pub proof fn lemma_le32_put32(s: Seq<u8>, off: int, v: u32)
    requires
        0 <= off,
        off + 4 <= s.len(),
    ensures
        le32(put32(s, off, v), off) == v,
        put32(s, off, v).len() == s.len(),
        forall|i: int| 0 <= i < s.len() && !(off <= i < off + 4) ==> put32(s, off, v)[i] == s[i],
{
}

/// What was put is read back, and the other bytes stay.
pub proof fn lemma_le16_put16(s: Seq<u8>, off: int, v: u16)
    requires
        0 <= off,
        off + 2 <= s.len(),
    ensures
        le16(put16(s, off, v), off) == v,
        put16(s, off, v).len() == s.len(),
        forall|i: int| 0 <= i < s.len() && !(off <= i < off + 2) ==> put16(s, off, v)[i] == s[i],
{
}

/// The 16-bit value that stands at `off`, little-endian.
pub fn read_u16(buf: &[u8], off: usize) -> (v: u16)
    requires
        off + 2 <= buf@.len(),
    ensures
        v == le16(buf@, off as int),
{
    buf[off] as u16 + 0x100 * (buf[off + 1] as u16)
}

/// The 32-bit value that stands at `off`, little-endian.
pub fn read_u32(buf: &[u8], off: usize) -> (v: u32)
    requires
        off + 4 <= buf@.len(),
    ensures
        v == le32(buf@, off as int),
{
    buf[off] as u32 + 0x100 * (buf[off + 1] as u32) + 0x1_0000 * (buf[off + 2] as u32) + 0x100_0000
        * (buf[off + 3] as u32)
}

/// Puts the 16-bit value at `off`, little-endian.
pub fn write_u16(buf: &mut [u8], off: usize, v: u16)
    requires
        off + 2 <= old(buf)@.len(),
    ensures
        final(buf)@ == put16(old(buf)@, off as int, v),
{
    buf[off] = (v % 0x100) as u8;
    buf[off + 1] = ((v / 0x100) % 0x100) as u8;
}

/// Puts the 32-bit value at `off`, little-endian.
pub fn write_u32(buf: &mut [u8], off: usize, v: u32)
    requires
        off + 4 <= old(buf)@.len(),
    ensures
        final(buf)@ == put32(old(buf)@, off as int, v),
{
    buf[off] = (v % 0x100) as u8;
    buf[off + 1] = ((v / 0x100) % 0x100) as u8;
    buf[off + 2] = ((v / 0x1_0000) % 0x100) as u8;
    buf[off + 3] = ((v / 0x100_0000) % 0x100) as u8;
}

/// The `n` little-endian `u32`s that stand one after another from `off`.
pub open spec fn le32_seq(s: Seq<u8>, off: int, n: nat) -> Seq<u32> {
    Seq::new(n, |k: int| le32(s, off + 4 * k))
}

/// `s` with the little-endian bytes of each of `vals`, one after another
/// from `off`.
#[verifier::opaque]
pub open spec fn put32_seq(s: Seq<u8>, off: int, vals: Seq<u32>) -> Seq<u8> {
    Seq::new(
        s.len(),
        |i: int|
            if off <= i < off + 4 * vals.len() {
                byte_of(vals[(i - off) / 4], (i - off) % 4)
            } else {
                s[i]
            },
    )
}

/// `s` with `bytes` in place of what stood from `off`.
pub open spec fn put_bytes(s: Seq<u8>, off: int, bytes: Seq<u8>) -> Seq<u8> {
    Seq::new(s.len(), |i: int| if off <= i < off + bytes.len() { bytes[i - off] } else { s[i] })
}

/// A 32-bit value is the sum of its four bytes, each at its place.
pub proof fn lemma_le32_bytes(v: u32)
    ensures
        v as int == byte_of(v, 0) as int + 0x100 * (byte_of(v, 1) as int) + 0x1_0000 * (byte_of(
            v,
            2,
        ) as int) + 0x100_0000 * (byte_of(v, 3) as int),
{
    assert(v == (v % 0x100) + 0x100 * ((v / 0x100) % 0x100) + 0x1_0000 * ((v / 0x1_0000) % 0x100)
        + 0x100_0000 * ((v / 0x100_0000) % 0x100)) by (bit_vector);
}

/// Writing a run of values keeps the length and every byte outside the run.
pub proof fn lemma_put32_seq_frame(s: Seq<u8>, off: int, vals: Seq<u32>)
    ensures
        put32_seq(s, off, vals).len() == s.len(),
        forall|i: int|
            0 <= i < s.len() && !(off <= i < off + 4 * vals.len()) ==> #[trigger] put32_seq(
                s,
                off,
                vals,
            )[i] == s[i],
{
    reveal(put32_seq);
}

/// The values that were put are read back.
pub proof fn lemma_le32_seq_put32_seq(s: Seq<u8>, off: int, vals: Seq<u32>)
    requires
        0 <= off,
        off + 4 * vals.len() <= s.len(),
    ensures
        le32_seq(put32_seq(s, off, vals), off, vals.len()) == vals,
{
    reveal(put32_seq);
    let t = put32_seq(s, off, vals);
    assert forall|k: int| 0 <= k < vals.len() implies le32(t, off + 4 * k) == vals[k] by {
        let v = vals[k];
        lemma_le32_bytes(v);
        assert(t[off + 4 * k] == byte_of(v, 0));
        assert(t[off + 4 * k + 1] == byte_of(v, 1));
        assert(t[off + 4 * k + 2] == byte_of(v, 2));
        assert(t[off + 4 * k + 3] == byte_of(v, 3));
    }
    assert(le32_seq(t, off, vals.len()) =~= vals);
}

/// Writing one more value after the first `k` extends the run by one.
pub proof fn lemma_put32_seq_step(s: Seq<u8>, off: int, vals: Seq<u32>, k: int)
    requires
        0 <= off,
        0 <= k < vals.len(),
        off + 4 * vals.len() <= s.len(),
    ensures
        put32(put32_seq(s, off, vals.take(k)), off + 4 * k, vals[k]) == put32_seq(
            s,
            off,
            vals.take(k + 1),
        ),
{
    reveal(put32_seq);
    let a = put32(put32_seq(s, off, vals.take(k)), off + 4 * k, vals[k]);
    let b = put32_seq(s, off, vals.take(k + 1));
    assert forall|i: int| 0 <= i < s.len() implies a[i] == b[i] by {
        if off <= i < off + 4 * k {
            assert((i - off) / 4 < k);
        } else if off + 4 * k <= i < off + 4 * k + 4 {
            assert((i - off) / 4 == k);
        }
    }
    assert(a =~= b);
}

/// The little-endian value at `off` depends on the four bytes there alone.
pub proof fn lemma_le32_same(s: Seq<u8>, t: Seq<u8>, off: int)
    requires
        forall|i: int| off <= i < off + 4 ==> s[i] == t[i],
    ensures
        le32(s, off) == le32(t, off),
{
}

/// Reads as many 32-bit values as `out` holds, from `off` on.
pub fn load_words(buf: &[u8], off: usize, out: &mut [u32])
    requires
        off + 4 * old(out)@.len() <= buf@.len(),
    ensures
        final(out)@ == le32_seq(buf@, off as int, old(out)@.len()),
{
    let n = out.len();
    let total = buf.len();
    let mut k: usize = 0;
    while k < n
        invariant
            k <= n,
            n == out@.len(),
            total == buf@.len(),
            off + 4 * n <= buf@.len(),
            forall|j: int| 0 <= j < k ==> out@[j] == le32(buf@, off + 4 * j),
        decreases n - k,
    {
        out[k] = read_u32(buf, off + 4 * k);
        k = k + 1;
    }
    assert(out@ =~= le32_seq(buf@, off as int, n as nat));
}

/// Puts the 32-bit values one behind the other, from `off` on.
pub fn store_words(vals: &[u32], buf: &mut [u8], off: usize)
    requires
        off + 4 * vals@.len() <= old(buf)@.len(),
    ensures
        final(buf)@ == put32_seq(old(buf)@, off as int, vals@),
{
    let n = vals.len();
    let total = buf.len();
    let mut k: usize = 0;
    assert(buf@ =~= put32_seq(old(buf)@, off as int, vals@.take(0))) by {
        reveal(put32_seq);
    }
    while k < n
        invariant
            k <= n,
            n == vals@.len(),
            total == buf@.len(),
            buf@.len() == old(buf)@.len(),
            off + 4 * n <= buf@.len(),
            buf@ == put32_seq(old(buf)@, off as int, vals@.take(k as int)),
        decreases n - k,
    {
        proof {
            lemma_put32_seq_step(old(buf)@, off as int, vals@, k as int);
            lemma_put32_seq_frame(old(buf)@, off as int, vals@.take(k as int));
        }
        write_u32(buf, off + 4 * k, vals[k]);
        k = k + 1;
    }
    assert(vals@.take(n as int) =~= vals@);
}

/// Reads as many bytes as `out` holds, from `off` on.
pub fn load_bytes(buf: &[u8], off: usize, out: &mut [u8])
    requires
        off + old(out)@.len() <= buf@.len(),
    ensures
        final(out)@ == buf@.subrange(off as int, off + old(out)@.len()),
{
    let n = out.len();
    let total = buf.len();
    let mut k: usize = 0;
    while k < n
        invariant
            k <= n,
            n == out@.len(),
            total == buf@.len(),
            off + n <= buf@.len(),
            forall|j: int| 0 <= j < k ==> out@[j] == buf@[off + j],
        decreases n - k,
    {
        out[k] = buf[off + k];
        k = k + 1;
    }
    assert(out@ =~= buf@.subrange(off as int, off + n));
}

/// Puts the bytes at `off`.
pub fn store_bytes(bytes: &[u8], buf: &mut [u8], off: usize)
    requires
        off + bytes@.len() <= old(buf)@.len(),
    ensures
        final(buf)@ == put_bytes(old(buf)@, off as int, bytes@),
{
    let n = bytes.len();
    let total = buf.len();
    let mut k: usize = 0;
    while k < n
        invariant
            k <= n,
            n == bytes@.len(),
            total == buf@.len(),
            buf@.len() == old(buf)@.len(),
            off + n <= buf@.len(),
            forall|i: int| 0 <= i < buf@.len() ==> buf@[i] == (if off <= i < off + k {
                bytes@[i - off]
            } else {
                old(buf)@[i]
            }),
        decreases n - k,
    {
        buf[off + k] = bytes[k];
        k = k + 1;
    }
    assert(buf@ =~= put_bytes(old(buf)@, off as int, bytes@));
}

/// Copies `m` bytes of `src`, from `from`, into `dst` at `at`.
pub fn copy_bytes(dst: &mut [u8], at: usize, src: &[u8], from: usize, m: usize)
    requires
        at + m <= old(dst)@.len(),
        from + m <= src@.len(),
    ensures
        final(dst)@ == put_bytes(old(dst)@, at as int, src@.subrange(from as int, from + m)),
{
    let total = dst.len();
    let stotal = src.len();
    let mut k: usize = 0;
    while k < m
        invariant
            k <= m,
            total == dst@.len(),
            stotal == src@.len(),
            dst@.len() == old(dst)@.len(),
            at + m <= total,
            from + m <= stotal,
            forall|i: int| 0 <= i < dst@.len() ==> dst@[i] == (if at <= i < at + k {
                src@[from + i - at]
            } else {
                old(dst)@[i]
            }),
        decreases m - k,
    {
        dst[at + k] = src[from + k];
        k = k + 1;
    }
    assert(dst@ =~= put_bytes(old(dst)@, at as int, src@.subrange(from as int, from + m)));
}

/// A value with a fixed layout in bytes, which can be read from and written
/// into a block at any offset that leaves it room.
pub trait Record: Sized + View {
    /// The number of bytes that a value takes.
    spec fn size() -> nat;

    /// The value whose bytes stand in `s` from `off`.
    spec fn decode(s: Seq<u8>, off: int) -> Self::V;

    /// `s` with the bytes of `v` from `off`.
    spec fn encode(v: Self::V, s: Seq<u8>, off: int) -> Seq<u8>;

    /// Whether `v` is the view of a value of the type.
    spec fn valid(v: Self::V) -> bool;

    /// Decoding gives back what was encoded, and encoding touches only the
    /// bytes of the value.
    proof fn lemma_codec(v: Self::V, s: Seq<u8>, off: int)
        requires
            Self::valid(v),
            0 <= off,
            off + Self::size() <= s.len(),
        ensures
            Self::decode(Self::encode(v, s, off), off) == v,
            Self::encode(v, s, off).len() == s.len(),
            forall|i: int|
                0 <= i < s.len() && !(off <= i < off + Self::size()) ==> Self::encode(v, s, off)[i]
                    == s[i],
    ;

    fn byte_len() -> (n: usize)
        ensures
            n == Self::size(),
            0 < n <= 512,
    ;

    fn load(buf: &[u8], off: usize) -> (r: Self)
        requires
            off + Self::size() <= buf@.len(),
        ensures
            r@ == Self::decode(buf@, off as int),
            Self::valid(r@),
    ;

    fn store(&self, buf: &mut [u8], off: usize)
        requires
            off + Self::size() <= old(buf)@.len(),
        ensures
            final(buf)@ == Self::encode(self@, old(buf)@, off as int),
            Self::valid(self@),
    ;
}

impl Record for u8 {
    open spec fn size() -> nat {
        1
    }

    open spec fn decode(s: Seq<u8>, off: int) -> u8 {
        s[off]
    }

    open spec fn encode(v: u8, s: Seq<u8>, off: int) -> Seq<u8> {
        s.update(off, v)
    }

    open spec fn valid(v: u8) -> bool {
        true
    }

    proof fn lemma_codec(v: u8, s: Seq<u8>, off: int) {
    }

    fn byte_len() -> (n: usize) {
        1
    }

    fn load(buf: &[u8], off: usize) -> (r: u8) {
        buf[off]
    }

    fn store(&self, buf: &mut [u8], off: usize) {
        buf[off] = *self;
    }
}

impl Record for u32 {
    open spec fn size() -> nat {
        4
    }

    open spec fn decode(s: Seq<u8>, off: int) -> u32 {
        le32(s, off)
    }

    open spec fn encode(v: u32, s: Seq<u8>, off: int) -> Seq<u8> {
        put32(s, off, v)
    }

    open spec fn valid(v: u32) -> bool {
        true
    }

    proof fn lemma_codec(v: u32, s: Seq<u8>, off: int) {
        lemma_le32_put32(s, off, v);
    }

    fn byte_len() -> (n: usize) {
        4
    }

    fn load(buf: &[u8], off: usize) -> (r: u32) {
        read_u32(buf, off)
    }

    fn store(&self, buf: &mut [u8], off: usize) {
        write_u32(buf, off, *self);
    }
}

} // verus!
