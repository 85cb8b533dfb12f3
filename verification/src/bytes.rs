//! Big-endian integers in byte sequences, and slicing helpers.
use vstd::prelude::*;

verus! {

/// The two big-endian bytes of `n`, taken modulo 2^16.
#[verifier::opaque]
pub open spec fn be16(n: int) -> Seq<u8> {
    seq![((n / 0x100) % 0x100) as u8, (n % 0x100) as u8]
}

/// The three big-endian bytes of `n`, taken modulo 2^24.
#[verifier::opaque]
pub open spec fn be24(n: int) -> Seq<u8> {
    seq![((n / 0x1_0000) % 0x100) as u8, ((n / 0x100) % 0x100) as u8, (n % 0x100) as u8]
}

/// The four big-endian bytes of `n`, taken modulo 2^32.
#[verifier::opaque]
pub open spec fn be32(n: int) -> Seq<u8> {
    seq![
        ((n / 0x100_0000) % 0x100) as u8,
        ((n / 0x1_0000) % 0x100) as u8,
        ((n / 0x100) % 0x100) as u8,
        (n % 0x100) as u8,
    ]
}

/// The eight big-endian bytes of `n`, taken modulo 2^64.
#[verifier::opaque]
pub open spec fn be64(n: int) -> Seq<u8> {
    be32(n / 0x1_0000_0000) + be32(n)
}

pub broadcast proof fn lemma_be16_len(n: int)
    ensures
        #[trigger] be16(n).len() == 2,
{
    reveal(be16);
}

pub broadcast proof fn lemma_be24_len(n: int)
    ensures
        #[trigger] be24(n).len() == 3,
{
    reveal(be24);
}

pub broadcast proof fn lemma_be32_len(n: int)
    ensures
        #[trigger] be32(n).len() == 4,
{
    reveal(be32);
}

pub broadcast proof fn lemma_be64_len(n: int)
    ensures
        #[trigger] be64(n).len() == 8,
{
    reveal(be64);
    reveal(be32);
}

/// How many bytes the integers take.
pub broadcast group group_be_len {
    lemma_be16_len,
    lemma_be24_len,
    lemma_be32_len,
    lemma_be64_len,
}

/// The 16-bit big-endian integer at offset `i`.
pub open spec fn u16_at(s: Seq<u8>, i: int) -> int {
    s[i] * 0x100 + s[i + 1]
}

/// The 32-bit big-endian integer at offset `i`.
pub open spec fn u32_at(s: Seq<u8>, i: int) -> int {
    s[i] * 0x100_0000 + s[i + 1] * 0x1_0000 + s[i + 2] * 0x100 + s[i + 3]
}

/// The 64-bit big-endian integer at offset `i`.
pub open spec fn u64_at(s: Seq<u8>, i: int) -> int {
    u32_at(s, i) * 0x1_0000_0000 + u32_at(s, i + 4)
}

/// Reading back a written 16-bit integer.
pub proof fn lemma_be16(n: int)
    requires
        0 <= n < 0x1_0000,
    ensures
        be16(n).len() == 2,
        u16_at(be16(n), 0) == n,
{
    reveal(be16);
}

/// Reading back a written 32-bit integer.
pub proof fn lemma_be32(n: int)
    requires
        0 <= n < 0x1_0000_0000,
    ensures
        be32(n).len() == 4,
        u32_at(be32(n), 0) == n,
{
    reveal(be32);
}

/// Reading back a written 64-bit integer.
pub proof fn lemma_be64(n: int)
    requires
        0 <= n < 0x1_0000_0000_0000_0000,
    ensures
        be64(n).len() == 8,
        u64_at(be64(n), 0) == n,
{
    broadcast use group_be_len;

    reveal(be64);
    let hi = n / 0x1_0000_0000;
    lemma_be32(hi);
    lemma_be32(n % 0x1_0000_0000);
    assert(be32(n) =~= be32(n % 0x1_0000_0000)) by {
        lemma_be32_mod(n);
    }
    assert(be64(n).subrange(0, 4) =~= be32(hi));
    assert(be64(n).subrange(4, 8) =~= be32(n));
    assert(u32_at(be64(n), 0) == u32_at(be32(hi), 0));
    assert(u32_at(be64(n), 4) == u32_at(be32(n), 0));
}

/// Multiples of 2^16 times `k` do not change the byte at weight `k`.
proof fn lemma_byte_shift(q: int, m: int, k: int)
    requires
        0 <= m,
        0 <= q,
        k > 0,
        k == 1 || k == 0x100 || k == 0x1_0000 || k == 0x100_0000,
    ensures
        ((q * 0x1_0000_0000 + m) / k) % 0x100 == (m / k) % 0x100,
{
    if k == 1 {
        assert((q * 0x1_0000_0000 + m) % 0x100 == m % 0x100);
    } else if k == 0x100 {
        assert((q * 0x1_0000_0000 + m) / 0x100 == q * 0x100_0000 + m / 0x100);
        assert((q * 0x100_0000 + m / 0x100) % 0x100 == (m / 0x100) % 0x100);
    } else if k == 0x1_0000 {
        assert((q * 0x1_0000_0000 + m) / 0x1_0000 == q * 0x1_0000 + m / 0x1_0000);
        assert((q * 0x1_0000 + m / 0x1_0000) % 0x100 == (m / 0x1_0000) % 0x100);
    } else {
        assert((q * 0x1_0000_0000 + m) / 0x100_0000 == q * 0x100 + m / 0x100_0000);
        assert((q * 0x100 + m / 0x100_0000) % 0x100 == (m / 0x100_0000) % 0x100);
    }
}

proof fn lemma_be32_low(q: int, m: int)
    requires
        0 <= m,
        0 <= q,
    ensures
        be32(q * 0x1_0000_0000 + m) == be32(m),
{
    lemma_byte_shift(q, m, 0x100_0000);
    lemma_byte_shift(q, m, 0x1_0000);
    lemma_byte_shift(q, m, 0x100);
    lemma_byte_shift(q, m, 1);
    lemma_same_bytes(q * 0x1_0000_0000 + m, m);
}

/// Numbers whose bytes agree are written alike.
proof fn lemma_same_bytes(a: int, b: int)
    requires
        (a / 0x100_0000) % 0x100 == (b / 0x100_0000) % 0x100,
        (a / 0x1_0000) % 0x100 == (b / 0x1_0000) % 0x100,
        (a / 0x100) % 0x100 == (b / 0x100) % 0x100,
        (a / 1) % 0x100 == (b / 1) % 0x100,
    ensures
        be32(a) == be32(b),
{
    reveal(be32);
    assert(a / 1 == a);
    assert(b / 1 == b);
    assert(be32(a) =~= be32(b));
}

/// Only the low 32 bits of `n` are written.
pub proof fn lemma_be32_mod(n: int)
    requires
        0 <= n,
    ensures
        be32(n) == be32(n % 0x1_0000_0000),
{
    lemma_be32_low(n / 0x1_0000_0000, n % 0x1_0000_0000);
}

/// Reading a 32-bit integer that was written in the middle of a sequence.
pub proof fn lemma_u32_in(a: Seq<u8>, n: int, b: Seq<u8>)
    requires
        0 <= n < 0x1_0000_0000,
    ensures
        u32_at(a + be32(n) + b, a.len() as int) == n,
{
    lemma_be32(n);
    let s = a + be32(n) + b;
    let k = a.len() as int;
    assert(s[k] == be32(n)[0] && s[k + 1] == be32(n)[1] && s[k + 2] == be32(n)[2] && s[k + 3]
        == be32(n)[3]);
}

/// Reads the 16-bit big-endian integer at `i`.
pub fn read_u16(s: &[u8], i: usize) -> (r: u16)
    requires
        i + 2 <= s@.len(),
    ensures
        r == u16_at(s@, i as int),
{
    (s[i] as u16) * 0x100 + s[i + 1] as u16
}

/// Reads the 32-bit big-endian integer at `i`.
pub fn read_u32(s: &[u8], i: usize) -> (r: u32)
    requires
        i + 4 <= s@.len(),
    ensures
        r == u32_at(s@, i as int),
{
    (s[i] as u32) * 0x100_0000 + (s[i + 1] as u32) * 0x1_0000 + (s[i + 2] as u32) * 0x100
        + s[i + 3] as u32
}

/// Reads the 64-bit big-endian integer at `i`.
pub fn read_u64(s: &[u8], i: usize) -> (r: u64)
    requires
        i + 8 <= s@.len(),
    ensures
        r == u64_at(s@, i as int),
{
    let n: usize = s.len();
    assert(i + 8 <= n);
    (read_u32(s, i) as u64) * 0x1_0000_0000 + read_u32(s, i + 4) as u64
}

/// Appends the two big-endian bytes of `v`.
pub fn put_u16(buf: &mut Vec<u8>, v: u16)
    ensures
        final(buf)@ == old(buf)@ + be16(v as int),
{
    buf.push((v / 0x100) as u8);
    buf.push((v % 0x100) as u8);
    reveal(be16);
    assert(buf@ =~= old(buf)@ + be16(v as int));
}

/// Appends the four big-endian bytes of `v`.
pub fn put_u32(buf: &mut Vec<u8>, v: u32)
    ensures
        final(buf)@ == old(buf)@ + be32(v as int),
{
    buf.push((v / 0x100_0000) as u8);
    buf.push(((v / 0x1_0000) % 0x100) as u8);
    buf.push(((v / 0x100) % 0x100) as u8);
    buf.push((v % 0x100) as u8);
    reveal(be32);
    assert(buf@ =~= old(buf)@ + be32(v as int));
}

/// Appends the eight big-endian bytes of `v`.
pub fn put_u64(buf: &mut Vec<u8>, v: u64)
    ensures
        final(buf)@ == old(buf)@ + be64(v as int),
{
    let hi: u32 = (v / 0x1_0000_0000) as u32;
    let lo: u32 = (v % 0x1_0000_0000) as u32;
    put_u32(buf, hi);
    put_u32(buf, lo);
    proof {
        lemma_be32_mod(v as int);
        reveal(be64);
    }
    assert(buf@ =~= old(buf)@ + be64(v as int));
}

/// Appends the bytes of `data`.
pub fn put_bytes(buf: &mut Vec<u8>, data: &[u8])
    ensures
        final(buf)@ == old(buf)@ + data@,
{
    buf.extend_from_slice(data);
    assert(buf@ =~= old(buf)@ + data@);
}

/// A copy of `data`.
pub fn to_vec(data: &[u8]) -> (r: Vec<u8>)
    ensures
        r@ == data@,
{
    let mut out: Vec<u8> = Vec::new();
    out.extend_from_slice(data);
    assert(out@ =~= data@);
    out
}

/// The part of `data` from `from` up to `to`.
pub fn slice(data: &[u8], from: usize, to: usize) -> (r: &[u8])
    requires
        from <= to <= data@.len(),
    ensures
        r@ == data@.subrange(from as int, to as int),
{
    &data[from..to]
}

/// Whether two byte strings are equal.
pub fn bytes_eq(a: &[u8], b: &[u8]) -> (r: bool)
    ensures
        r == (a@ == b@),
{
    if a.len() != b.len() {
        return false;
    }
    let mut i: usize = 0;
    while i < a.len()
        invariant
            i <= a@.len(),
            a@.len() == b@.len(),
            forall|j: int| 0 <= j < i ==> a@[j] == b@[j],
        decreases a@.len() - i,
    {
        if a[i] != b[i] {
            return false;
        }
        i = i + 1;
    }
    assert(a@ =~= b@);
    true
}

/// Whether an optional buffer is an optional sequence.
pub open spec fn same_bytes(r: Option<Vec<u8>>, m: Option<Seq<u8>>) -> bool {
    match (r, m) {
        (Some(a), Some(b)) => a@ == b,
        (None, None) => true,
        _ => false,
    }
}

/// The models of the items of a sequence.
pub open spec fn views<T: View>(s: Seq<T>) -> Seq<T::V> {
    Seq::new(s.len(), |i: int| s[i]@)
}

} // verus!
