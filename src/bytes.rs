//! Small operations on byte strings shared by the codec and the diff model.
use vstd::prelude::*;

verus! {

/// Whether two byte strings are equal.
pub fn bytes_eq(a: &[u8], b: &[u8]) -> (r: bool)
    ensures
        r == (a@ == b@),
{
    if a.len() != b.len() {
        return false;
    }
    let mut i: usize = 0;
    while i < a.len()
        invariant
            a@.len() == b@.len(),
            0 <= i <= a@.len(),
            a@.subrange(0, i as int) == b@.subrange(0, i as int),
        decreases a@.len() - i,
    {
        if a[i] != b[i] {
            assert(a@[i as int] != b@[i as int]);
            return false;
        }
        assert(a@.subrange(0, i + 1) =~= a@.subrange(0, i as int).push(a@[i as int]));
        assert(b@.subrange(0, i + 1) =~= b@.subrange(0, i as int).push(b@[i as int]));
        i = i + 1;
    }
    assert(a@ =~= a@.subrange(0, i as int));
    assert(b@ =~= b@.subrange(0, i as int));
    true
}

/// A copy of `v[i..j]`.
pub fn copy_range(v: &[u8], i: usize, j: usize) -> (r: Vec<u8>)
    requires
        i <= j <= v@.len(),
    ensures
        r@ == v@.subrange(i as int, j as int),
{
    let mut r: Vec<u8> = Vec::new();
    let mut k: usize = i;
    while k < j
        invariant
            i <= k <= j <= v@.len(),
            r@ == v@.subrange(i as int, k as int),
        decreases j - k,
    {
        r.push(v[k]);
        assert(v@.subrange(i as int, k + 1) =~= v@.subrange(i as int, k as int).push(v@[k as int]));
        k = k + 1;
    }
    r
}

/// A copy of a whole byte string.
pub fn copy_all(v: &[u8]) -> (r: Vec<u8>)
    ensures
        r@ == v@,
{
    let r = copy_range(v, 0, v.len());
    assert(v@.subrange(0, v@.len() as int) =~= v@);
    r
}

/// Appends `src` to `dst`.
pub fn append_bytes(dst: &mut Vec<u8>, src: &[u8])
    ensures
        final(dst)@ == old(dst)@ + src@,
{
    let mut k: usize = 0;
    while k < src.len()
        invariant
            0 <= k <= src@.len(),
            dst@ == old(dst)@ + src@.subrange(0, k as int),
        decreases src@.len() - k,
    {
        dst.push(src[k]);
        assert(src@.subrange(0, k + 1) =~= src@.subrange(0, k as int).push(src@[k as int]));
        assert(old(dst)@ + src@.subrange(0, k + 1) =~= old(dst)@ + src@.subrange(0, k as int) + seq![src@[k as int]]);
        k = k + 1;
    }
    assert(src@.subrange(0, src@.len() as int) =~= src@);
}

/// The value of four bytes read as a little-endian unsigned integer.
pub open spec fn le32(b: Seq<u8>) -> nat {
    b[0] as nat + 256 * (b[1] as nat) + 65536 * (b[2] as nat) + 16777216 * (b[3] as nat)
}

/// The four little-endian bytes of `x`.
pub open spec fn le32_bytes(x: u32) -> Seq<u8> {
    seq![(x & 0xff) as u8, ((x >> 8u32) & 0xff) as u8, ((x >> 16u32) & 0xff) as u8, ((x >> 24u32) & 0xff) as u8]
}

/// Reads a little-endian `u32` at `pos`.
pub fn read_le32(v: &[u8], pos: usize) -> (r: u32)
    requires
        pos + 4 <= v@.len(),
    ensures
        r as nat == le32(v@.subrange(pos as int, pos + 4)),
{
    let b0 = v[pos] as u32;
    let b1 = v[pos + 1] as u32;
    let b2 = v[pos + 2] as u32;
    let b3 = v[pos + 3] as u32;
    assert(b0 + 256 * b1 + 65536 * b2 + 16777216 * b3 <= 0xffff_ffff) by (nonlinear_arith)
        requires b0 <= 255, b1 <= 255, b2 <= 255, b3 <= 255;
    b0 + 256 * b1 + 65536 * b2 + 16777216 * b3
}

/// The little-endian bytes of `x` read back give `x`.
pub proof fn lemma_le32_round_trip(x: u32)
    ensures
        le32(le32_bytes(x)) == x as nat,
{
    let b0 = x & 0xff;
    let b1 = (x >> 8u32) & 0xff;
    let b2 = (x >> 16u32) & 0xff;
    let b3 = (x >> 24u32) & 0xff;
    assert(b0 + 256 * b1 + 65536 * b2 + 16777216 * b3 == x) by (bit_vector)
        requires b0 == x & 0xff, b1 == (x >> 8u32) & 0xff, b2 == (x >> 16u32) & 0xff, b3 == (x >> 24u32) & 0xff;
    assert(b0 <= 255 && b1 <= 255 && b2 <= 255 && b3 <= 255) by (bit_vector)
        requires b0 == x & 0xff, b1 == (x >> 8u32) & 0xff, b2 == (x >> 16u32) & 0xff, b3 == (x >> 24u32) & 0xff;
}

/// Appends the little-endian bytes of `x`.
pub fn push_le32(dst: &mut Vec<u8>, x: u32)
    ensures
        final(dst)@ == old(dst)@ + le32_bytes(x),
{
    dst.push((x & 0xff) as u8);
    dst.push(((x >> 8u32) & 0xff) as u8);
    dst.push(((x >> 16u32) & 0xff) as u8);
    dst.push(((x >> 24u32) & 0xff) as u8);
    assert(final(dst)@ =~= old(dst)@ + le32_bytes(x));
}

} // verus!
