//! Little-endian integers in byte vectors.
use vstd::prelude::*;
use crate::sheet::v1::format::{get_le16, get_le32, le16, le32};

verus! {

broadcast use crate::sheet::v1::format::group_le_lengths;

/// Appends the little-endian bytes of `x`.
pub fn push_le32(out: &mut Vec<u8>, x: u32)
    ensures
        final(out)@ == old(out)@ + le32(x as int),
{
    proof {
        reveal(le32);
        reveal(le16);
    }
    out.push((x % 256) as u8);
    out.push(((x / 0x100) % 256) as u8);
    out.push(((x / 0x10000) % 256) as u8);
    out.push(((x / 0x1000000) % 256) as u8);
    assert(out@ =~= old(out)@ + le32(x as int));
}

/// Appends the little-endian bytes of `x`.
pub fn push_le16(out: &mut Vec<u8>, x: u16)
    ensures
        final(out)@ == old(out)@ + le16(x as int),
{
    proof {
        reveal(le32);
        reveal(le16);
    }
    out.push((x % 256) as u8);
    out.push(((x / 0x100) % 256) as u8);
    assert(out@ =~= old(out)@ + le16(x as int));
}

/// The little-endian `u32` at `b[p..p + 4]`.
pub fn read_le32(b: &[u8], p: usize) -> (r: u32)
    requires
        p + 4 <= b@.len(),
    ensures
        r as int == get_le32(b@, p as int),
{
    (b[p] as u32) + (b[p + 1] as u32) * 0x100 + (b[p + 2] as u32) * 0x10000 + (b[p + 3] as u32)
        * 0x1000000
}

/// The little-endian `u16` at `b[p..p + 2]`.
pub fn read_le16(b: &[u8], p: usize) -> (r: u16)
    requires
        p + 2 <= b@.len(),
    ensures
        r as int == get_le16(b@, p as int),
{
    (b[p] as u16) + (b[p + 1] as u16) * 0x100
}

/// The value modulo 2^32 from its four low bytes.
pub proof fn lemma_four_bytes(v: int)
    requires
        0 <= v,
    ensures
        v % 0x1_0000_0000 == v % 256 + ((v / 0x100) % 256) * 0x100 + ((v / 0x10000) % 256)
            * 0x10000 + ((v / 0x1000000) % 256) * 0x1000000,
{
    vstd::arithmetic::div_mod::lemma_mod_breakdown(v, 256, 0x1000000);
    vstd::arithmetic::div_mod::lemma_div_pos_is_pos(v, 256);
    vstd::arithmetic::div_mod::lemma_mod_breakdown(v / 256, 256, 0x10000);
    vstd::arithmetic::div_mod::lemma_div_pos_is_pos(v / 256, 256);
    vstd::arithmetic::div_mod::lemma_mod_breakdown(v / 256 / 256, 256, 0x100);
    vstd::arithmetic::div_mod::lemma_div_denominator(v, 256, 256);
    vstd::arithmetic::div_mod::lemma_div_denominator(v, 0x10000, 256);
    vstd::arithmetic::div_mod::lemma_div_pos_is_pos(v / 0x10000, 256);
    assert(v / 256 / 256 / 256 == v / 0x1000000) by {
        vstd::arithmetic::div_mod::lemma_div_denominator(v / 256, 256, 256);
        vstd::arithmetic::div_mod::lemma_div_denominator(v, 256, 0x10000);
    }
}

/// Reading back little-endian bytes gives the value modulo 2^32.
pub proof fn lemma_le32_roundtrip(v: int, s: Seq<u8>, p: int)
    requires
        0 <= v,
        0 <= p,
        p + 4 <= s.len(),
        s.subrange(p, p + 4) == le32(v),
    ensures
        get_le32(s, p) == v % 0x1_0000_0000,
{
    reveal(le32);
    reveal(le16);
    assert(s[p] == le32(v)[0]);
    assert(s[p + 1] == le32(v)[1]);
    assert(s[p + 2] == le32(v)[2]);
    assert(s[p + 3] == le32(v)[3]);
    lemma_four_bytes(v);
}

/// Reading back little-endian bytes gives the value modulo 2^16.
pub proof fn lemma_le16_roundtrip(v: int, s: Seq<u8>, p: int)
    requires
        0 <= v,
        0 <= p,
        p + 2 <= s.len(),
        s.subrange(p, p + 2) == le16(v),
    ensures
        get_le16(s, p) == v % 0x10000,
{
    reveal(le32);
    reveal(le16);
    assert(s[p] == le16(v)[0]);
    assert(s[p + 1] == le16(v)[1]);
    vstd::arithmetic::div_mod::lemma_mod_breakdown(v, 256, 256);
}

} // verus!

verus! {

/// Dividing a remainder by a factor of the modulus.
pub proof fn lemma_div_of_mod(x: int, a: int, b: int)
    requires
        0 <= x,
        0 < a,
        0 < b,
    ensures
        (x % (a * b)) / a == (x / a) % b,
{
    vstd::arithmetic::div_mod::lemma_mod_breakdown(x, a, b);
    let q = (x / a) % b;
    let r = x % a;
    assert(0 <= r < a);
    assert((a * q + r) / a == q) by (nonlinear_arith)
        requires
            0 <= r < a,
            0 < a,
    {
        vstd::arithmetic::div_mod::lemma_fundamental_div_mod_converse(a * q + r, a, q, r);
    }
}

/// Little-endian bytes only depend on the value modulo 2^32.
pub proof fn lemma_le32_mod(v: int)
    requires
        0 <= v,
    ensures
        le32(v % 0x1_0000_0000) == le32(v),
{
    reveal(le32);
    reveal(le16);
    let m = v % 0x1_0000_0000;
    vstd::arithmetic::div_mod::lemma_mod_mod(v, 256, 0x1000000);
    lemma_div_of_mod(v, 0x100, 0x1000000);
    vstd::arithmetic::div_mod::lemma_mod_mod(v / 0x100, 256, 0x10000);
    lemma_div_of_mod(v, 0x10000, 0x10000);
    vstd::arithmetic::div_mod::lemma_mod_mod(v / 0x10000, 256, 0x100);
    lemma_div_of_mod(v, 0x1000000, 0x100);
    assert(le32(m) =~= le32(v));
}

/// Little-endian bytes only depend on the value modulo 2^16.
pub proof fn lemma_le16_mod(v: int)
    requires
        0 <= v,
    ensures
        le16(v % 0x10000) == le16(v),
{
    reveal(le32);
    reveal(le16);
    vstd::arithmetic::div_mod::lemma_mod_mod(v, 256, 0x100);
    lemma_div_of_mod(v, 0x100, 0x100);
    assert(le16(v % 0x10000) =~= le16(v));
}

} // verus!
