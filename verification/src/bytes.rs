//! Big-endian byte encodings of fixed-width integers.

use vstd::prelude::*;

verus! {

/// The four big-endian bytes of `x`.
pub open spec fn u32_be(x: u32) -> Seq<u8> {
    seq![(x >> 24u32) as u8, (x >> 16u32) as u8, (x >> 8u32) as u8, x as u8]
}

/// The eight big-endian bytes of `x`.
pub open spec fn u64_be(x: u64) -> Seq<u8> {
    seq![
        (x >> 56u64) as u8,
        (x >> 48u64) as u8,
        (x >> 40u64) as u8,
        (x >> 32u64) as u8,
        (x >> 24u64) as u8,
        (x >> 16u64) as u8,
        (x >> 8u64) as u8,
        x as u8,
    ]
}

/// Byte `i` (counted from the most significant end) of the sixteen
/// big-endian bytes of `x`.
pub open spec fn u128_be_byte(x: u128, i: int) -> u8 {
    (x >> ((8 * (15 - i)) as u128)) as u8
}

/// The sixteen big-endian bytes of `x`.
pub open spec fn u128_be(x: u128) -> Seq<u8> {
    Seq::new(16, |i: int| u128_be_byte(x, i))
}

/// The `u32` whose big-endian bytes are the first four of `s`.
pub open spec fn be_u32_prefix(s: Seq<u8>) -> u32 {
    ((s[0] as u32) << 24u32) | ((s[1] as u32) << 16u32) | ((s[2] as u32) << 8u32) | (s[3] as u32)
}

/// The `u64` whose big-endian bytes are the first eight of `s`.
pub open spec fn be_u64_prefix(s: Seq<u8>) -> u64 {
    ((s[0] as u64) << 56u64) | ((s[1] as u64) << 48u64) | ((s[2] as u64) << 40u64) | ((
    s[3] as u64) << 32u64) | ((s[4] as u64) << 24u64) | ((s[5] as u64) << 16u64) | ((
    s[6] as u64) << 8u64) | (s[7] as u64)
}

/// The big-endian bytes of `x`, as `u32::to_be_bytes` gives them.
pub fn u32_to_be_bytes(x: u32) -> (out: Vec<u8>)
    ensures
        out@ == u32_be(x),
{
    let mut out: Vec<u8> = Vec::new();
    out.push((x >> 24u32) as u8);
    out.push((x >> 16u32) as u8);
    out.push((x >> 8u32) as u8);
    out.push(x as u8);
    out
}

/// The big-endian bytes of `x`, as `u64::to_be_bytes` gives them.
pub fn u64_to_be_bytes(x: u64) -> (out: Vec<u8>)
    ensures
        out@ == u64_be(x),
{
    let mut out: Vec<u8> = Vec::new();
    out.push((x >> 56u64) as u8);
    out.push((x >> 48u64) as u8);
    out.push((x >> 40u64) as u8);
    out.push((x >> 32u64) as u8);
    out.push((x >> 24u64) as u8);
    out.push((x >> 16u64) as u8);
    out.push((x >> 8u64) as u8);
    out.push(x as u8);
    out
}

/// The big-endian bytes of `x`, as `u128::to_be_bytes` gives them.
pub fn u128_to_be_bytes(x: u128) -> (out: Vec<u8>)
    ensures
        out@ == u128_be(x),
{
    let mut out: Vec<u8> = Vec::new();
    let mut i: u32 = 0;
    while i < 16
        invariant
            i <= 16,
            out@.len() == i,
            forall|j: int| 0 <= j < i ==> out@[j] == u128_be_byte(x, j),
        decreases 16 - i,
    {
        let shift: u32 = 8 * (15 - i);
        out.push((x >> shift) as u8);
        i = i + 1;
    }
    assert(out@ =~= u128_be(x));
    out
}

/// The `u32` read big-endian from the first four bytes of `s`, as
/// `u32::from_be_bytes` reads them.
pub fn be_u32_from_prefix(s: &[u8]) -> (x: u32)
    requires
        s@.len() >= 4,
    ensures
        x == be_u32_prefix(s@),
{
    ((s[0] as u32) << 24u32) | ((s[1] as u32) << 16u32) | ((s[2] as u32) << 8u32) | (s[3] as u32)
}

/// The `u64` read big-endian from the first eight bytes of `s`, as
/// `u64::from_be_bytes` reads them.
pub fn be_u64_from_prefix(s: &[u8]) -> (x: u64)
    requires
        s@.len() >= 8,
    ensures
        x == be_u64_prefix(s@),
{
    ((s[0] as u64) << 56u64) | ((s[1] as u64) << 48u64) | ((s[2] as u64) << 40u64) | ((
    s[3] as u64) << 32u64) | ((s[4] as u64) << 24u64) | ((s[5] as u64) << 16u64) | ((
    s[6] as u64) << 8u64) | (s[7] as u64)
}

} // verus!
