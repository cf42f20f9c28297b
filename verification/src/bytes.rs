//! Bounds-checked little-endian field reads and writes.

use vstd::prelude::*;

verus! {

/// The 16-bit value that two bytes spell, least significant byte first.
pub open spec fn le16(b0: u8, b1: u8) -> int {
    b0 as int + 256 * (b1 as int)
}

/// The 32-bit value that four bytes spell, least significant byte first.
pub open spec fn le32(b0: u8, b1: u8, b2: u8, b3: u8) -> int {
    b0 as int + 256 * (b1 as int) + 65536 * (b2 as int) + 16777216 * (b3 as int)
}

/// The little-endian `u16` stored at `at` in `s`.
pub open spec fn u16_at(s: Seq<u8>, at: int) -> int
    recommends
        0 <= at,
        at + 2 <= s.len(),
{
    le16(s[at], s[at + 1])
}

/// The little-endian `u32` stored at `at` in `s`.
pub open spec fn u32_at(s: Seq<u8>, at: int) -> int
    recommends
        0 <= at,
        at + 4 <= s.len(),
{
    le32(s[at], s[at + 1], s[at + 2], s[at + 3])
}

/// The little-endian `u64` stored at `at` in `s`.
pub open spec fn u64_at(s: Seq<u8>, at: int) -> int
    recommends
        0 <= at,
        at + 8 <= s.len(),
{
    u32_at(s, at) + 0x1_0000_0000 * u32_at(s, at + 4)
}

/// The four bytes that spell `v`, least significant byte first.
pub open spec fn u32_bytes(v: int) -> Seq<u8>
    recommends
        0 <= v < 0x1_0000_0000,
{
    seq![
        (v % 256) as u8,
        ((v / 256) % 256) as u8,
        ((v / 65536) % 256) as u8,
        ((v / 16777216) % 256) as u8,
    ]
}

/// Reading back what `u32_bytes` wrote gives the value again.
pub proof fn lemma_u32_bytes_round_trip(v: int)
    requires
        0 <= v < 0x1_0000_0000,
    ensures
        u32_bytes(v).len() == 4,
        u32_at(u32_bytes(v), 0) == v,
{
}

/// Reads a little-endian `u16` at `at`, or `None` when the two bytes do not
/// lie inside `buf`.
pub fn read_u16(buf: &[u8], at: usize) -> (r: Option<u16>)
    ensures
        r is Some <==> at + 2 <= buf@.len(),
        r matches Some(v) ==> v as int == u16_at(buf@, at as int),
{
    if buf.len() < 2 || at > buf.len() - 2 {
        return None;
    }
    let b0: u16 = buf[at] as u16;
    let b1: u16 = buf[at + 1] as u16;
    Some(b0 + 256 * b1)
}

/// Reads a little-endian `u32` at `at`, or `None` when the four bytes do not
/// lie inside `buf`.
pub fn read_u32(buf: &[u8], at: usize) -> (r: Option<u32>)
    ensures
        r is Some <==> at + 4 <= buf@.len(),
        r matches Some(v) ==> v as int == u32_at(buf@, at as int),
{
    if buf.len() < 4 || at > buf.len() - 4 {
        return None;
    }
    let b0: u32 = buf[at] as u32;
    let b1: u32 = buf[at + 1] as u32;
    let b2: u32 = buf[at + 2] as u32;
    let b3: u32 = buf[at + 3] as u32;
    Some(b0 + 256 * b1 + 65536 * b2 + 16777216 * b3)
}

/// Appends the four little-endian bytes of `v` to `out`.
pub fn push_u32(out: &mut Vec<u8>, v: u32)
    ensures
        final(out)@ == old(out)@ + u32_bytes(v as int),
{
    let ghost before = out@;
    out.push((v % 256) as u8);
    out.push(((v / 256) % 256) as u8);
    out.push(((v / 65536) % 256) as u8);
    out.push(((v / 16777216) % 256) as u8);
    assert(out@ =~= before + u32_bytes(v as int));
}

} // verus!
