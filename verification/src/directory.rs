//! Decoder for the fixed header: the magic, the version, the 64 records of
//! the lump directory, the iteration counter, and the order in which the
//! lumps lie in the file.

use vstd::prelude::*;
use crate::bsp::{BSPError, BasicLump};
use crate::bytes::{read_u32, u32_at};

verus! {

/// The container tag `VBSP`, read as a little-endian `u32`.
pub const MAGIC: u32 = 0x5053_4256;

/// Length of the fixed header: the magic, the version, the directory and the
/// iteration counter.
pub const HEADER_LEN: usize = 0x40C;

/// The version is one that this crate decodes.
pub open spec fn version_supported(v: int) -> bool {
    v == 19 || v == 20 || v == 21
}

/// The error in the fixed header of `buf`, if there is one.
///
/// The magic is looked at first, then the version, and only then whether the
/// whole header is there.
pub open spec fn header_error(buf: Seq<u8>) -> Option<BSPError> {
    if buf.len() < 4 {
        Some(BSPError::TruncatedHeader(buf.len() as u32))
    } else if u32_at(buf, 0) != 0x5053_4256 {
        Some(BSPError::InvalidHeader(u32_at(buf, 0) as u32))
    } else if buf.len() < 8 {
        Some(BSPError::TruncatedHeader(buf.len() as u32))
    } else if !version_supported(u32_at(buf, 4)) {
        Some(BSPError::InvalidVersion(u32_at(buf, 4) as u32))
    } else if buf.len() < 0x40C {
        Some(BSPError::TruncatedHeader(buf.len() as u32))
    } else {
        None
    }
}

/// Record `i` of the lump directory of `buf`.
pub open spec fn record_at(buf: Seq<u8>, i: int) -> BasicLump
    recommends
        0 <= i < 64,
        buf.len() >= 0x40C,
{
    BasicLump {
        offset: u32_at(buf, 8 + 16 * i) as u32,
        size: u32_at(buf, 8 + 16 * i + 4) as u32,
        version: u32_at(buf, 8 + 16 * i + 8) as u32,
        four: u32_at(buf, 8 + 16 * i + 12) as u32,
    }
}

/// Checks the magic and the version of `buf` and that the whole fixed header
/// is there; returns the version.
pub fn read_header(buf: &[u8]) -> (r: Result<u32, BSPError>)
    ensures
        match r {
            Ok(v) => header_error(buf@) is None && v == u32_at(buf@, 4),
            Err(e) => header_error(buf@) == Some(e),
        },
{
    let len = buf.len();
    let magic = match read_u32(buf, 0) {
        Some(m) => m,
        None => {
            return Err(BSPError::TruncatedHeader(len as u32));
        },
    };
    if magic != MAGIC {
        return Err(BSPError::InvalidHeader(magic));
    }
    let version = match read_u32(buf, 4) {
        Some(v) => v,
        None => {
            return Err(BSPError::TruncatedHeader(len as u32));
        },
    };
    if version != 19 && version != 20 && version != 21 {
        return Err(BSPError::InvalidVersion(version));
    }
    if len < HEADER_LEN {
        return Err(BSPError::TruncatedHeader(len as u32));
    }
    Ok(version)
}

/// Reads record `i` of the lump directory.
pub fn read_record(buf: &[u8], i: usize) -> (r: BasicLump)
    requires
        i < 64,
        buf@.len() >= 0x40C,
    ensures
        r == record_at(buf@, i as int),
{
    let at = 8 + 16 * i;
    BasicLump {
        offset: read_u32(buf, at).unwrap(),
        size: read_u32(buf, at + 4).unwrap(),
        version: read_u32(buf, at + 8).unwrap(),
        four: read_u32(buf, at + 12).unwrap(),
    }
}

/// `a` lies before `b` in the file: by offset, and by index where two lumps
/// have the same offset.
pub open spec fn lies_before(a: (u8, u32), b: (u8, u32)) -> bool {
    a.1 < b.1 || (a.1 == b.1 && a.0 < b.0)
}

/// The lump with index `i` occurs in `order`.
pub open spec fn lists(order: Seq<(u8, u32)>, i: int) -> bool {
    exists|k: int| 0 <= k < order.len() && (#[trigger] order[k]).0 == i
}

/// `order` lists the first `n` records of the directory of `buf`, each with
/// its offset, in the order in which they lie in the file.
pub open spec fn is_physical_order(order: Seq<(u8, u32)>, buf: Seq<u8>, n: int) -> bool {
    &&& order.len() == n
    &&& forall|k: int|
        0 <= k < n ==> (#[trigger] order[k]).0 < n && order[k].1 == record_at(
            buf,
            order[k].0 as int,
        ).offset
    &&& forall|j: int, k: int| 0 <= j < k < n ==> lies_before(#[trigger] order[j], #[trigger] order[k])
    &&& forall|i: int| 0 <= i < n ==> #[trigger] lists(order, i)
}

/// Of two lumps the one with the smaller offset is listed first.
pub proof fn lemma_smaller_offset_comes_first(order: Seq<(u8, u32)>, buf: Seq<u8>, a: int, b: int)
    requires
        is_physical_order(order, buf, 64),
        0 <= a < 64,
        0 <= b < 64,
        record_at(buf, a).offset < record_at(buf, b).offset,
    ensures
        exists|j: int, k: int|
            0 <= j < k < 64 && (#[trigger] order[j]).0 == a && (#[trigger] order[k]).0 == b,
{
    assert(lists(order, a));
    assert(lists(order, b));
    let j = choose|j: int| 0 <= j < order.len() && (#[trigger] order[j]).0 == a;
    let k = choose|k: int| 0 <= k < order.len() && (#[trigger] order[k]).0 == b;
    if k < j {
        assert(lies_before(order[k], order[j]));
    }
    assert(order[j].1 == record_at(buf, a).offset);
    assert(order[k].1 == record_at(buf, b).offset);
}

/// Each lump is listed once.
pub proof fn lemma_listed_once(order: Seq<(u8, u32)>, buf: Seq<u8>, n: int, j: int, k: int)
    requires
        is_physical_order(order, buf, n),
        0 <= j < n,
        0 <= k < n,
        order[j].0 == order[k].0,
    ensures
        j == k,
{
    if j < k {
        assert(lies_before(order[j], order[k]));
    } else if k < j {
        assert(lies_before(order[k], order[j]));
    }
}

/// Two physical orders of the same directory agree up to place `k`.
proof fn lemma_orders_agree(o1: Seq<(u8, u32)>, o2: Seq<(u8, u32)>, buf: Seq<u8>, n: int, k: int)
    requires
        is_physical_order(o1, buf, n),
        is_physical_order(o2, buf, n),
        0 <= k < n,
    ensures
        o1[k] == o2[k],
    decreases k,
{
    // everything before `k` agrees
    assert forall|j: int| 0 <= j < k implies o1[j] == o2[j] by {
        lemma_orders_agree(o1, o2, buf, n, j);
    }
    lemma_not_earlier(o1, o2, buf, n, k);
    lemma_not_earlier(o2, o1, buf, n, k);
    let a = o1[k];
    let b = o2[k];
    assert(a.0 < n && b.0 < n);
    assert(!lies_before(a, b) && !lies_before(b, a));
    assert(a.1 == b.1 && a.0 == b.0);
}

/// If two physical orders agree before place `k`, the lump that the second
/// has at `k` does not lie after the lump that the first has there.
proof fn lemma_not_earlier(o1: Seq<(u8, u32)>, o2: Seq<(u8, u32)>, buf: Seq<u8>, n: int, k: int)
    requires
        is_physical_order(o1, buf, n),
        is_physical_order(o2, buf, n),
        0 <= k < n,
        forall|j: int| 0 <= j < k ==> o1[j] == o2[j],
    ensures
        !lies_before(o1[k], o2[k]),
{
    // the lump that `o1` has at `k` stands somewhere in `o2`, and not before `k`
    let i = o1[k].0 as int;
    assert(lists(o2, i));
    let p = choose|p: int| 0 <= p < o2.len() && (#[trigger] o2[p]).0 == i;
    assert(o2[p].1 == record_at(buf, i).offset);
    assert(o2[p] == o1[k]);
    if p < k {
        assert(o1[p] == o2[p]);
        assert(lies_before(o1[p], o1[k]));
    } else if p > k {
        assert(lies_before(o2[k], o2[p]));
    }
}

/// A directory has one physical order only.
pub proof fn lemma_physical_order_is_unique(o1: Seq<(u8, u32)>, o2: Seq<(u8, u32)>, buf: Seq<u8>, n: int)
    requires
        is_physical_order(o1, buf, n),
        is_physical_order(o2, buf, n),
    ensures
        o1 == o2,
{
    assert forall|k: int| 0 <= k < n implies o1[k] == o2[k] by {
        lemma_orders_agree(o1, o2, buf, n, k);
    }
    assert(o1 =~= o2);
}

/// Tells whether `a` lies before `b` in the file.
pub fn before(a: (u8, u32), b: (u8, u32)) -> (r: bool)
    ensures
        r == lies_before(a, b),
{
    a.1 < b.1 || (a.1 == b.1 && a.0 < b.0)
}

/// Lists the 64 lumps of the directory of `buf` with their offsets, in the
/// order in which they lie in the file.
pub fn physical_order(buf: &[u8]) -> (order: Vec<(u8, u32)>)
    requires
        buf@.len() >= 0x40C,
    ensures
        is_physical_order(order@, buf@, 64),
{
    let mut order: Vec<(u8, u32)> = Vec::new();
    let mut i: usize = 0;
    while i < 64
        invariant
            i <= 64,
            buf@.len() >= 0x40C,
            is_physical_order(order@, buf@, i as int),
        decreases 64 - i,
    {
        let x: (u8, u32) = (i as u8, read_record(buf, i).offset);
        let mut pos: usize = 0;
        while pos < order.len() && before(order[pos], x)
            invariant
                pos <= order@.len(),
                forall|j: int| 0 <= j < pos ==> lies_before(#[trigger] order@[j], x),
            decreases order@.len() - pos,
        {
            pos += 1;
        }
        let ghost prev = order@;
        order.insert(pos, x);
        proof {
            let cur = order@;
            assert(cur == prev.insert(pos as int, x));
            assert forall|k: int| 0 <= k < i + 1 implies (#[trigger] cur[k]).0 < i + 1 && cur[k].1
                == record_at(buf@, cur[k].0 as int).offset by {
                if k < pos {
                    assert(cur[k] == prev[k]);
                } else if k > pos {
                    assert(cur[k] == prev[k - 1]);
                }
            }
            assert forall|j: int, k: int| 0 <= j < k < i + 1 implies lies_before(
                #[trigger] cur[j],
                #[trigger] cur[k],
            ) by {
                let a = if j < pos { prev[j] } else if j == pos { x } else { prev[j - 1] };
                let b = if k < pos { prev[k] } else if k == pos { x } else { prev[k - 1] };
                assert(cur[j] == a);
                assert(cur[k] == b);
                if k == pos {
                } else if j == pos {
                    // everything from `pos` on does not lie before `x`, and has a smaller index
                    assert(prev[k - 1].0 < i);
                    if pos as int == k - 1 {
                    } else {
                        assert(lies_before(prev[pos as int], prev[k - 1]));
                    }
                } else {
                }
            }
            assert forall|t: int| 0 <= t < i + 1 implies #[trigger] lists(cur, t) by {
                if t == i {
                    assert(cur[pos as int].0 == t);
                } else {
                    assert(lists(prev, t));
                    let k0 = choose|k: int| 0 <= k < prev.len() && (#[trigger] prev[k]).0 == t;
                    if k0 < pos {
                        assert(cur[k0] == prev[k0]);
                    } else {
                        assert(cur[k0 + 1] == prev[k0]);
                    }
                }
            }
        }
        i += 1;
    }
    order
}

} // verus!
