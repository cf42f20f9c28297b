//! Writing re-encoded lumps back into the byte ranges that the lumps have in
//! the buffer.

use vstd::prelude::*;
use crate::bsp::{BSPError, BSPLump, BasicLump, MapView, ParsedMap};

verus! {

/// `buf` with the range of the lump `base` overwritten: `data` at its start,
/// zeros up to its end.
pub open spec fn overwritten(buf: Seq<u8>, base: BasicLump, data: Seq<u8>) -> Seq<u8>
    recommends
        base.fits(buf.len()),
        data.len() <= base.size,
{
    Seq::new(
        buf.len(),
        |i: int|
            if base.offset <= i < base.offset + data.len() {
                data[i - base.offset]
            } else if base.offset + data.len() <= i < base.offset + base.size {
                0u8
            } else {
                buf[i]
            },
    )
}

/// Overwrites the range of the lump `base` in `buf` with `data`, and fills
/// what is left of the range with zeros.
pub fn write_lump(buf: &mut Vec<u8>, base: BasicLump, data: &[u8])
    requires
        base.fits(old(buf)@.len()),
        data@.len() <= base.size,
    ensures
        final(buf)@ == overwritten(old(buf)@, base, data@),
{
    let ghost before = buf@;
    let start = base.offset as usize;
    let size = base.size as usize;
    let n = data.len();
    let total = buf.len();
    let mut i: usize = 0;
    while i < size
        invariant
            i <= size,
            total == before.len(),
            n == data@.len(),
            n <= size,
            start == base.offset,
            size == base.size,
            start + size <= before.len(),
            buf@.len() == before.len(),
            forall|k: int|
                0 <= k < buf@.len() ==> #[trigger] buf@[k] == if start <= k < start + i {
                    overwritten(before, base, data@)[k]
                } else {
                    before[k]
                },
        decreases size - i,
    {
        let v = if i < n {
            data[i]
        } else {
            0u8
        };
        buf.set(start + i, v);
        i += 1;
    }
    assert(buf@ =~= overwritten(before, base, data@));
}

impl MapView {
    /// The directory record of the entity lump.
    pub open spec fn entity_base(&self) -> BasicLump {
        self.lumps[0].base()
    }

    /// The directory record of the archive lump.
    pub open spec fn pak_base(&self) -> BasicLump {
        self.lumps[40].base()
    }

    /// The buffer of the map with both lumps overwritten: first the entity
    /// lump, then the archive lump.
    pub open spec fn patched(&self, entity_data: Seq<u8>, pak_data: Seq<u8>) -> Seq<u8> {
        overwritten(
            overwritten(self.buf, self.entity_base(), entity_data),
            self.pak_base(),
            pak_data,
        )
    }

    /// What patching gives: the error of the first lump that is larger than
    /// its range in the buffer, else the patched buffer.
    pub open spec fn patch_result(&self, entity_data: Seq<u8>, pak_data: Seq<u8>) -> Result<
        Seq<u8>,
        BSPError,
    > {
        if entity_data.len() > self.entity_base().size {
            Err(BSPError::LumpOverflow(0))
        } else if pak_data.len() > self.pak_base().size {
            Err(BSPError::LumpOverflow(40))
        } else {
            Ok(self.patched(entity_data, pak_data))
        }
    }
}

/// The directory record behind a slot.
pub fn lump_base(lump: &BSPLump) -> (r: BasicLump)
    ensures
        r == lump@.base(),
{
    match lump {
        BSPLump::Entities(e) => e.base,
        BSPLump::PakFile(p) => p.base,
        BSPLump::Unknown(b) => *b,
        BSPLump::Empty => BasicLump { offset: 0, size: 0, version: 0, four: 0 },
    }
}

/// Writes the re-encoded entity lump and archive lump into a copy of the
/// map's buffer, each at the offset that the directory gives and filled up
/// with zeros to the size that the directory gives.
///
/// Fails, and writes nothing, where one of them is larger than that size; a
/// lump of exactly that size is written. Nothing outside the two
/// ranges changes, the directory included.
pub fn patch(map: &ParsedMap, entity_data: &[u8], pak_data: &[u8]) -> (r: Result<Vec<u8>, BSPError>)
    requires
        map@.wf(),
    ensures
        match r {
            Ok(v) => map@.patch_result(entity_data@, pak_data@) == Ok::<Seq<u8>, BSPError>(v@),
            Err(e) => map@.patch_result(entity_data@, pak_data@) == Err::<Seq<u8>, BSPError>(e),
        },
{
    assert(map@.lumps[0] == map.lumps@[0]@);
    assert(map@.lumps[40] == map.lumps@[40]@);
    let entity_base = lump_base(&map.lumps[0]);
    let pak_base = lump_base(&map.lumps[40]);
    if entity_data.len() > entity_base.size as usize {
        return Err(BSPError::LumpOverflow(0));
    }
    if pak_data.len() > pak_base.size as usize {
        return Err(BSPError::LumpOverflow(40));
    }
    let mut buf = vstd::slice::slice_to_vec(map.buf.as_slice());
    write_lump(&mut buf, entity_base, entity_data);
    write_lump(&mut buf, pak_base, pak_data);
    Ok(buf)
}

/// Patching fails where the entity lump is at least one byte larger than the
/// size in the directory, and succeeds where it is of that size (and the archive
/// fits).
pub proof fn lemma_patch_size_rule(m: MapView, entity_data: Seq<u8>, pak_data: Seq<u8>)
    ensures
        entity_data.len() >= m.entity_base().size + 1 ==> m.patch_result(entity_data, pak_data)
            == Err::<Seq<u8>, BSPError>(BSPError::LumpOverflow(0)),
        entity_data.len() == m.entity_base().size && pak_data.len() <= m.pak_base().size
            ==> m.patch_result(entity_data, pak_data) is Ok,
        m.patch_result(entity_data, pak_data) is Ok <==> entity_data.len() <= m.entity_base().size
            && pak_data.len() <= m.pak_base().size,
{
}

/// `data` filled up with zeros to `size` bytes.
pub open spec fn padded(data: Seq<u8>, size: int) -> Seq<u8>
    recommends
        data.len() <= size,
{
    Seq::new(size as nat, |i: int| if i < data.len() { data[i] } else { 0u8 })
}

/// The two lumps do not share a byte.
pub open spec fn lumps_apart(a: BasicLump, b: BasicLump) -> bool {
    a.offset + a.size <= b.offset || b.offset + b.size <= a.offset
}

/// After patching, the range of the archive lump holds the new archive and
/// zeros behind it; the range of the entity lump holds the new entity data
/// and zeros behind it where the two lumps do not share a byte. Where they
/// do, the archive is written last and stands.
pub proof fn lemma_patched_ranges(m: MapView, entity_data: Seq<u8>, pak_data: Seq<u8>)
    requires
        m.wf(),
        entity_data.len() <= m.entity_base().size,
        pak_data.len() <= m.pak_base().size,
    ensures
        m.pak_base().window(m.patched(entity_data, pak_data)) == padded(
            pak_data,
            m.pak_base().size as int,
        ),
        lumps_apart(m.entity_base(), m.pak_base()) ==> m.entity_base().window(
            m.patched(entity_data, pak_data),
        ) == padded(entity_data, m.entity_base().size as int),
{
    let out = m.patched(entity_data, pak_data);
    assert(m.pak_base().window(out) =~= padded(pak_data, m.pak_base().size as int));
    if lumps_apart(m.entity_base(), m.pak_base()) {
        assert(m.entity_base().window(out) =~= padded(entity_data, m.entity_base().size as int));
    }
}

/// Overwriting a lump with its own bytes changes nothing.
pub proof fn lemma_overwrite_with_own_bytes(buf: Seq<u8>, base: BasicLump)
    requires
        base.fits(buf.len()),
    ensures
        overwritten(buf, base, base.window(buf)) == buf,
{
    assert(overwritten(buf, base, base.window(buf)) =~= buf);
}

/// Patching a map with the bytes its two lumps already hold gives back the
/// buffer it was decoded from.
pub proof fn lemma_patch_unedited(m: MapView)
    requires
        m.wf(),
    ensures
        m.patch_result(m.entity_base().window(m.buf), m.pak_base().window(m.buf)) == Ok::<
            Seq<u8>,
            BSPError,
        >(m.buf),
{
    lemma_overwrite_with_own_bytes(m.buf, m.entity_base());
    lemma_overwrite_with_own_bytes(m.buf, m.pak_base());
}

/// Patching leaves every byte outside the two lumps as it was, and with them
/// the header and the directory where the lumps lie behind the header.
pub proof fn lemma_patch_keeps_the_rest(m: MapView, entity_data: Seq<u8>, pak_data: Seq<u8>, i: int)
    requires
        m.wf(),
        0 <= i < m.buf.len(),
        !(m.entity_base().offset <= i < m.entity_base().offset + m.entity_base().size),
        !(m.pak_base().offset <= i < m.pak_base().offset + m.pak_base().size),
        entity_data.len() <= m.entity_base().size,
        pak_data.len() <= m.pak_base().size,
    ensures
        m.patched(entity_data, pak_data).len() == m.buf.len(),
        m.patched(entity_data, pak_data)[i] == m.buf[i],
{
}

} // verus!
