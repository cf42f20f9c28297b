//! Saving a map: both lumps re-encoded and written back in place.

use vstd::prelude::*;
use crate::bsp::{
    BSPError, LumpView, MapView, PakFile, PakFileView, ParsedMap, bytes_result,
    file_views, slice_range,
};
use crate::directory::record_at;
use crate::encode::{any_dirty, encode_entities, entity_encoding};
use crate::kv::Entity;
use crate::patch::{lemma_patch_unedited, lump_base, patch};
use crate::repack::{any_removed, encode_pak, pak_encoding, same_bytes};

verus! {

/// What saving gives once both lumps are re-encoded: the first error of the
/// two encodings, else what patching the two results in gives.
pub open spec fn assembled(
    m: MapView,
    entity: Result<Seq<u8>, BSPError>,
    pak: Result<Seq<u8>, BSPError>,
) -> Result<Seq<u8>, BSPError> {
    match entity {
        Err(e) => Err(e),
        Ok(entity_data) => match pak {
            Err(e) => Err(e),
            Ok(pak_data) => m.patch_result(entity_data, pak_data),
        },
    }
}

/// `r` is a result of saving the map `m` with the records `entities` and the
/// archive entries `files`: it is assembled of a re-encoding of the entity
/// lump and of the re-encoding of the archive lump.
pub open spec fn is_saved(
    m: MapView,
    entities: Seq<Entity>,
    files: Seq<PakFileView>,
    r: Result<Seq<u8>, BSPError>,
) -> bool {
    exists|entity: Result<Seq<u8>, BSPError>|
        {
            &&& #[trigger] entity_encoding(
                m.entity_base().window(m.buf),
                m.entity_base().four,
                entities,
                entity,
            )
            &&& r == assembled(m, entity, pak_encoding(m.pak_base().window(m.buf), files))
        }
}

/// Saving a map with no record edited and no entry removed gives back the
/// buffer the map was decoded from.
pub proof fn lemma_unedited_save_is_identity(
    m: MapView,
    entities: Seq<Entity>,
    files: Seq<PakFileView>,
    r: Result<Seq<u8>, BSPError>,
)
    requires
        m.wf(),
        !any_dirty(entities),
        !any_removed(files),
        is_saved(m, entities, files, r),
    ensures
        r == Ok::<Seq<u8>, BSPError>(m.buf),
{
    lemma_patch_unedited(m);
}

/// Decoding a buffer and saving the map with the entries as they were decoded
/// and no record edited gives back the buffer.
pub proof fn lemma_decode_then_save(
    buf: Seq<u8>,
    m: MapView,
    entities: Seq<Entity>,
    r: Result<Seq<u8>, BSPError>,
)
    requires
        m.decodes(buf),
        !any_dirty(entities),
        is_saved(m, entities, m.lumps[40]->PakFile_1, r),
    ensures
        r == Ok::<Seq<u8>, BSPError>(buf),
{
    crate::decode::lemma_decoded_is_wf(m, buf);
    crate::decode::lemma_lumps_upto(buf, 64);
    assert(crate::decode::lump_at(buf, 40) == Ok::<LumpView, BSPError>(m.lumps[40]));
    crate::pak::lemma_walk_marks_nothing(record_at(buf, 40).window(buf), 0);
    lemma_unedited_save_is_identity(m, entities, m.lumps[40]->PakFile_1, r);
}

/// Saves a map: re-encodes the entity lump from `entities` and the archive
/// lump from `files`, and writes both into a copy of the map's buffer at the
/// places that the directory gives them.
///
/// The map itself is not changed, and no buffer is returned unless both lumps
/// fit.
pub fn save(map: &ParsedMap, entities: &Vec<Entity>, files: &Vec<PakFile>) -> (r: Result<
    Vec<u8>,
    BSPError,
>)
    requires
        map@.wf(),
    ensures
        is_saved(
            map@,
            entities@,
            file_views(files@),
            bytes_result(r),
        ),
        !any_dirty(entities@) && !any_removed(file_views(files@)) ==> (r matches Ok(v) && v@
            == map.buf@),
{
    assert(map@.lumps[0] == map.lumps@[0]@);
    assert(map@.lumps[40] == map.lumps@[40]@);
    let buf = map.buf.as_slice();
    let entity_base = lump_base(&map.lumps[0]);
    let pak_base = lump_base(&map.lumps[40]);
    let entity_window = entity_base.data(buf).unwrap();
    let pak_window = pak_base.data(buf).unwrap();
    let entity = encode_entities(entity_window, entity_base.four, entities);
    let ghost entity_view = bytes_result(entity);
    let entity_data = match entity {
        Ok(v) => v,
        Err(e) => {
            proof {
                assert(assembled(
                    map@,
                    entity_view,
                    pak_encoding(pak_window@, file_views(files@)),
                ) == Err::<Seq<u8>, BSPError>(e));
            }
            return Err(e);
        },
    };
    let pak = encode_pak(pak_window, files);
    let ghost pak_view = bytes_result(pak);
    let pak_data = match pak {
        Ok(v) => v,
        Err(e) => {
            proof {
                assert(assembled(map@, entity_view, pak_view) == Err::<Seq<u8>, BSPError>(e));
            }
            return Err(e);
        },
    };
    let r = patch(map, entity_data.as_slice(), pak_data.as_slice());
    proof {
        let rv = bytes_result(r);
        assert(rv == assembled(map@, entity_view, pak_view));
        if !any_dirty(entities@) && !any_removed(file_views(files@)) {
            lemma_unedited_save_is_identity(map@, entities@, file_views(files@), rv);
        }
    }
    r
}

/// The entry lies inside `pak` and has the name `name`.
pub open spec fn is_named(f: PakFileView, pak: Seq<u8>, name: Seq<u8>) -> bool {
    f.name.0 + f.name.1 <= pak.len() && f.name_bytes(pak) == name
}

/// `f` marked for removal.
pub open spec fn marked(f: PakFileView) -> PakFileView {
    PakFileView { remove: true, ..f }
}

/// Marks the first entry with the given name for removal and returns its
/// index; `None`, and nothing changed, where no entry has the name. The name
/// is given by its bytes, as it stands in the archive.
pub fn mark_removed(files: &mut Vec<PakFile>, pak: &[u8], name: &[u8]) -> (r: Option<usize>)
    ensures
        match r {
            Some(i) => {
                &&& i < old(files)@.len()
                &&& is_named(old(files)@[i as int]@, pak@, name@)
                &&& forall|k: int| 0 <= k < i ==> !is_named(#[trigger] old(files)@[k]@, pak@, name@)
                &&& file_views(final(files)@) == file_views(old(files)@).update(
                    i as int,
                    marked(old(files)@[i as int]@),
                )
            },
            None => {
                &&& forall|k: int|
                    0 <= k < old(files)@.len() ==> !is_named(
                        #[trigger] old(files)@[k]@,
                        pak@,
                        name@,
                    )
                &&& final(files)@ == old(files)@
            },
        },
{
    let wanted = name;
    let mut i: usize = 0;
    while i < files.len()
        invariant
            i <= files@.len(),
            files@ == old(files)@,
            wanted@ == name@,
            forall|k: int| 0 <= k < i ==> !is_named(#[trigger] files@[k]@, pak@, wanted@),
        decreases files@.len() - i,
    {
        let hit = match slice_range(pak, files[i].name) {
            Some(own) => same_bytes(own, wanted),
            None => false,
        };
        if hit {
            let ghost before = files@;
            let mut f = files[i].clone();
            f.remove = true;
            files.set(i, f);
            assert(file_views(files@) =~= file_views(before).update(i as int, marked(before[i as int]@)));
            return Some(i);
        }
        i += 1;
    }
    None
}

/// The length that lump `i` has once the map is saved: that of the
/// re-encoded lump for the entities and the archive, the size in the
/// directory for the others.
pub open spec fn saved_len(m: MapView, i: int, entity_len: u32, pak_len: u32) -> int {
    if i == 0 {
        entity_len as int
    } else if i == 40 {
        pak_len as int
    } else {
        m.lumps[i].base().size as int
    }
}

/// Where the lump at place `k` of the physical order would start if the
/// lumps were laid out anew, one behind the other, behind the header.
pub open spec fn packed_start(m: MapView, k: int, entity_len: u32, pak_len: u32) -> int
    decreases k,
{
    if k <= 0 {
        0x40C
    } else {
        packed_start(m, k - 1, entity_len, pak_len) + saved_len(
            m,
            m.order[k - 1].0 as int,
            entity_len,
            pak_len,
        )
    }
}

/// The offset that the lump at place `k` of the physical order would get:
/// where it would start, or zero for an empty lump other than the entities
/// and the archive.
pub open spec fn packed_offset(m: MapView, k: int, entity_len: u32, pak_len: u32) -> int {
    let i = m.order[k].0 as int;
    if i != 0 && i != 40 && m.lumps[i].base().size == 0 {
        0
    } else {
        packed_start(m, k, entity_len, pak_len)
    }
}

/// Computes, by lump index, the offsets the lumps would have if they were
/// laid out anew in their physical order behind the header, given the
/// lengths of the two re-encoded lumps.
///
/// The offsets are a projection only: saving writes each lump at the offset
/// it has and leaves the directory as it is.
pub fn prospective_offsets(map: &ParsedMap, entity_len: u32, pak_len: u32) -> (r: Vec<u64>)
    requires
        map@.wf(),
    ensures
        r@.len() == 64,
        forall|k: int|
            0 <= k < 64 ==> r@[(#[trigger] map@.order[k]).0 as int] == packed_offset(
                map@,
                k,
                entity_len,
                pak_len,
            ),
{
    let mut offsets: Vec<u64> = Vec::new();
    let mut n: usize = 0;
    while n < 64
        invariant
            n <= 64,
            offsets@.len() == n,
        decreases 64 - n,
    {
        offsets.push(0);
        n += 1;
    }
    let mut accum: u64 = 0x40C;
    let mut k: usize = 0;
    while k < 64
        invariant
            k <= 64,
            map@.wf(),
            offsets@.len() == 64,
            accum == packed_start(map@, k as int, entity_len, pak_len),
            accum <= 0x40C + k * 0xFFFF_FFFF,
            forall|j: int|
                0 <= j < k ==> offsets@[(#[trigger] map@.order[j]).0 as int] == packed_offset(
                    map@,
                    j,
                    entity_len,
                    pak_len,
                ),
        decreases 64 - k,
    {
        let i = map.order[k].0 as usize;
        assert(map@.order[k as int].0 < 64);
        assert(map@.lumps[i as int] == map.lumps@[i as int]@);
        let size = lump_base(&map.lumps[i]).size;
        let len = if i == 0 {
            entity_len
        } else if i == 40 {
            pak_len
        } else {
            size
        };
        let at = if i != 0 && i != 40 && size == 0 {
            0
        } else {
            accum
        };
        proof {
            assert forall|j: int| 0 <= j < k implies (#[trigger] map@.order[j]).0 as int != i by {
                if map@.order[j].0 as int == i {
                    crate::directory::lemma_listed_once(map@.order, map@.buf, 64, j, k as int);
                }
            }
        }
        offsets.set(i, at);
        accum = accum + len as u64;
        k += 1;
    }
    offsets
}

} // verus!
