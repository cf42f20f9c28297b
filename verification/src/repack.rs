//! Re-encoding the archive lump without the entries that are marked for
//! removal.

use vstd::prelude::*;
use vstd::utf8::{decode_utf8, valid_utf8};
use crate::archive::{
    FILE_LIMIT, StoreWriter, is_open, stored_archive, writer_finish, writer_new,
    writer_start_file, writer_write_all, written,
};
use crate::bsp::{BSPError, PakAlgo, PakFile, PakFileView, file_views, slice_range};
use crate::bytes::{read_u16, read_u32, u16_at, u32_at, u32_bytes};
use crate::pak::has_signature;

verus! {

/// The entry is kept and was stored compressed.
pub open spec fn is_lzma_kept(f: PakFileView) -> bool {
    !f.remove && f.compression_algo is LZMA
}

/// The decompressed size of a compressed entry: the length of the bytes it
/// holds decompressed, or what its header declared where it holds none.
pub open spec fn unpacked_size(f: PakFileView) -> int {
    match f.real_data {
        Some(d) => d.len() as int,
        None => match f.compression_algo {
            PakAlgo::LZMA(_, size) => size as int,
            PakAlgo::Store => f.data.1 as int,
        },
    }
}

/// The entry is a kept compressed entry with the name `name`.
pub open spec fn restores(f: PakFileView, pak: Seq<u8>, name: Seq<u8>) -> bool {
    is_lzma_kept(f) && f.name.0 + f.name.1 <= pak.len() && f.name_bytes(pak) == name
}

/// The decompressed size to write into the header of the entry named `name`:
/// that of the last of the first `n` entries that is kept, compressed and has
/// this name, if there is one.
pub open spec fn restored_size(files: Seq<PakFileView>, pak: Seq<u8>, name: Seq<u8>, n: int) -> Option<
    int,
>
    decreases n,
{
    if n <= 0 {
        None
    } else if restores(files[n - 1], pak, name) {
        Some(unpacked_size(files[n - 1]))
    } else {
        restored_size(files, pak, name, n - 1)
    }
}

/// The header at `p` with the method set to LZMA and the size field set to
/// `size`.
pub open spec fn with_lzma_header(a: Seq<u8>, p: int, size: int) -> Seq<u8>
    recommends
        0 <= p,
        p + 30 <= a.len(),
{
    Seq::new(
        a.len(),
        |i: int|
            if i == p + 8 {
                0x0Eu8
            } else if p + 22 <= i < p + 26 {
                u32_bytes(size)[i - (p + 22)]
            } else {
                a[i]
            },
    )
}

/// The archive `a` after the headers from position `p` on have been walked
/// and those of kept compressed entries set back to LZMA, or the offset of
/// the header at which the walk cannot go on.
pub open spec fn restored_from(a: Seq<u8>, p: int, files: Seq<PakFileView>, pak: Seq<u8>) -> Result<
    Seq<u8>,
    BSPError,
>
    decreases a.len() - p,
{
    if p < 0 || p + 30 > a.len() {
        Err(BSPError::InvalidPakFile(p as u32))
    } else if has_signature(a, p, 1, 2) {
        Ok(a)
    } else if !has_signature(a, p, 3, 4) {
        Err(BSPError::InvalidPakFile(p as u32))
    } else {
        let name_end = p + 30 + u16_at(a, p + 26);
        let next = name_end + u16_at(a, p + 28) + u32_at(a, p + 18);
        if next > a.len() {
            Err(BSPError::InvalidPakFile(p as u32))
        } else {
            match restored_size(files, pak, a.subrange(p + 30, name_end), files.len() as int) {
                Some(size) => if size > u32::MAX {
                    Err(BSPError::InvalidPakFile(p as u32))
                } else {
                    restored_from(with_lzma_header(a, p, size), next, files, pak)
                },
                None => restored_from(a, next, files, pak),
            }
        }
    }
}

/// Restoring from `p` on keeps the length of the archive and every byte
/// before `p`.
pub proof fn lemma_restore_keeps_earlier_bytes(
    a: Seq<u8>,
    p: int,
    files: Seq<PakFileView>,
    pak: Seq<u8>,
)
    requires
        0 <= p,
        restored_from(a, p, files, pak) is Ok,
    ensures
        restored_from(a, p, files, pak)->Ok_0.len() == a.len(),
        forall|i: int| 0 <= i < p ==> restored_from(a, p, files, pak)->Ok_0[i] == a[i],
    decreases a.len() - p,
{
    if p + 30 <= a.len() && !has_signature(a, p, 1, 2) && has_signature(a, p, 3, 4) {
        let name_end = p + 30 + u16_at(a, p + 26);
        let next = name_end + u16_at(a, p + 28) + u32_at(a, p + 18);
        let out = restored_from(a, p, files, pak)->Ok_0;
        match restored_size(files, pak, a.subrange(p + 30, name_end), files.len() as int) {
            Some(size) => {
                let b = with_lzma_header(a, p, size);
                assert(restored_from(a, p, files, pak) == restored_from(b, next, files, pak));
                lemma_restore_keeps_earlier_bytes(b, next, files, pak);
                assert forall|i: int| 0 <= i < p implies out[i] == a[i] by {
                    assert(out[i] == b[i]);
                }
            },
            None => {
                assert(restored_from(a, p, files, pak) == restored_from(a, next, files, pak));
                lemma_restore_keeps_earlier_bytes(a, next, files, pak);
                assert forall|i: int| 0 <= i < p implies out[i] == a[i] by {}
            },
        }
    }
}

/// The header of an entry, wherever in the archive it stands, comes out of
/// the restoring with the method LZMA and the decompressed size in its size
/// field where a kept compressed entry has its name, and as it was where none
/// has; its other bytes stay as they were.
pub proof fn lemma_restored_header(a: Seq<u8>, p: int, files: Seq<PakFileView>, pak: Seq<u8>)
    requires
        0 <= p,
        p + 30 <= a.len(),
        has_signature(a, p, 3, 4),
        restored_from(a, p, files, pak) is Ok,
    ensures
        ({
            let out = restored_from(a, p, files, pak)->Ok_0;
            let name = a.subrange(p + 30, p + 30 + u16_at(a, p + 26));
            match restored_size(files, pak, name, files.len() as int) {
                Some(size) => {
                    &&& out[p + 8] == 0x0E
                    &&& out.subrange(p + 22, p + 26) == u32_bytes(size)
                    &&& forall|i: int|
                        p <= i < p + 30 && i != p + 8 && !(p + 22 <= i < p + 26) ==> out[i] == a[i]
                },
                None => forall|i: int| p <= i < p + 30 ==> out[i] == a[i],
            }
        }),
{
    let name_end = p + 30 + u16_at(a, p + 26);
    let next = name_end + u16_at(a, p + 28) + u32_at(a, p + 18);
    let out = restored_from(a, p, files, pak)->Ok_0;
    match restored_size(files, pak, a.subrange(p + 30, name_end), files.len() as int) {
        Some(size) => {
            let b = with_lzma_header(a, p, size);
            assert(!has_signature(a, p, 1, 2));
            assert(next <= a.len() && size <= u32::MAX);
            assert(restored_from(a, p, files, pak) == restored_from(b, next, files, pak));
            lemma_restore_keeps_earlier_bytes(b, next, files, pak);
            assert(out.len() == a.len());
            assert forall|i: int| p <= i < p + 30 implies out[i] == b[i] by {}
            assert(out.subrange(p + 22, p + 26) =~= u32_bytes(size));
        },
        None => {
            assert(!has_signature(a, p, 1, 2));
            assert(next <= a.len());
            assert(restored_from(a, p, files, pak) == restored_from(a, next, files, pak));
            lemma_restore_keeps_earlier_bytes(a, next, files, pak);
        },
    }
}

/// Tells whether two byte strings are equal.
pub fn same_bytes(a: &[u8], b: &[u8]) -> (r: bool)
    ensures
        r == (a@ == b@),
{
    if a.len() != b.len() {
        return false;
    }
    let mut i: usize = 0;
    while i < a.len()
        invariant
            i <= a@.len(),
            a@.len() == b@.len(),
            forall|k: int| 0 <= k < i ==> a@[k] == b@[k],
        decreases a@.len() - i,
    {
        if a[i] != b[i] {
            return false;
        }
        i += 1;
    }
    assert(a@ =~= b@);
    true
}

/// The decompressed size of a compressed entry.
fn entry_unpacked_size(f: &PakFile) -> (r: usize)
    ensures
        r == unpacked_size(f@),
{
    match &f.real_data {
        Some(d) => d.len(),
        None => match f.compression_algo {
            PakAlgo::LZMA(_, size) => size as usize,
            PakAlgo::Store => f.data.1 as usize,
        },
    }
}

/// Looks up the decompressed size to write into the header of the entry
/// named `name`.
fn find_restored_size(files: &Vec<PakFile>, pak: &[u8], name: &[u8]) -> (r: Option<usize>)
    ensures
        match r {
            Some(size) => restored_size(file_views(files@), pak@, name@, files@.len() as int)
                == Some(size as int),
            None => restored_size(file_views(files@), pak@, name@, files@.len() as int) is None,
        },
{
    let ghost views = file_views(files@);
    let mut n = files.len();
    while n > 0
        invariant
            n <= files@.len(),
            views == file_views(files@),
            restored_size(views, pak@, name@, files@.len() as int) == restored_size(
                views,
                pak@,
                name@,
                n as int,
            ),
        decreases n,
    {
        let f = &files[n - 1];
        assert(views[n - 1] == f@);
        let kept_lzma = !f.remove && match f.compression_algo {
            PakAlgo::LZMA(_, _) => true,
            PakAlgo::Store => false,
        };
        if kept_lzma {
            match slice_range(pak, f.name) {
                Some(own) => {
                    if same_bytes(own, name) {
                        return Some(entry_unpacked_size(f));
                    }
                },
                None => {},
            }
        }
        n -= 1;
    }
    None
}

/// Walks the local headers of a freshly written archive and sets those of
/// kept compressed entries back to LZMA: the method, and the decompressed
/// size of the entry in the size field. An entry is found by its name.
///
/// On an error the archive may have been changed up to the header that the
/// error names.
pub fn restore_lzma_headers(archive: &mut Vec<u8>, files: &Vec<PakFile>, pak: &[u8]) -> (r: Result<
    (),
    BSPError,
>)
    requires
        old(archive)@.len() <= u32::MAX,
    ensures
        match r {
            Ok(()) => restored_from(old(archive)@, 0, file_views(files@), pak@) == Ok::<
                Seq<u8>,
                BSPError,
            >(final(archive)@),
            Err(e) => restored_from(old(archive)@, 0, file_views(files@), pak@) == Err::<
                Seq<u8>,
                BSPError,
            >(e),
        },
{
    let ghost views = file_views(files@);
    let ghost start = archive@;
    let len = archive.len();
    let mut p: usize = 0;
    loop
        invariant
            len == archive@.len(),
            len <= u32::MAX,
            p <= len,
            views == file_views(files@),
            start == old(archive)@,
            restored_from(start, 0, views, pak@) == restored_from(archive@, p as int, views, pak@),
        decreases len - p,
    {
        if len - p < 30 {
            return Err(BSPError::InvalidPakFile(p as u32));
        }
        if archive[p] == 0x50 && archive[p + 1] == 0x4B && archive[p + 2] == 1 && archive[p + 3]
            == 2 {
            return Ok(());
        }
        if !(archive[p] == 0x50 && archive[p + 1] == 0x4B && archive[p + 2] == 3 && archive[p + 3]
            == 4) {
            return Err(BSPError::InvalidPakFile(p as u32));
        }
        let packed = read_u32(archive.as_slice(), p + 18).unwrap();
        let name_size = read_u16(archive.as_slice(), p + 26).unwrap();
        let extra_size = read_u16(archive.as_slice(), p + 28).unwrap();
        let name_end: u64 = p as u64 + 30 + name_size as u64;
        let next: u64 = name_end + extra_size as u64 + packed as u64;
        if next > len as u64 {
            return Err(BSPError::InvalidPakFile(p as u32));
        }
        let found = {
            let name = vstd::slice::slice_subrange(archive.as_slice(), p + 30, name_end as usize);
            find_restored_size(files, pak, name)
        };
        match found {
            Some(size) => {
                if size > u32::MAX as usize {
                    return Err(BSPError::InvalidPakFile(p as u32));
                }
                let ghost before = archive@;
                let size = size as u32;
                archive.set(p + 8, 0x0E);
                archive.set(p + 22, (size % 256) as u8);
                archive.set(p + 23, ((size / 256) % 256) as u8);
                archive.set(p + 24, ((size / 65536) % 256) as u8);
                archive.set(p + 25, ((size / 16777216) % 256) as u8);
                assert(archive@ =~= with_lzma_header(before, p as int, size as int));
            },
            None => {},
        }
        p = next as usize;
    }
}

/// Some entry is marked for removal.
pub open spec fn any_removed(files: Seq<PakFileView>) -> bool {
    exists|i: int| 0 <= i < files.len() && (#[trigger] files[i]).remove
}

/// Some entry is kept and was stored compressed.
pub open spec fn any_lzma_kept(files: Seq<PakFileView>) -> bool {
    exists|i: int| 0 <= i < files.len() && is_lzma_kept(#[trigger] files[i])
}

/// The compression method under which every entry is handed to the archive
/// writer: stored as it is.
pub const STORED: u16 = 0;

/// The permissions under which every entry is handed to the archive writer.
pub const ENTRY_PERMISSIONS: u32 = 0o755;

/// The bytes that are written for an entry: its content where it was stored
/// as it is, its compressed bytes where it was stored compressed; `None`
/// where the range that holds them leaves the archive.
pub open spec fn entry_bytes(f: PakFileView, pak: Seq<u8>) -> Option<Seq<u8>> {
    match f.compression_algo {
        PakAlgo::Store => if f.real_data is Some || f.data.0 + f.data.1 <= pak.len() {
            Some(f.content(pak))
        } else {
            None
        },
        PakAlgo::LZMA(_, _) => if f.data.0 + f.data.1 <= pak.len() {
            Some(f.stored_bytes(pak))
        } else {
            None
        },
    }
}

/// What is handed to the archive writer for one entry: its name, the method
/// and the permissions, and its bytes. An entry whose name or bytes leave the
/// archive, or whose name is not UTF-8, is an error at the offset of that
/// range; an entry of more bytes than the writer takes for one file cannot be
/// encoded.
pub open spec fn entry_input(f: PakFileView, pak: Seq<u8>) -> Result<
    (Seq<char>, u16, u32, Seq<u8>),
    BSPError,
> {
    if f.name.0 + f.name.1 > pak.len() || !valid_utf8(f.name_bytes(pak)) {
        Err(BSPError::InvalidPakFile(f.name.0))
    } else {
        match entry_bytes(f, pak) {
            None => Err(BSPError::InvalidPakFile(f.data.0)),
            Some(bytes) => if bytes.len() > 0xFFFF_FFFF {
                Err(BSPError::EncodeFailed(40))
            } else {
                Ok((decode_utf8(f.name_bytes(pak)), 0u16, 0o755u32, bytes))
            },
        }
    }
}

/// What is handed to the archive writer for the first `n` entries: the input
/// of each entry that is kept, in order, or the first error.
pub open spec fn archive_input(files: Seq<PakFileView>, pak: Seq<u8>, n: int) -> Result<
    Seq<(Seq<char>, u16, u32, Seq<u8>)>,
    BSPError,
>
    decreases n,
{
    if n <= 0 {
        Ok(Seq::empty())
    } else {
        match archive_input(files, pak, n - 1) {
            Err(e) => Err(e),
            Ok(done) => if files[n - 1].remove {
                Ok(done)
            } else {
                match entry_input(files[n - 1], pak) {
                    Ok(x) => Ok(done.push(x)),
                    Err(e) => Err(e),
                }
            },
        }
    }
}

/// The archive rebuilt from the entries that are kept: what the writer makes
/// of them, with the headers of compressed entries set back to LZMA.
pub open spec fn rebuilt(files: Seq<PakFileView>, pak: Seq<u8>) -> Result<Seq<u8>, BSPError> {
    match archive_input(files, pak, files.len() as int) {
        Err(e) => Err(e),
        Ok(input) => {
            let a = stored_archive(input);
            if !any_lzma_kept(files) {
                Ok(a)
            } else if a.len() > u32::MAX {
                Err(BSPError::LumpOverflow(40))
            } else {
                restored_from(a, 0, files, pak)
            }
        },
    }
}

/// What the archive lump is re-encoded to: with no entry marked for removal
/// the lump as it lies in the buffer, byte for byte, else the rebuilt
/// archive.
pub open spec fn pak_encoding(pak: Seq<u8>, files: Seq<PakFileView>) -> Result<Seq<u8>, BSPError> {
    if !any_removed(files) {
        Ok(pak)
    } else {
        rebuilt(files, pak)
    }
}

/// Tells whether some entry is marked for removal.
pub fn has_removed(files: &Vec<PakFile>) -> (r: bool)
    ensures
        r == any_removed(file_views(files@)),
{
    let mut i: usize = 0;
    while i < files.len()
        invariant
            i <= files@.len(),
            forall|k: int| 0 <= k < i ==> !(#[trigger] file_views(files@)[k]).remove,
        decreases files@.len() - i,
    {
        if files[i].remove {
            assert(file_views(files@)[i as int].remove);
            return true;
        }
        i += 1;
    }
    false
}

/// Tells whether some entry is kept and was stored compressed.
pub fn has_lzma_kept(files: &Vec<PakFile>) -> (r: bool)
    ensures
        r == any_lzma_kept(file_views(files@)),
{
    let mut i: usize = 0;
    while i < files.len()
        invariant
            i <= files@.len(),
            forall|k: int| 0 <= k < i ==> !is_lzma_kept(#[trigger] file_views(files@)[k]),
        decreases files@.len() - i,
    {
        let f = &files[i];
        let lzma = match f.compression_algo {
            PakAlgo::LZMA(_, _) => true,
            PakAlgo::Store => false,
        };
        if !f.remove && lzma {
            assert(is_lzma_kept(file_views(files@)[i as int]));
            return true;
        }
        i += 1;
    }
    false
}

/// Hands one kept entry to the archive writer.
fn write_entry(w: &mut StoreWriter, f: &PakFile, pak: &[u8]) -> (r: Result<(), BSPError>)
    requires
        is_open(*old(w)),
    ensures
        match r {
            Ok(()) => entry_input(f@, pak@) is Ok && is_open(*final(w)) && written(*final(w))
                == written(*old(w)).push(entry_input(f@, pak@)->Ok_0),
            Err(e) => entry_input(f@, pak@) == Err::<(Seq<char>, u16, u32, Seq<u8>), BSPError>(e),
        },
{
    let name = match f.name(pak) {
        Some(n) => n,
        None => {
            return Err(BSPError::InvalidPakFile(f.name.0));
        },
    };
    let data = match f.compression_algo {
        PakAlgo::Store => f.data(pak),
        PakAlgo::LZMA(_, _) => slice_range(pak, f.data),
    };
    let data = match data {
        Some(d) => d,
        None => {
            return Err(BSPError::InvalidPakFile(f.data.0));
        },
    };
    assert(entry_bytes(f@, pak@) == Some(data@));
    if data.len() > FILE_LIMIT {
        return Err(BSPError::EncodeFailed(40));
    }
    let ghost before = written(*w);
    if writer_start_file(w, name, STORED, ENTRY_PERMISSIONS).is_err() {
        return Err(BSPError::EncodeFailed(40));
    }
    if writer_write_all(w, data).is_err() {
        return Err(BSPError::EncodeFailed(40));
    }
    assert(written(*w) =~= before.push((name@, 0u16, 0o755u32, data@))) by {
        assert(Seq::<u8>::empty() + data@ =~= data@);
    }
    Ok(())
}

/// Re-encodes the archive lump: `pak` holds the lump as it lies in the
/// buffer, `files` its entries with the marks for removal set.
pub fn encode_pak(pak: &[u8], files: &Vec<PakFile>) -> (r: Result<Vec<u8>, BSPError>)
    ensures
        crate::bsp::bytes_result(r) == pak_encoding(pak@, file_views(files@)),
{
    if !has_removed(files) {
        return Ok(vstd::slice::slice_to_vec(pak));
    }
    let ghost views = file_views(files@);
    let mut w = writer_new();
    let mut i: usize = 0;
    while i < files.len()
        invariant
            i <= files@.len(),
            views == file_views(files@),
            any_removed(views),
            is_open(w),
            archive_input(views, pak@, i as int) == Ok::<
                Seq<(Seq<char>, u16, u32, Seq<u8>)>,
                BSPError,
            >(written(w)),
        decreases files@.len() - i,
    {
        let f = &files[i];
        assert(views[i as int] == f@);
        if !f.remove {
            match write_entry(&mut w, f, pak) {
                Ok(()) => {},
                Err(e) => {
                    proof {
                        assert(archive_input(views, pak@, i as int + 1) == Err::<
                            Seq<(Seq<char>, u16, u32, Seq<u8>)>,
                            BSPError,
                        >(e));
                        lemma_input_error_stays(views, pak@, i as int + 1, files@.len() as int);
                    }
                    return Err(e);
                },
            }
        }
        i += 1;
    }
    let mut archive = match writer_finish(&mut w) {
        Ok(a) => a,
        Err(_) => {
            return Err(BSPError::EncodeFailed(40));
        },
    };
    if !has_lzma_kept(files) {
        return Ok(archive);
    }
    if archive.len() > u32::MAX as usize {
        return Err(BSPError::LumpOverflow(40));
    }
    match restore_lzma_headers(&mut archive, files, pak) {
        Ok(()) => Ok(archive),
        Err(e) => Err(e),
    }
}

/// Once an entry fails, handing over more entries fails with the same error.
pub proof fn lemma_input_error_stays(files: Seq<PakFileView>, pak: Seq<u8>, n: int, m: int)
    requires
        0 <= n <= m,
        archive_input(files, pak, n) is Err,
    ensures
        archive_input(files, pak, m) == archive_input(files, pak, n),
    decreases m - n,
{
    if n < m {
        lemma_input_error_stays(files, pak, n, m - 1);
    }
}

} // verus!
