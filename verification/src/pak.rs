//! Decoder for the archive lump: a run of local file entries, each a 30-byte
//! header followed by a name, an extra field and the stored bytes, up to the
//! first central directory record.

use vstd::prelude::*;
use crate::bsp::{BSPError, PakAlgo, PakFile, PakFileView, file_views};
use crate::bytes::{read_u16, read_u32, u16_at, u32_at};
use crate::lzma::{lzma_unpack, lzma_unpacked};

verus! {

/// The four bytes at `at` are the signature `P K a b`.
pub open spec fn has_signature(w: Seq<u8>, at: int, a: u8, b: u8) -> bool
    recommends
        0 <= at,
        at + 4 <= w.len(),
{
    w[at] == 0x50 && w[at + 1] == 0x4B && w[at + 2] == a && w[at + 3] == b
}

/// What stands at one position of the archive.
pub enum PakStep {
    /// A file entry, and the position after it.
    Entry(PakFileView, int),
    /// The central directory: the walk ends here.
    End,
    /// A malformed entry; holds the offset to report.
    Bad(u32),
}

/// A stored entry whose header is at `p`.
pub open spec fn store_step(w: Seq<u8>, p: int) -> PakStep {
    let data_size = u32_at(w, p + 22);
    let name_size = u16_at(w, p + 26);
    let extra_size = u16_at(w, p + 28);
    let name_at = p + 30;
    let data_at = name_at + name_size + extra_size;
    if data_at + data_size > w.len() {
        PakStep::Bad(p as u32)
    } else {
        PakStep::Entry(
            PakFileView {
                name: (name_at as u32, name_size as u32),
                data: (data_at as u32, data_size as u32),
                real_data: None,
                compression_algo: PakAlgo::Store,
                remove: false,
                blacklisted: None,
            },
            data_at + data_size,
        )
    }
}

/// An LZMA entry whose header is at `p`.
pub open spec fn lzma_step(w: Seq<u8>, p: int) -> PakStep {
    let packed_size = u32_at(w, p + 18);
    let data_size = u32_at(w, p + 22);
    let name_size = u16_at(w, p + 26);
    let extra_size = u16_at(w, p + 28);
    let name_at = p + 30;
    let data_at = name_at + name_size;
    if extra_size != 0 {
        PakStep::Bad((p + 28) as u32)
    } else if data_at > w.len() {
        PakStep::Bad(p as u32)
    } else if packed_size < 4 || data_at + packed_size > w.len() {
        PakStep::Bad(data_at as u32)
    } else {
        match lzma_unpacked(w.subrange(data_at + 4, data_at + packed_size), data_size as u32) {
            Some(d) => if d.len() == data_size {
                PakStep::Entry(
                    PakFileView {
                        name: (name_at as u32, name_size as u32),
                        data: (data_at as u32, packed_size as u32),
                        real_data: Some(d),
                        compression_algo: PakAlgo::LZMA(packed_size as u32, data_size as u32),
                        remove: false,
                        blacklisted: None,
                    },
                    data_at + packed_size,
                )
            } else {
                PakStep::Bad(data_at as u32)
            },
            None => PakStep::Bad(data_at as u32),
        }
    }
}

/// What stands at position `p` of the archive `w`.
pub open spec fn pak_step(w: Seq<u8>, p: int) -> PakStep
    recommends
        0 <= p < w.len(),
{
    if p + 30 > w.len() {
        PakStep::Bad(p as u32)
    } else if has_signature(w, p, 1, 2) {
        PakStep::End
    } else if !has_signature(w, p, 3, 4) {
        PakStep::Bad(p as u32)
    } else if w[p + 8] == 0 && w[p + 9] == 0 {
        store_step(w, p)
    } else if w[p + 8] == 0x0E && w[p + 9] == 0 {
        lzma_step(w, p)
    } else {
        PakStep::Bad((p + 8) as u32)
    }
}

/// The result of walking the archive `w` from position `p`: the entries in
/// the order they are met, or the first error.
pub open spec fn pak_walk(w: Seq<u8>, p: int) -> Result<Seq<PakFileView>, BSPError>
    decreases w.len() - p,
{
    if p < 0 || p >= w.len() {
        Ok(Seq::empty())
    } else {
        match pak_step(w, p) {
            PakStep::End => Ok(Seq::empty()),
            PakStep::Bad(at) => Err(BSPError::InvalidPakFile(at)),
            PakStep::Entry(e, next) => if next <= p {
                Ok(Seq::empty())
            } else {
                match pak_walk(w, next) {
                    Ok(rest) => Ok(seq![e] + rest),
                    Err(x) => Err(x),
                }
            },
        }
    }
}

/// The entries of the archive `w`, or the error that decoding it ends in.
pub open spec fn pak_entries(w: Seq<u8>) -> Result<Seq<PakFileView>, BSPError> {
    pak_walk(w, 0)
}

/// `walk` with `done` put in front of its entries.
pub open spec fn after(done: Seq<PakFileView>, walk: Result<Seq<PakFileView>, BSPError>) -> Result<
    Seq<PakFileView>,
    BSPError,
> {
    match walk {
        Ok(rest) => Ok(done + rest),
        Err(x) => Err(x),
    }
}

/// An entry always ends behind its own header.
pub proof fn lemma_step_advances(w: Seq<u8>, p: int)
    requires
        0 <= p < w.len(),
        w.len() <= u32::MAX,
    ensures
        pak_step(w, p) matches PakStep::Entry(e, next) ==> {
            &&& p + 30 <= next <= w.len()
            &&& e.fits(w.len())
            &&& e.name.0 == p + 30
        },
{
}

/// Every entry that the walk from `p` gives lies inside the archive.
pub proof fn lemma_walk_fits(w: Seq<u8>, p: int)
    requires
        0 <= p,
        w.len() <= u32::MAX,
        pak_walk(w, p) is Ok,
    ensures
        forall|k: int|
            0 <= k < pak_walk(w, p)->Ok_0.len() ==> (#[trigger] pak_walk(w, p)->Ok_0[k]).fits(
                w.len(),
            ),
    decreases w.len() - p,
{
    if p < w.len() {
        lemma_step_advances(w, p);
        match pak_step(w, p) {
            PakStep::Entry(e, next) => {
                lemma_walk_fits(w, next);
            },
            _ => {},
        }
    }
}

/// No entry that the walk gives is marked for removal or classified.
pub proof fn lemma_walk_marks_nothing(w: Seq<u8>, p: int)
    requires
        0 <= p,
        pak_walk(w, p) is Ok,
    ensures
        forall|k: int|
            0 <= k < pak_walk(w, p)->Ok_0.len() ==> !(#[trigger] pak_walk(w, p)->Ok_0[k]).remove
                && pak_walk(w, p)->Ok_0[k].blacklisted is None,
    decreases w.len() - p,
{
    if p < w.len() {
        match pak_step(w, p) {
            PakStep::Entry(e, next) => {
                if next > p {
                    lemma_walk_marks_nothing(w, next);
                }
            },
            _ => {},
        }
    }
}

/// Every entry of a decoded archive lies inside the archive.
pub proof fn lemma_entries_fit(w: Seq<u8>)
    requires
        w.len() <= u32::MAX,
        pak_entries(w) is Ok,
    ensures
        forall|k: int|
            0 <= k < pak_entries(w)->Ok_0.len() ==> (#[trigger] pak_entries(w)->Ok_0[k]).fits(
                w.len(),
            ),
{
    lemma_walk_fits(w, 0);
}

/// One exec step of the walk. `Ok(None)` is the central directory.
fn decode_step(w: &[u8], p: usize) -> (r: Result<Option<(PakFile, usize)>, u32>)
    requires
        p < w@.len(),
        w@.len() <= u32::MAX,
    ensures
        match r {
            Ok(Some((f, next))) => pak_step(w@, p as int) == PakStep::Entry(f@, next as int),
            Ok(None) => pak_step(w@, p as int) == PakStep::End,
            Err(at) => pak_step(w@, p as int) == PakStep::Bad(at),
        },
{
    let len = w.len();
    if len - p < 30 {
        return Err(p as u32);
    }
    if w[p] == 0x50 && w[p + 1] == 0x4B && w[p + 2] == 1 && w[p + 3] == 2 {
        return Ok(None);
    }
    if !(w[p] == 0x50 && w[p + 1] == 0x4B && w[p + 2] == 3 && w[p + 3] == 4) {
        return Err(p as u32);
    }
    let packed_size = read_u32(w, p + 18).unwrap();
    let data_size = read_u32(w, p + 22).unwrap();
    let name_size = read_u16(w, p + 26).unwrap();
    let extra_size = read_u16(w, p + 28).unwrap();
    let name_at = p + 30;
    if w[p + 8] == 0 && w[p + 9] == 0 {
        let data_at: u64 = name_at as u64 + name_size as u64 + extra_size as u64;
        if data_at + data_size as u64 > len as u64 {
            return Err(p as u32);
        }
        let file = PakFile {
            name: (name_at as u32, name_size as u32),
            data: (data_at as u32, data_size),
            real_data: None,
            compression_algo: PakAlgo::Store,
            remove: false,
            blacklisted: None,
        };
        Ok(Some((file, (data_at + data_size as u64) as usize)))
    } else if w[p + 8] == 0x0E && w[p + 9] == 0 {
        if extra_size != 0 {
            return Err((p + 28) as u32);
        }
        let data_at: u64 = name_at as u64 + name_size as u64;
        if data_at > len as u64 {
            return Err(p as u32);
        }
        if packed_size < 4 || data_at + packed_size as u64 > len as u64 {
            return Err(data_at as u32);
        }
        let end = (data_at + packed_size as u64) as usize;
        let stream = vstd::slice::slice_subrange(w, data_at as usize + 4, end);
        match lzma_unpack(stream, data_size) {
            Ok(d) => {
                if d.len() != data_size as usize {
                    return Err(data_at as u32);
                }
                let file = PakFile {
                    name: (name_at as u32, name_size as u32),
                    data: (data_at as u32, packed_size),
                    real_data: Some(d),
                    compression_algo: PakAlgo::LZMA(packed_size, data_size),
                    remove: false,
                    blacklisted: None,
                };
                Ok(Some((file, end)))
            },
            Err(_) => Err(data_at as u32),
        }
    } else {
        Err((p + 8) as u32)
    }
}

/// Decodes the archive `w` into its entries, in the order they are met.
///
/// The walk ends at the end of `w` or at the first central directory record;
/// what follows that record is not looked at.
pub fn decode_pak(w: &[u8]) -> (r: Result<Vec<PakFile>, BSPError>)
    requires
        w@.len() <= u32::MAX,
    ensures
        match r {
            Ok(files) => pak_entries(w@) == Ok::<Seq<PakFileView>, BSPError>(file_views(files@)),
            Err(e) => pak_entries(w@) == Err::<Seq<PakFileView>, BSPError>(e),
        },
{
    let mut files: Vec<PakFile> = Vec::new();
    let mut p: usize = 0;
    assert(file_views(files@) + Seq::<PakFileView>::empty() =~= Seq::<PakFileView>::empty());
    while p < w.len()
        invariant
            w@.len() <= u32::MAX,
            p <= w@.len(),
            pak_entries(w@) == after(file_views(files@), pak_walk(w@, p as int)),
        decreases w@.len() - p,
    {
        proof {
            lemma_step_advances(w@, p as int);
        }
        let ghost done = file_views(files@);
        match decode_step(w, p) {
            Err(at) => {
                return Err(BSPError::InvalidPakFile(at));
            },
            Ok(None) => {
                assert(done + Seq::<PakFileView>::empty() =~= done);
                return Ok(files);
            },
            Ok(Some((f, next))) => {
                let ghost e = f@;
                files.push(f);
                proof {
                    assert(file_views(files@) =~= done.push(e));
                    match pak_walk(w@, next as int) {
                        Ok(rest) => {
                            assert(done + (seq![e] + rest) =~= done.push(e) + rest);
                        },
                        Err(_) => {},
                    }
                }
                p = next;
            },
        }
    }
    assert(file_views(files@) + Seq::<PakFileView>::empty() =~= file_views(files@));
    Ok(files)
}

/// The walk from an entry is that entry followed by the walk from the
/// position behind it, wherever in the archive the entry stands.
pub proof fn lemma_walk_unfolds(w: Seq<u8>, p: int)
    requires
        0 <= p < w.len(),
        w.len() <= u32::MAX,
        pak_step(w, p) is Entry,
    ensures
        pak_walk(w, p) == match pak_walk(w, pak_step(w, p)->Entry_1) {
            Ok(rest) => Ok::<Seq<PakFileView>, BSPError>(seq![pak_step(w, p)->Entry_0] + rest),
            Err(x) => Err(x),
        },
{
    lemma_step_advances(w, p);
}

/// A compressed entry decodes, wherever in the archive it stands, to an entry
/// that holds what its stream unpacks to: its header has the method LZMA and
/// no extra field, its payload of at least four bytes lies inside the
/// archive, and the stream behind the first four bytes of the payload unpacks
/// to exactly as many bytes as the header declares.
pub proof fn lemma_compressed_entry(w: Seq<u8>, p: int, content: Seq<u8>)
    requires
        0 <= p,
        p + 30 <= w.len() <= u32::MAX,
        has_signature(w, p, 3, 4),
        w[p + 8] == 0x0E,
        w[p + 9] == 0,
        u16_at(w, p + 28) == 0,
        u32_at(w, p + 18) >= 4,
        p + 30 + u16_at(w, p + 26) + u32_at(w, p + 18) <= w.len(),
        lzma_unpacked(
            w.subrange(
                p + 30 + u16_at(w, p + 26) + 4,
                p + 30 + u16_at(w, p + 26) + u32_at(w, p + 18),
            ),
            u32_at(w, p + 22) as u32,
        ) == Some(content),
        content.len() == u32_at(w, p + 22),
    ensures
        pak_step(w, p) == PakStep::Entry(
            PakFileView {
                name: ((p + 30) as u32, u16_at(w, p + 26) as u32),
                data: ((p + 30 + u16_at(w, p + 26)) as u32, u32_at(w, p + 18) as u32),
                real_data: Some(content),
                compression_algo: PakAlgo::LZMA(
                    u32_at(w, p + 18) as u32,
                    u32_at(w, p + 22) as u32,
                ),
                remove: false,
                blacklisted: None,
            },
            p + 30 + u16_at(w, p + 26) + u32_at(w, p + 18),
        ),
{
}

/// The walk ends at a central directory record, whatever follows it.
pub proof fn lemma_walk_ends_at_central_directory(w: Seq<u8>, p: int)
    requires
        0 <= p,
        p + 30 <= w.len(),
        has_signature(w, p, 1, 2),
    ensures
        pak_walk(w, p) == Ok::<Seq<PakFileView>, BSPError>(Seq::empty()),
{
}

/// At `p` in `w` stands a stored entry with the given name and data and no
/// extra field.
pub open spec fn stored_entry_at(w: Seq<u8>, p: int, name: Seq<u8>, data: Seq<u8>) -> bool {
    &&& 0 <= p
    &&& p + 30 + name.len() + data.len() <= w.len()
    &&& has_signature(w, p, 3, 4)
    &&& w[p + 8] == 0
    &&& w[p + 9] == 0
    &&& u32_at(w, p + 22) == data.len()
    &&& u16_at(w, p + 26) == name.len()
    &&& u16_at(w, p + 28) == 0
    &&& w.subrange(p + 30, p + 30 + name.len()) == name
    &&& w.subrange(p + 30 + name.len(), p + 30 + name.len() + data.len()) == data
}

/// Where entry `k` starts in an archive made of stored entries with the given
/// names and data, one behind the other.
pub open spec fn entry_start(names: Seq<Seq<u8>>, datas: Seq<Seq<u8>>, k: int) -> int
    decreases k,
{
    if k <= 0 {
        0
    } else {
        entry_start(names, datas, k - 1) + 30 + names[k - 1].len() + datas[k - 1].len()
    }
}

/// The archive `w` is made of stored entries with the given names and data,
/// one behind the other, and ends there or goes on with a central directory
/// record.
pub open spec fn holds_stored_entries(w: Seq<u8>, names: Seq<Seq<u8>>, datas: Seq<Seq<u8>>) -> bool {
    let n = names.len() as int;
    let end = entry_start(names, datas, n);
    &&& datas.len() == n
    &&& w.len() <= u32::MAX
    &&& forall|k: int|
        0 <= k < n ==> stored_entry_at(
            w,
            #[trigger] entry_start(names, datas, k),
            names[k],
            datas[k],
        )
    &&& end == w.len() || (end + 30 <= w.len() && has_signature(w, end, 1, 2))
}

/// The entry that decoding gives for stored entry `k` of such an archive.
pub open spec fn stored_view(names: Seq<Seq<u8>>, datas: Seq<Seq<u8>>, k: int) -> PakFileView {
    let p = entry_start(names, datas, k);
    PakFileView {
        name: ((p + 30) as u32, names[k].len() as u32),
        data: ((p + 30 + names[k].len()) as u32, datas[k].len() as u32),
        real_data: None,
        compression_algo: PakAlgo::Store,
        remove: false,
        blacklisted: None,
    }
}

/// The entries that decoding gives for the stored entries from `k` on.
pub open spec fn stored_views(names: Seq<Seq<u8>>, datas: Seq<Seq<u8>>, k: int) -> Seq<PakFileView>
    decreases names.len() - k,
{
    if k < 0 || k >= names.len() {
        Seq::empty()
    } else {
        seq![stored_view(names, datas, k)] + stored_views(names, datas, k + 1)
    }
}

/// Entry starts grow with the index and stay inside the archive.
pub proof fn lemma_entry_start_bounds(w: Seq<u8>, names: Seq<Seq<u8>>, datas: Seq<Seq<u8>>, k: int)
    requires
        holds_stored_entries(w, names, datas),
        0 <= k <= names.len(),
    ensures
        0 <= entry_start(names, datas, k) <= w.len(),
        k < names.len() ==> entry_start(names, datas, k + 1) == entry_start(names, datas, k) + 30
            + names[k].len() + datas[k].len(),
        k < names.len() ==> entry_start(names, datas, k + 1) <= w.len(),
    decreases k,
{
    if k > 0 {
        lemma_entry_start_bounds(w, names, datas, k - 1);
        assert(stored_entry_at(w, entry_start(names, datas, k - 1), names[k - 1], datas[k - 1]));
    }
    if k < names.len() {
        assert(stored_entry_at(w, entry_start(names, datas, k), names[k], datas[k]));
    }
}

/// The walk from the start of stored entry `k` gives the entries from `k` on.
pub proof fn lemma_walk_of_stored_entries(
    w: Seq<u8>,
    names: Seq<Seq<u8>>,
    datas: Seq<Seq<u8>>,
    k: int,
)
    requires
        holds_stored_entries(w, names, datas),
        0 <= k <= names.len(),
    ensures
        pak_walk(w, entry_start(names, datas, k)) == Ok::<Seq<PakFileView>, BSPError>(
            stored_views(names, datas, k),
        ),
    decreases names.len() - k,
{
    let p = entry_start(names, datas, k);
    lemma_entry_start_bounds(w, names, datas, k);
    if k < names.len() {
        assert(stored_entry_at(w, p, names[k], datas[k]));
        lemma_walk_of_stored_entries(w, names, datas, k + 1);
        assert(pak_step(w, p) == PakStep::Entry(
            stored_view(names, datas, k),
            entry_start(names, datas, k + 1),
        ));
    } else {
    }
}

/// There are as many decoded entries as stored ones.
pub proof fn lemma_stored_views_len(names: Seq<Seq<u8>>, datas: Seq<Seq<u8>>, k: int)
    requires
        0 <= k <= names.len(),
    ensures
        stored_views(names, datas, k).len() == names.len() - k,
        forall|i: int|
            k <= i < names.len() ==> #[trigger] stored_views(names, datas, k)[i - k] == stored_view(
                names,
                datas,
                i,
            ),
    decreases names.len() - k,
{
    if k < names.len() {
        lemma_stored_views_len(names, datas, k + 1);
        assert forall|i: int| k <= i < names.len() implies #[trigger] stored_views(names, datas, k)[i
            - k] == stored_view(names, datas, i) by {
            if i > k {
                assert(stored_views(names, datas, k)[i - k] == stored_views(names, datas, k + 1)[i
                    - (k + 1)]);
            }
        }
    }
}

/// An archive made of `n` stored entries decodes to exactly `n` entries, in
/// the order in which they stand, and the ranges of each give back its name
/// and its data. What follows a central directory record behind the last
/// entry does not matter.
pub proof fn lemma_stored_entries_decode(w: Seq<u8>, names: Seq<Seq<u8>>, datas: Seq<Seq<u8>>)
    requires
        holds_stored_entries(w, names, datas),
    ensures
        pak_entries(w) == Ok::<Seq<PakFileView>, BSPError>(stored_views(names, datas, 0)),
        pak_entries(w)->Ok_0.len() == names.len(),
        forall|i: int|
            0 <= i < names.len() ==> {
                let e = #[trigger] pak_entries(w)->Ok_0[i];
                &&& e.fits(w.len())
                &&& e.name_bytes(w) == names[i]
                &&& e.content(w) == datas[i]
                &&& e.compression_algo == PakAlgo::Store
            },
{
    lemma_walk_of_stored_entries(w, names, datas, 0);
    lemma_stored_views_len(names, datas, 0);
    assert forall|i: int| 0 <= i < names.len() implies {
        let e = #[trigger] pak_entries(w)->Ok_0[i];
        &&& e.fits(w.len())
        &&& e.name_bytes(w) == names[i]
        &&& e.content(w) == datas[i]
        &&& e.compression_algo == PakAlgo::Store
    } by {
        lemma_entry_start_bounds(w, names, datas, i);
        assert(stored_entry_at(w, entry_start(names, datas, i), names[i], datas[i]));
        assert(stored_views(names, datas, 0)[i - 0] == stored_view(names, datas, i));
    }
}

} // verus!
