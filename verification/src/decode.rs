//! Decoding a whole map from its bytes.

use vstd::prelude::*;
use crate::bsp::{
    BSPError, BSPLump, EntityLump, LumpView, MapView, PakFileLump, ParsedMap,
    file_views, lump_views,
};
use crate::bytes::{read_u32, u32_at};
use crate::directory::{
    header_error, is_physical_order, physical_order, read_header, read_record, record_at,
    version_supported,
};
use crate::entities::{decode_entities, entity_text};
use crate::pak::{decode_pak, pak_entries, lemma_entries_fit};

verus! {

/// Slot `i` of the directory of `buf`, decoded.
///
/// Every lump has to lie inside the buffer. Lump 0 is decoded as entity text,
/// lump 40 as an archive; the others are kept as byte ranges.
pub open spec fn lump_at(buf: Seq<u8>, i: int) -> Result<LumpView, BSPError>
    recommends
        0 <= i < 64,
        buf.len() >= 0x40C,
{
    let base = record_at(buf, i);
    if !base.fits(buf.len()) {
        Err(BSPError::LumpOutOfBounds(i as u32))
    } else if i == 0 {
        match entity_text(base.window(buf)) {
            Ok(t) => Ok(LumpView::Entities(base, t)),
            Err(e) => Err(e),
        }
    } else if i == 40 {
        match pak_entries(base.window(buf)) {
            Ok(files) => Ok(LumpView::PakFile(base, files)),
            Err(e) => Err(e),
        }
    } else {
        Ok(LumpView::Unknown(base))
    }
}

/// The first `n` slots of the directory of `buf`, decoded in index order, or
/// the error of the first slot that does not decode.
pub open spec fn lumps_upto(buf: Seq<u8>, n: int) -> Result<Seq<LumpView>, BSPError>
    decreases n,
{
    if n <= 0 {
        Ok(Seq::empty())
    } else {
        match lumps_upto(buf, n - 1) {
            Err(e) => Err(e),
            Ok(done) => match lump_at(buf, n - 1) {
                Ok(l) => Ok(done.push(l)),
                Err(e) => Err(e),
            },
        }
    }
}

/// The error that decoding `buf` ends in, if it does: that of the header,
/// else that of the first lump that does not decode.
pub open spec fn decode_error(buf: Seq<u8>) -> Option<BSPError> {
    match header_error(buf) {
        Some(e) => Some(e),
        None => match lumps_upto(buf, 64) {
            Err(e) => Some(e),
            Ok(_) => None,
        },
    }
}

impl MapView {
    /// The map is what decoding `buf` gives.
    pub open spec fn decodes(&self, buf: Seq<u8>) -> bool {
        &&& header_error(buf) is None
        &&& self.buf == buf
        &&& self.version == u32_at(buf, 4)
        &&& self.iteration == u32_at(buf, 0x408)
        &&& lumps_upto(buf, 64) == Ok::<Seq<LumpView>, BSPError>(self.lumps)
        &&& is_physical_order(self.order, buf, 64)
    }

    /// The invariant of a decoded map: a full header, 64 slots that repeat the
    /// directory of the buffer and lie inside it, entities in slot 0, the
    /// archive in slot 40 with entries that lie inside it, and the lumps
    /// listed in the order in which they lie in the file.
    pub open spec fn wf(&self) -> bool {
        &&& self.buf.len() >= 0x40C
        &&& version_supported(self.version as int)
        &&& self.lumps.len() == 64
        &&& forall|i: int|
            0 <= i < 64 ==> (#[trigger] self.lumps[i]).base() == record_at(self.buf, i)
                && self.lumps[i].base().fits(self.buf.len())
        &&& self.lumps[0] is Entities
        &&& self.lumps[40] is PakFile
        &&& forall|i: int| 0 <= i < 64 && i != 0 && i != 40 ==> #[trigger] self.lumps[i] is Unknown
        &&& forall|k: int|
            0 <= k < self.lumps[40]->PakFile_1.len() ==> (#[trigger] self.lumps[40]->PakFile_1[k]).fits(
                self.lumps[40].base().size as nat,
            )
        &&& is_physical_order(self.order, self.buf, 64)
    }
}

/// What `lumps_upto` gives has one slot for each record, of the kind that
/// belongs at its index, inside the buffer.
pub proof fn lemma_lumps_upto(buf: Seq<u8>, n: int)
    requires
        0 <= n <= 64,
        lumps_upto(buf, n) is Ok,
    ensures
        lumps_upto(buf, n)->Ok_0.len() == n,
        forall|i: int|
            0 <= i < n ==> lump_at(buf, i) == Ok::<LumpView, BSPError>(
                #[trigger] lumps_upto(buf, n)->Ok_0[i],
            ),
    decreases n,
{
    if n > 0 {
        lemma_lumps_upto(buf, n - 1);
    }
}

/// Whatever decodes is well formed.
pub proof fn lemma_decoded_is_wf(m: MapView, buf: Seq<u8>)
    requires
        m.decodes(buf),
    ensures
        m.wf(),
{
    lemma_lumps_upto(buf, 64);
    assert forall|i: int| 0 <= i < 64 implies (#[trigger] m.lumps[i]).base() == record_at(
        m.buf,
        i,
    ) && m.lumps[i].base().fits(m.buf.len()) by {
        assert(lump_at(buf, i) == Ok::<LumpView, BSPError>(m.lumps[i]));
    }
    assert(lump_at(buf, 0) == Ok::<LumpView, BSPError>(m.lumps[0]));
    assert(lump_at(buf, 40) == Ok::<LumpView, BSPError>(m.lumps[40]));
    assert forall|i: int| 0 <= i < 64 && i != 0 && i != 40 implies #[trigger] m.lumps[i] is Unknown by {
        assert(lump_at(buf, i) == Ok::<LumpView, BSPError>(m.lumps[i]));
    }
    lemma_entries_fit(record_at(buf, 40).window(buf));
}

/// Decodes slot `i` of the directory.
fn decode_lump(buf: &[u8], i: usize) -> (r: Result<BSPLump, BSPError>)
    requires
        i < 64,
        buf@.len() >= 0x40C,
    ensures
        match r {
            Ok(l) => lump_at(buf@, i as int) == Ok::<LumpView, BSPError>(l@),
            Err(e) => lump_at(buf@, i as int) == Err::<LumpView, BSPError>(e),
        },
{
    let base = read_record(buf, i);
    let window = match base.data(buf) {
        Some(w) => w,
        None => {
            return Err(BSPError::LumpOutOfBounds(i as u32));
        },
    };
    if i == 0 {
        match decode_entities(window) {
            Ok(string) => Ok(BSPLump::Entities(EntityLump { base, string })),
            Err(e) => Err(e),
        }
    } else if i == 40 {
        match decode_pak(window) {
            Ok(files) => Ok(BSPLump::PakFile(PakFileLump { base, files })),
            Err(e) => Err(e),
        }
    } else {
        Ok(BSPLump::Unknown(base))
    }
}

impl ParsedMap {
    /// Decodes a map from the bytes of its file.
    ///
    /// Succeeds exactly where `decode_error` finds nothing; the map it gives
    /// keeps the buffer and is well formed.
    pub fn new(buf: Vec<u8>) -> (r: Result<ParsedMap, BSPError>)
        ensures
            match r {
                Ok(m) => decode_error(buf@) is None && m@.decodes(buf@) && m@.wf(),
                Err(e) => decode_error(buf@) == Some(e),
            },
    {
        let bytes = buf.as_slice();
        let version = match read_header(bytes) {
            Ok(v) => v,
            Err(e) => {
                return Err(e);
            },
        };
        let mut lumps: Vec<BSPLump> = Vec::new();
        let mut i: usize = 0;
        assert(lump_views(lumps@) =~= Seq::<LumpView>::empty());
        while i < 64
            invariant
                i <= 64,
                bytes@ == buf@,
                buf@.len() >= 0x40C,
                header_error(buf@) is None,
                lumps_upto(buf@, i as int) == Ok::<Seq<LumpView>, BSPError>(lump_views(lumps@)),
            decreases 64 - i,
        {
            let ghost done = lump_views(lumps@);
            match decode_lump(bytes, i) {
                Ok(l) => {
                    let ghost v = l@;
                    lumps.push(l);
                    assert(lump_views(lumps@) =~= done.push(v));
                },
                Err(e) => {
                    proof {
                        assert(lumps_upto(buf@, i as int + 1) == Err::<Seq<LumpView>, BSPError>(e));
                        lemma_error_stays(buf@, i as int + 1, 64);
                    }
                    return Err(e);
                },
            }
            i += 1;
        }
        let iteration = read_u32(bytes, 0x408).unwrap();
        let order = physical_order(bytes);
        let map = ParsedMap { version, iteration, lumps, buf, order };
        proof {
            lemma_decoded_is_wf(map@, buf@);
        }
        Ok(map)
    }
}

/// Tells whether two listings of lumps are the same.
fn same_order(a: &Vec<(u8, u32)>, b: &Vec<(u8, u32)>) -> (r: bool)
    ensures
        r == (a@ == b@),
{
    if a.len() != b.len() {
        return false;
    }
    let mut k: usize = 0;
    while k < a.len()
        invariant
            k <= a@.len(),
            a@.len() == b@.len(),
            forall|j: int| 0 <= j < k ==> a@[j] == b@[j],
        decreases a@.len() - k,
    {
        if a[k].0 != b[k].0 || a[k].1 != b[k].1 {
            return false;
        }
        k += 1;
    }
    assert(a@ =~= b@);
    true
}

impl ParsedMap {
    /// Tells whether the map is well formed: whether it still is as a map
    /// that was decoded, but for the text of its entities and for what the
    /// caller notes on the entries of its archive.
    pub fn is_well_formed(&self) -> (r: bool)
        ensures
            r == self@.wf(),
    {
        let buf = self.buf.as_slice();
        if buf.len() < 0x40C || self.lumps.len() != 64 {
            return false;
        }
        if self.version != 19 && self.version != 20 && self.version != 21 {
            return false;
        }
        let mut i: usize = 0;
        while i < 64
            invariant
                i <= 64,
                buf@ == self.buf@,
                buf@.len() >= 0x40C,
                self.lumps@.len() == 64,
                forall|k: int|
                    0 <= k < i ==> (#[trigger] self@.lumps[k]).base() == record_at(self@.buf, k)
                        && self@.lumps[k].base().fits(self@.buf.len()),
                i > 0 ==> self@.lumps[0] is Entities,
                i > 40 ==> self@.lumps[40] is PakFile,
                forall|k: int| 0 <= k < i && k != 0 && k != 40 ==> #[trigger] self@.lumps[k] is Unknown,
            decreases 64 - i,
        {
            assert(self@.lumps[i as int] == self.lumps@[i as int]@);
            let base = crate::patch::lump_base(&self.lumps[i]);
            let kind_ok = match &self.lumps[i] {
                BSPLump::Entities(_) => i == 0,
                BSPLump::PakFile(_) => i == 40,
                BSPLump::Unknown(_) => i != 0 && i != 40,
                BSPLump::Empty => false,
            };
            if !kind_ok || base != read_record(buf, i) || base.data(buf).is_none() {
                return false;
            }
            i += 1;
        }
        assert(self@.lumps[40] == self.lumps@[40]@);
        match &self.lumps[40] {
            BSPLump::PakFile(p) => {
                let size = p.base.size as u64;
                let mut k: usize = 0;
                while k < p.files.len()
                    invariant
                        k <= p.files@.len(),
                        size == p.base.size,
                        self@.lumps.len() == 64,
                        self@.lumps[40] == LumpView::PakFile(p.base, file_views(p.files@)),
                        forall|j: int|
                            0 <= j < k ==> (#[trigger] file_views(p.files@)[j]).fits(size as nat),
                    decreases p.files@.len() - k,
                {
                    let f = &p.files[k];
                    assert(file_views(p.files@)[k as int] == f@);
                    if f.name.0 as u64 + f.name.1 as u64 > size || f.data.0 as u64 + f.data.1 as u64
                        > size {
                        assert(!self@.lumps[40]->PakFile_1[k as int].fits(
                            self@.lumps[40].base().size as nat,
                        ));
                        return false;
                    }
                    k += 1;
                }
            },
            _ => {
                return false;
            },
        }
        let order = physical_order(buf);
        let r = same_order(&self.order, &order);
        proof {
            if !r && is_physical_order(self.order@, buf@, 64) {
                crate::directory::lemma_physical_order_is_unique(self.order@, order@, buf@, 64);
            }
        }
        r
    }
}

/// The magic and the version decide first: a buffer with another magic is
/// refused with the magic read, one with the right magic and another version
/// with the version read; and what decodes has the version that was read.
pub proof fn lemma_magic_and_version_decide(buf: Seq<u8>)
    requires
        buf.len() >= 8,
    ensures
        u32_at(buf, 0) != 0x5053_4256 ==> decode_error(buf) == Some(
            BSPError::InvalidHeader(u32_at(buf, 0) as u32),
        ),
        u32_at(buf, 0) == 0x5053_4256 && !version_supported(u32_at(buf, 4)) ==> decode_error(buf)
            == Some(BSPError::InvalidVersion(u32_at(buf, 4) as u32)),
        decode_error(buf) is None ==> u32_at(buf, 0) == 0x5053_4256 && version_supported(
            u32_at(buf, 4),
        ),
        forall|m: MapView| #[trigger] m.decodes(buf) ==> m.version == u32_at(buf, 4),
        u32_at(buf, 0) == 0x5053_4256 && version_supported(u32_at(buf, 4)) && buf.len() >= 0x40C
            && lumps_upto(buf, 64) is Ok ==> decode_error(buf) is None,
{
}

/// Once a slot fails, decoding more slots fails with the same error.
pub proof fn lemma_error_stays(buf: Seq<u8>, n: int, m: int)
    requires
        0 <= n <= m,
        lumps_upto(buf, n) is Err,
    ensures
        lumps_upto(buf, m) == lumps_upto(buf, n),
    decreases m - n,
{
    if n < m {
        lemma_error_stays(buf, n, m - 1);
    }
}

} // verus!
