//! The data model of a decoded map.

use vstd::prelude::*;
use crate::blacklist::{BlacklistReason, ReasonView};

verus! {

/// Why a map could not be decoded or saved.
#[derive(Debug, Clone, Copy, PartialEq, Eq, Structural)]
pub enum BSPError {
    /// The first four bytes are not the container tag; holds what was read.
    InvalidHeader(u32),
    /// The version is not 19, 20 or 21; holds what was read.
    InvalidVersion(u32),
    /// The archive lump is malformed at this offset inside the lump.
    InvalidPakFile(u32),
    /// The buffer ends inside the fixed header; holds the buffer's length.
    TruncatedHeader(u32),
    /// The byte range of the lump with this index leaves the buffer.
    LumpOutOfBounds(u32),
    /// The entity lump cannot be decoded at this offset inside the lump.
    InvalidEntities(u32),
    /// The re-encoded lump with this index is larger than the range that the
    /// directory gives it.
    LumpOverflow(u32),
    /// The lump with this index could not be re-encoded: the codec or the
    /// archive writer failed.
    EncodeFailed(u32),
}

/// One record of the lump directory.
#[derive(Debug, Clone, Copy, PartialEq, Eq, Structural)]
pub struct BasicLump {
    pub offset: u32,
    pub size: u32,
    pub version: u32,
    /// Fourth field of the record, kept as read.
    pub four: u32,
}

impl BasicLump {
    /// The lump's byte range lies inside a buffer of `len` bytes.
    pub open spec fn fits(&self, len: nat) -> bool {
        self.offset + self.size <= len
    }

    /// The bytes of the lump inside `buf`.
    pub open spec fn window(&self, buf: Seq<u8>) -> Seq<u8>
        recommends
            self.fits(buf.len()),
    {
        buf.subrange(self.offset as int, self.offset + self.size)
    }

    /// The lump's bytes inside `buf`, or `None` when its range leaves `buf`.
    pub fn data<'a>(&self, buf: &'a [u8]) -> (r: Option<&'a [u8]>)
        ensures
            r is Some <==> self.fits(buf@.len()),
            r matches Some(w) ==> w@ == self.window(buf@),
    {
        let start = self.offset as usize;
        let len = self.size as usize;
        if start > buf.len() || len > buf.len() - start {
            return None;
        }
        Some(vstd::slice::slice_subrange(buf, start, start + len))
    }
}

/// The entity lump with its decoded text.
#[derive(Debug, Clone, PartialEq)]
pub struct EntityLump {
    pub base: BasicLump,
    pub string: String,
}

/// How an archive entry is stored.
#[derive(Debug, Clone, Copy, PartialEq, Eq, Structural)]
pub enum PakAlgo {
    /// Stored as it is.
    Store,
    /// LZMA, with the compressed and the decompressed size.
    LZMA(u32, u32),
}

/// One entry of the archive lump. The ranges are (offset, length) pairs
/// inside the archive lump's own bytes.
#[derive(Debug, PartialEq)]
pub struct PakFile {
    pub name: (u32, u32),
    pub data: (u32, u32),
    /// The decompressed bytes of an LZMA entry.
    pub real_data: Option<Vec<u8>>,
    pub compression_algo: PakAlgo,
    /// Set by the caller to leave the entry out when the map is saved.
    pub remove: bool,
    /// Set by the caller from the blacklist.
    pub blacklisted: Option<BlacklistReason>,
}

/// A `PakFile` as a mathematical value.
pub struct PakFileView {
    pub name: (u32, u32),
    pub data: (u32, u32),
    pub real_data: Option<Seq<u8>>,
    pub compression_algo: PakAlgo,
    pub remove: bool,
    pub blacklisted: Option<ReasonView>,
}

impl View for PakFile {
    type V = PakFileView;

    open spec fn view(&self) -> PakFileView {
        PakFileView {
            name: self.name,
            data: self.data,
            real_data: match self.real_data {
                Some(v) => Some(v@),
                None => None,
            },
            compression_algo: self.compression_algo,
            remove: self.remove,
            blacklisted: match self.blacklisted {
                Some(r) => Some(r@),
                None => None,
            },
        }
    }
}

impl PakFileView {
    /// Both ranges lie inside an archive of `len` bytes.
    pub open spec fn fits(&self, len: nat) -> bool {
        &&& self.name.0 + self.name.1 <= len
        &&& self.data.0 + self.data.1 <= len
    }

    /// The bytes of the entry's name inside the archive `pak`.
    pub open spec fn name_bytes(&self, pak: Seq<u8>) -> Seq<u8>
        recommends
            self.name.0 + self.name.1 <= pak.len(),
    {
        pak.subrange(self.name.0 as int, self.name.0 + self.name.1)
    }

    /// The bytes stored for the entry inside the archive `pak`.
    pub open spec fn stored_bytes(&self, pak: Seq<u8>) -> Seq<u8>
        recommends
            self.data.0 + self.data.1 <= pak.len(),
    {
        pak.subrange(self.data.0 as int, self.data.0 + self.data.1)
    }

    /// The entry's content: the decompressed bytes where it holds them, else
    /// the stored bytes.
    pub open spec fn content(&self, pak: Seq<u8>) -> Seq<u8> {
        match self.real_data {
            Some(d) => d,
            None => self.stored_bytes(pak),
        }
    }
}

/// A result that holds bytes, with the bytes as a sequence.
pub open spec fn bytes_result(r: Result<Vec<u8>, BSPError>) -> Result<Seq<u8>, BSPError> {
    match r {
        Ok(v) => Ok(v@),
        Err(e) => Err(e),
    }
}

/// Cuts `(offset, length)` out of `buf`, or `None` when the range leaves it.
pub fn slice_range<'a>(buf: &'a [u8], range: (u32, u32)) -> (r: Option<&'a [u8]>)
    ensures
        r is Some <==> range.0 + range.1 <= buf@.len(),
        r matches Some(w) ==> w@ == buf@.subrange(range.0 as int, range.0 + range.1),
{
    let start = range.0 as usize;
    let len = range.1 as usize;
    if start > buf.len() || len > buf.len() - start {
        return None;
    }
    Some(vstd::slice::slice_subrange(buf, start, start + len))
}

impl Clone for PakFile {
    fn clone(&self) -> (r: Self)
        ensures
            r@ == self@,
    {
        let real_data = match &self.real_data {
            Some(d) => Some(d.clone()),
            None => None,
        };
        let blacklisted = match &self.blacklisted {
            Some(b) => Some(b.clone()),
            None => None,
        };
        PakFile {
            name: (self.name.0, self.name.1),
            data: (self.data.0, self.data.1),
            real_data,
            compression_algo: self.compression_algo,
            remove: self.remove,
            blacklisted,
        }
    }
}

impl PakFile {
    /// The entry's content: its decompressed bytes where it holds them, else
    /// its stored bytes inside the archive `pak`; `None` when those are
    /// needed and the range leaves `pak`.
    pub fn data<'a>(&'a self, pak: &'a [u8]) -> (r: Option<&'a [u8]>)
        ensures
            r is Some <==> (self@.real_data is Some || self.data.0 + self.data.1 <= pak@.len()),
            r matches Some(d) ==> d@ == self@.content(pak@),
    {
        match &self.real_data {
            Some(d) => Some(d.as_slice()),
            None => slice_range(pak, self.data),
        }
    }

    /// The entry's name inside the archive `pak`; `None` when the range
    /// leaves `pak` or the bytes in it are not UTF-8.
    pub fn name<'a>(&self, pak: &'a [u8]) -> (r: Option<&'a str>)
        ensures
            r is Some <==> self.name.0 + self.name.1 <= pak@.len() && vstd::utf8::valid_utf8(
                self@.name_bytes(pak@),
            ),
            r matches Some(n) ==> vstd::utf8::encode_utf8(n@) == self@.name_bytes(pak@) && n@
                == crate::text::text_of(self@.name_bytes(pak@)),
    {
        match slice_range(pak, self.name) {
            Some(bytes) => crate::text::str_from_bytes(bytes),
            None => None,
        }
    }

    /// The bytes of the entry's name inside the archive `pak`; `None` when
    /// the range leaves `pak`.
    pub fn name_bytes<'a>(&self, pak: &'a [u8]) -> (r: Option<&'a [u8]>)
        ensures
            r is Some <==> self.name.0 + self.name.1 <= pak@.len(),
            r matches Some(n) ==> n@ == self@.name_bytes(pak@),
    {
        slice_range(pak, self.name)
    }
}

/// The archive lump with its entries in the order they were met.
#[derive(Debug, Clone, PartialEq)]
pub struct PakFileLump {
    pub base: BasicLump,
    pub files: Vec<PakFile>,
}

/// The entries of an archive as mathematical values.
pub open spec fn file_views(files: Seq<PakFile>) -> Seq<PakFileView> {
    Seq::new(files.len(), |i: int| files[i]@)
}

impl PakFileLump {
    /// The archive's bytes inside the whole buffer `buf`, or `None` when the
    /// lump's range leaves `buf`.
    pub fn data<'a>(&self, buf: &'a [u8]) -> (r: Option<&'a [u8]>)
        ensures
            r is Some <==> self.base.fits(buf@.len()),
            r matches Some(w) ==> w@ == self.base.window(buf@),
    {
        self.base.data(buf)
    }
}

/// One slot of the lump directory.
#[derive(Debug, Clone, PartialEq)]
pub enum BSPLump {
    Entities(EntityLump),
    PakFile(PakFileLump),
    Unknown(BasicLump),
    Empty,
}

/// A `BSPLump` as a mathematical value.
pub enum LumpView {
    Entities(BasicLump, Seq<char>),
    PakFile(BasicLump, Seq<PakFileView>),
    Unknown(BasicLump),
    Empty,
}

impl View for BSPLump {
    type V = LumpView;

    open spec fn view(&self) -> LumpView {
        match *self {
            BSPLump::Entities(e) => LumpView::Entities(e.base, e.string@),
            BSPLump::PakFile(p) => LumpView::PakFile(p.base, file_views(p.files@)),
            BSPLump::Unknown(b) => LumpView::Unknown(b),
            BSPLump::Empty => LumpView::Empty,
        }
    }
}

/// The slots of a directory as mathematical values.
pub open spec fn lump_views(lumps: Seq<BSPLump>) -> Seq<LumpView> {
    Seq::new(lumps.len(), |i: int| lumps[i]@)
}

impl LumpView {
    /// The directory record behind the slot; all zero for an empty slot.
    pub open spec fn base(&self) -> BasicLump {
        match *self {
            LumpView::Entities(b, _) => b,
            LumpView::PakFile(b, _) => b,
            LumpView::Unknown(b) => b,
            LumpView::Empty => BasicLump { offset: 0, size: 0, version: 0, four: 0 },
        }
    }
}

/// A decoded map: the header fields, the 64 slots of the directory, the
/// buffer it was decoded from, and the lumps in the order they lie in it.
#[derive(Debug, Clone, PartialEq)]
pub struct ParsedMap {
    pub version: u32,
    pub iteration: u32,
    /// The 64 slots of the directory, by index.
    pub lumps: Vec<BSPLump>,
    pub buf: Vec<u8>,
    /// Pairs of lump index and offset, by ascending offset.
    pub order: Vec<(u8, u32)>,
}

/// A `ParsedMap` as a mathematical value.
pub struct MapView {
    pub version: u32,
    pub iteration: u32,
    pub lumps: Seq<LumpView>,
    pub buf: Seq<u8>,
    pub order: Seq<(u8, u32)>,
}

impl View for ParsedMap {
    type V = MapView;

    open spec fn view(&self) -> MapView {
        MapView {
            version: self.version,
            iteration: self.iteration,
            lumps: lump_views(self.lumps@),
            buf: self.buf@,
            order: self.order@,
        }
    }
}

} // verus!
