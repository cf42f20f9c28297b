//! Decoder for the entity lump: plain text with one optional trailing NUL, or
//! the same text behind an LZMA header.

use vstd::prelude::*;
use vstd::utf8::{decode_utf8, valid_utf8};
use crate::bsp::BSPError;
use crate::bytes::{read_u32, u32_at};
use crate::lzma::{lzma_unpack, lzma_unpacked};
use crate::text::string_from_bytes;

verus! {

/// The lump begins with the marker `LZMA`.
pub open spec fn has_lzma_magic(w: Seq<u8>) -> bool {
    w.len() >= 4 && w[0] == 0x4C && w[1] == 0x5A && w[2] == 0x4D && w[3] == 0x41
}

/// Tells whether the lump begins with the marker `LZMA`.
pub fn is_compressed(w: &[u8]) -> (r: bool)
    ensures
        r == has_lzma_magic(w@),
{
    w.len() >= 4 && w[0] == 0x4C && w[1] == 0x5A && w[2] == 0x4D && w[3] == 0x41
}

/// The bytes of the text that the lump `w` holds.
///
/// A compressed lump gives what the stream after its header unpacks to, and
/// only if that has the declared length; a plain lump gives its own bytes
/// without one trailing NUL.
pub open spec fn entity_bytes(w: Seq<u8>) -> Result<Seq<u8>, BSPError> {
    if has_lzma_magic(w) {
        if w.len() < 12 {
            Err(BSPError::InvalidEntities(4))
        } else {
            match lzma_unpacked(w.subrange(12, w.len() as int), u32_at(w, 4) as u32) {
                Some(t) => if t.len() == u32_at(w, 4) {
                    Ok(t)
                } else {
                    Err(BSPError::InvalidEntities(12))
                },
                None => Err(BSPError::InvalidEntities(12)),
            }
        }
    } else if w.len() > 0 && w.last() == 0 {
        Ok(w.drop_last())
    } else {
        Ok(w)
    }
}

/// The text that the lump `w` holds, or the error that decoding it ends in.
pub open spec fn entity_text(w: Seq<u8>) -> Result<Seq<char>, BSPError> {
    match entity_bytes(w) {
        Ok(b) => if valid_utf8(b) {
            Ok(decode_utf8(b))
        } else {
            Err(BSPError::InvalidEntities(0))
        },
        Err(e) => Err(e),
    }
}

/// Decodes the bytes of the entity lump into the bytes of its text.
pub fn decode_entity_bytes(w: &[u8]) -> (r: Result<Vec<u8>, BSPError>)
    ensures
        match r {
            Ok(b) => entity_bytes(w@) == Ok::<Seq<u8>, BSPError>(b@),
            Err(e) => entity_bytes(w@) == Err::<Seq<u8>, BSPError>(e),
        },
{
    let len = w.len();
    if is_compressed(w) {
        if len < 12 {
            return Err(BSPError::InvalidEntities(4));
        }
        let size = read_u32(w, 4).unwrap();
        let stream = vstd::slice::slice_subrange(w, 12, len);
        match lzma_unpack(stream, size) {
            Ok(t) => {
                if t.len() != size as usize {
                    return Err(BSPError::InvalidEntities(12));
                }
                Ok(t)
            },
            Err(_) => Err(BSPError::InvalidEntities(12)),
        }
    } else if len > 0 && w[len - 1] == 0 {
        Ok(vstd::slice::slice_to_vec(vstd::slice::slice_subrange(w, 0, len - 1)))
    } else {
        Ok(vstd::slice::slice_to_vec(w))
    }
}

/// Decodes the bytes of the entity lump into its text.
pub fn decode_entities(w: &[u8]) -> (r: Result<String, BSPError>)
    ensures
        match r {
            Ok(s) => entity_text(w@) == Ok::<Seq<char>, BSPError>(s@),
            Err(e) => entity_text(w@) == Err::<Seq<char>, BSPError>(e),
        },
{
    match decode_entity_bytes(w) {
        Ok(b) => match string_from_bytes(b) {
            Some(s) => Ok(s),
            None => Err(BSPError::InvalidEntities(0)),
        },
        Err(e) => Err(e),
    }
}

/// The text of a compressed lump that decodes is spelled by exactly as many
/// bytes as its header declares.
pub proof fn lemma_compressed_text_length(w: Seq<u8>)
    requires
        has_lzma_magic(w),
        entity_text(w) is Ok,
    ensures
        vstd::utf8::encode_utf8(entity_text(w)->Ok_0).len() == u32_at(w, 4),
{
    vstd::utf8::decode_utf8_encode_utf8(entity_bytes(w)->Ok_0);
}

} // verus!
