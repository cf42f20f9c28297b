//! Re-encoding the entity lump from edited records.

use vstd::prelude::*;
use vstd::utf8::encode_utf8;
use crate::bsp::BSPError;
use crate::bytes::{push_u32, u32_bytes, u64_at};
use crate::kv::Entity;
use crate::lzma::lzma_pack;

verus! {

/// Compression level at which edited entity text is packed.
pub const ENTITY_LEVEL: i32 = 6;

/// The bytes of the text of each record.
pub open spec fn entity_texts(entities: Seq<Entity>) -> Seq<Seq<u8>> {
    Seq::new(entities.len(), |i: int| encode_utf8(entities[i].string@))
}

/// Some record is marked as edited.
pub open spec fn any_dirty(entities: Seq<Entity>) -> bool {
    exists|i: int| 0 <= i < entities.len() && (#[trigger] entities[i]).dirty
}

/// The first `n` texts with a newline between each two.
pub open spec fn joined(texts: Seq<Seq<u8>>, n: int) -> Seq<u8>
    decreases n,
{
    if n <= 0 {
        Seq::empty()
    } else if n == 1 {
        texts[0]
    } else {
        joined(texts, n - 1) + seq![0x0Au8] + texts[n - 1]
    }
}

/// The plain form of the entity lump: the texts with a newline between each
/// two, then a newline and a NUL.
pub open spec fn plain_lump(texts: Seq<Seq<u8>>) -> Seq<u8> {
    joined(texts, texts.len() as int) + seq![0x0Au8, 0x00u8]
}

/// The compressed form of the entity lump, made of the length of the text and
/// of what the encoder gave for it: the marker, the length of the text, the
/// length of the packed stream, the five property bytes and the stream. The
/// eight bytes in which the encoder repeats the length are left out.
pub open spec fn framed(text_len: int, packed: Seq<u8>) -> Seq<u8>
    recommends
        packed.len() >= 13,
{
    seq![0x4Cu8, 0x5A, 0x4D, 0x41] + u32_bytes(text_len) + u32_bytes(packed.len() - 13)
        + packed.subrange(0, 5) + packed.subrange(13, packed.len() as int)
}

/// Tells whether some record is marked as edited.
pub fn has_dirty(entities: &Vec<Entity>) -> (r: bool)
    ensures
        r == any_dirty(entities@),
{
    let mut i: usize = 0;
    while i < entities.len()
        invariant
            i <= entities@.len(),
            forall|k: int| 0 <= k < i ==> !(#[trigger] entities@[k]).dirty,
        decreases entities@.len() - i,
    {
        if entities[i].dirty {
            return true;
        }
        i += 1;
    }
    false
}

/// Appends `src` to `out`.
pub fn push_all(out: &mut Vec<u8>, src: &[u8])
    ensures
        final(out)@ == old(out)@ + src@,
{
    let ghost before = out@;
    let mut i: usize = 0;
    while i < src.len()
        invariant
            i <= src@.len(),
            out@ == before + src@.subrange(0, i as int),
        decreases src@.len() - i,
    {
        out.push(src[i]);
        assert(out@ =~= before + src@.subrange(0, i + 1));
        i += 1;
    }
    assert(src@.subrange(0, src@.len() as int) =~= src@);
}

/// The text of the records with a newline between each two.
pub fn join_entities(entities: &Vec<Entity>) -> (r: Vec<u8>)
    ensures
        r@ == joined(entity_texts(entities@), entities@.len() as int),
{
    let ghost texts = entity_texts(entities@);
    let mut out: Vec<u8> = Vec::new();
    let mut i: usize = 0;
    while i < entities.len()
        invariant
            i <= entities@.len(),
            texts == entity_texts(entities@),
            out@ == joined(texts, i as int),
        decreases entities@.len() - i,
    {
        if i > 0 {
            out.push(0x0A);
        }
        let ghost before = out@;
        push_all(&mut out, entities[i].string.as_str().as_bytes());
        proof {
            assert(texts[i as int] == encode_utf8(entities@[i as int].string@));
            if i > 0 {
                assert(before =~= joined(texts, i as int) + seq![0x0Au8]);
            } else {
                assert(out@ =~= texts[0]);
            }
        }
        i += 1;
    }
    out
}

/// The plain form of the entity lump for the given records.
pub fn plain_entity_lump(entities: &Vec<Entity>) -> (r: Vec<u8>)
    ensures
        r@ == plain_lump(entity_texts(entities@)),
{
    let mut out = join_entities(entities);
    let ghost text = out@;
    out.push(0x0A);
    out.push(0x00);
    assert(out@ =~= text + seq![0x0Au8, 0x00u8]);
    out
}

/// Frames what the encoder gave for a text of `text_len` bytes as a
/// compressed entity lump; `None` where `packed` is shorter than the
/// encoder's own header or its stream is too long for the length field.
pub fn frame_compressed(text_len: u32, packed: &[u8]) -> (r: Option<Vec<u8>>)
    ensures
        r is Some <==> 13 <= packed@.len() <= 13 + u32::MAX,
        r matches Some(v) ==> v@ == framed(text_len as int, packed@),
{
    let len = packed.len();
    if len < 13 || len - 13 > u32::MAX as usize {
        return None;
    }
    let mut out: Vec<u8> = Vec::new();
    out.push(0x4C);
    out.push(0x5A);
    out.push(0x4D);
    out.push(0x41);
    assert(out@ =~= seq![0x4Cu8, 0x5A, 0x4D, 0x41]);
    push_u32(&mut out, text_len);
    push_u32(&mut out, (len - 13) as u32);
    push_all(&mut out, vstd::slice::slice_subrange(packed, 0, 5));
    push_all(&mut out, vstd::slice::slice_subrange(packed, 13, len));
    Some(out)
}

/// What the entity lump of a map may be re-encoded to.
///
/// With no record edited it is the lump as it lies in the buffer, byte for
/// byte. With a
/// record edited and a lump whose fourth directory field is zero it is the
/// plain form of the records. Otherwise it is the compressed form of the
/// plain form, for whatever the encoder gives with the length of the plain
/// form behind its property bytes; no plain form of more bytes than a `u32`
/// counts is compressed.
pub open spec fn entity_encoding(
    window: Seq<u8>,
    four: u32,
    entities: Seq<Entity>,
    r: Result<Seq<u8>, BSPError>,
) -> bool {
    let plain = plain_lump(entity_texts(entities));
    if !any_dirty(entities) {
        r == Ok::<Seq<u8>, BSPError>(window)
    } else if four == 0 {
        r == Ok::<Seq<u8>, BSPError>(plain)
    } else if plain.len() > u32::MAX {
        r == Err::<Seq<u8>, BSPError>(BSPError::LumpOverflow(0))
    } else {
        match r {
            Ok(v) => exists|packed: Seq<u8>|
                13 <= packed.len() <= 13 + u32::MAX && u64_at(packed, 5) == plain.len() && v
                    == #[trigger] framed(plain.len() as int, packed),
            Err(e) => e == BSPError::EncodeFailed(0),
        }
    }
}

/// Re-encodes the entity lump: `window` holds the lump as it lies in the
/// buffer, `four` the
/// fourth field of its directory record.
pub fn encode_entities(window: &[u8], four: u32, entities: &Vec<Entity>) -> (r: Result<
    Vec<u8>,
    BSPError,
>)
    ensures
        entity_encoding(
            window@,
            four,
            entities@,
            crate::bsp::bytes_result(r),
        ),
{
    if !has_dirty(entities) {
        return Ok(vstd::slice::slice_to_vec(window));
    }
    let plain = plain_entity_lump(entities);
    if four == 0 {
        return Ok(plain);
    }
    if plain.len() > u32::MAX as usize {
        return Err(BSPError::LumpOverflow(0));
    }
    match lzma_pack(plain.as_slice(), ENTITY_LEVEL) {
        Ok(packed) => match frame_compressed(plain.len() as u32, packed.as_slice()) {
            Some(v) => Ok(v),
            None => Err(BSPError::EncodeFailed(0)),
        },
        Err(_) => Err(BSPError::EncodeFailed(0)),
    }
}

} // verus!
