//! The archive writer of the `zip` crate, behind trusted contracts.
//!
//! A file in the writer is spoken of as four values: its name, the number of
//! its compression method, its permissions, and the bytes written into it.

use vstd::prelude::*;

verus! {

/// The largest number of bytes that the writer takes for one file.
pub const FILE_LIMIT: usize = 0xFFFF_FFFF;

/// A `zip::ZipWriter` over an in-memory buffer. The verifier does not look
/// inside: what it holds is spoken of through `written` and `is_open`.
#[verifier::external_body]
pub struct StoreWriter {
    inner: zip::ZipWriter<std::io::Cursor<Vec<u8>>>,
}

#[verifier::external_type_specification]
#[verifier::external_body]
pub struct ExZipError(zip::result::ZipError);

#[verifier::external_type_specification]
#[verifier::external_body]
pub struct ExIoError(std::io::Error);

/// The files that were handed to the writer so far, in the order in which
/// they were started.
pub uninterp spec fn written(w: StoreWriter) -> Seq<(Seq<char>, u16, u32, Seq<u8>)>;

/// The writer still takes files and bytes: it was not finished, and no call
/// on it has failed.
pub uninterp spec fn is_open(w: StoreWriter) -> bool;

/// The bytes of the archive that the writer makes of `files`: the local
/// entries of the files in their order, followed by the central directory.
pub uninterp spec fn stored_archive(files: Seq<(Seq<char>, u16, u32, Seq<u8>)>) -> Seq<u8>;

/// `zip::ZipWriter::new` over an empty in-memory buffer.
///
/// Trusted: the new writer is open and holds no file.
#[verifier::external_body]
pub(crate) fn writer_new() -> (w: StoreWriter)
    ensures
        is_open(w),
        written(w) == Seq::<(Seq<char>, u16, u32, Seq<u8>)>::empty(),
{
    StoreWriter { inner: zip::ZipWriter::new(std::io::Cursor::new(Vec::new())) }
}

/// `zip::ZipWriter::start_file` with the given compression method and
/// permissions and every other option at its default.
///
/// Trusted: an open writer starts a file of method 0, stored as it is, without
/// fail. On success the writer stays open and holds one more file, with the
/// given name, method and permissions, and empty. Nothing is claimed of the
/// writer after a failure.
#[verifier::external_body]
pub(crate) fn writer_start_file(w: &mut StoreWriter, name: &str, method: u16, permissions: u32) -> (r:
    Result<(), zip::result::ZipError>)
    ensures
        is_open(*old(w)) && method == 0 ==> r is Ok,
        r is Ok ==> is_open(*final(w)) && written(*final(w)) == written(*old(w)).push(
            (name@, method, permissions, Seq::<u8>::empty()),
        ),
{
    #[allow(deprecated)]
    let options = zip::write::FileOptions::default()
        .compression_method(zip::CompressionMethod::from_u16(method))
        .unix_permissions(permissions);
    w.inner.start_file(name, options)
}

/// `std::io::Write::write_all` on an open writer that holds a file.
///
/// Trusted: the call succeeds exactly where the file that was started last
/// stays at or under 0xFFFF_FFFF bytes. On success the writer stays open and
/// `data` is appended to that file. Nothing is claimed of the writer after a
/// failure.
#[verifier::external_body]
pub(crate) fn writer_write_all(w: &mut StoreWriter, data: &[u8]) -> (r: Result<(), std::io::Error>)
    requires
        is_open(*old(w)),
        written(*old(w)).len() > 0,
    ensures
        r is Ok <==> written(*old(w)).last().3.len() + data@.len() <= 0xFFFF_FFFF,
        r is Ok ==> is_open(*final(w)) && written(*final(w)) == written(*old(w)).update(
            written(*old(w)).len() - 1,
            (
                written(*old(w)).last().0,
                written(*old(w)).last().1,
                written(*old(w)).last().2,
                written(*old(w)).last().3 + data@,
            ),
        ),
{
    std::io::Write::write_all(&mut w.inner, data)
}

/// `zip::ZipWriter::finish`, and the buffer taken out of the cursor it
/// returns.
///
/// Trusted: an open writer finishes without fail. On success the bytes are
/// the archive of the files that the writer held, which depends on nothing
/// but those files.
#[verifier::external_body]
pub(crate) fn writer_finish(w: &mut StoreWriter) -> (r: Result<Vec<u8>, zip::result::ZipError>)
    ensures
        is_open(*old(w)) ==> r is Ok,
        r matches Ok(v) ==> v@ == stored_archive(written(*old(w))),
{
    match w.inner.finish() {
        Ok(cursor) => Ok(cursor.into_inner()),
        Err(e) => Err(e),
    }
}

} // verus!
