use vstd::prelude::*;

verus! {

/// The error type of the `zip` crate, carried through unread.
#[verifier::external_type_specification]
#[verifier::external_body]
pub struct ExZipError(zip::result::ZipError);

/// The error type of `std::io`, carried through unread.
#[verifier::external_type_specification]
#[verifier::external_body]
pub struct ExIoError(std::io::Error);

/// A `zip::ZipWriter` over a buffer in memory.
///
/// The writer is reached through the functions of this module only, so that every value of
/// this type was made empty by `archive_new` and filled by `archive_start_file` and
/// `archive_write_all`.
#[verifier::external_body]
pub struct ArchiveWriter {
    writer: zip::ZipWriter<std::io::Cursor<Vec<u8>>>,
}

/// The files that were added to the writer so far, in the order in which they were started:
/// the name of each and the bytes written to it.
pub uninterp spec fn archive_entries(w: ArchiveWriter) -> Seq<(Seq<char>, Seq<u8>)>;

/// The writer can take more: it was not closed by a failure, no file in it holds more than
/// `u32::MAX` bytes, and where it holds a file the last of them is still being written.
pub uninterp spec fn archive_open(w: ArchiveWriter) -> bool;

/// The archive file that `zip::ZipWriter::finish` leaves in the buffer of a writer that
/// holds these files, each stored uncompressed and dated 1980-01-01.
pub uninterp spec fn archive_bytes(entries: Seq<(Seq<char>, Seq<u8>)>) -> Seq<u8>;

/// The files of an archive after `data` was written to the last of them. Where there is no
/// file, nothing changes.
pub open spec fn appended(entries: Seq<(Seq<char>, Seq<u8>)>, data: Seq<u8>) -> Seq<
    (Seq<char>, Seq<u8>),
> {
    if entries.len() == 0 {
        entries
    } else {
        entries.drop_last().push((entries.last().0, entries.last().1 + data))
    }
}

/// A writer over an empty buffer, by `zip::ZipWriter::new`.
///
/// Not proved: that the new writer holds no file and can take more.
#[verifier::external_body]
pub(crate) fn archive_new() -> (w: ArchiveWriter)
    ensures
        archive_entries(w) == Seq::<(Seq<char>, Seq<u8>)>::empty(),
        archive_open(w),
{
    ArchiveWriter { writer: zip::ZipWriter::new(std::io::Cursor::new(Vec::new())) }
}

/// Starts a file in the archive, by `zip::ZipWriter::start_file`, stored without
/// compression and dated 1980-01-01 whatever the clock says.
///
/// Not proved: that on success the writer holds one more file, which has the given name and
/// is empty, after the files it held; and that a writer which can take more never refuses
/// a file and can take more afterwards. After a failure nothing is known of the writer.
#[verifier::external_body]
pub(crate) fn archive_start_file(w: &mut ArchiveWriter, name: &str) -> (out: Result<
    (),
    zip::result::ZipError,
>)
    ensures
        out is Ok ==> archive_entries(*final(w)) == archive_entries(*old(w)).push(
            (name@, Seq::<u8>::empty()),
        ),
        archive_open(*old(w)) ==> out is Ok && archive_open(*final(w)),
{
    let options = zip::write::FileOptions::default()
        .compression_method(zip::CompressionMethod::Stored)
        .last_modified_time(zip::DateTime::default());
    w.writer.start_file(name, options)
}

/// Writes bytes to the file that was started last, by `std::io::Write::write_all` on the
/// writer.
///
/// Not proved: that on success the bytes stand at the end of the last file, all else
/// unchanged. (Before any file is started only an empty write succeeds, and the writer
/// then holds no file as before.) And that a writer which can take more accepts the bytes
/// for its last file exactly where the file then holds at most `u32::MAX` bytes, and can
/// take more after it accepted them. After a failure nothing is known of the writer.
#[verifier::external_body]
pub(crate) fn archive_write_all(w: &mut ArchiveWriter, data: &[u8]) -> (out: Result<
    (),
    std::io::Error,
>)
    ensures
        out is Ok ==> archive_entries(*final(w)) == appended(archive_entries(*old(w)), data@),
        archive_open(*old(w)) && archive_entries(*old(w)).len() > 0 ==> (out is Ok
            <==> archive_entries(*old(w)).last().1.len() + data@.len() <= 0xffff_ffff),
        archive_open(*old(w)) && out is Ok ==> archive_open(*final(w)),
{
    std::io::Write::write_all(&mut w.writer, data)
}

/// Completes the archive, by `zip::ZipWriter::finish`, and hands out the buffer.
///
/// Not proved: that on success the buffer is `archive_bytes` of the files held, which says
/// no more than that the same files in the same order always give the same archive; and
/// that a writer which can take more never fails to complete.
#[verifier::external_body]
pub(crate) fn archive_finish(w: ArchiveWriter) -> (out: Result<Vec<u8>, zip::result::ZipError>)
    ensures
        out matches Ok(bytes) ==> bytes@ == archive_bytes(archive_entries(w)),
        archive_open(w) ==> out is Ok,
{
    let mut w = w;
    Ok(w.writer.finish()?.into_inner())
}

} // verus!
