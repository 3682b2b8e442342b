//! ZIP archives built in memory with the `zip` crate.
//!
//! An archive is seen through the entries written to it so far: each has a
//! name and the bytes written to it. The bytes of a finished archive are a
//! function of its entries, as the writer below uses fixed entry options.
use vstd::prelude::*;

use std::io::{Cursor, Write};

use zip::result::ZipError;
use zip::write::SimpleFileOptions;
use zip::ZipWriter;

verus! {

#[verifier::external_type_specification]
#[verifier::external_body]
pub struct ExZipError(ZipError);

#[verifier::external_type_specification]
#[verifier::external_body]
pub struct ExIoError(std::io::Error);

/// A ZIP archive being written into memory. The writer is held in a private
/// field because its type is bounded by I/O traits that cannot be declared
/// to the verifier.
#[verifier::external_body]
pub struct Archive {
    writer: ZipWriter<Cursor<Vec<u8>>>,
}

/// The entries written so far to an archive: names and contents, in the
/// order they were started.
pub uninterp spec fn archive_entries(archive: Archive) -> Seq<(Seq<char>, Seq<u8>)>;

/// Whether the writer has an entry started and open for its data.
pub uninterp spec fn archive_writing(archive: Archive) -> bool;

/// An entry name short enough for the writer: its UTF-8 bytes must fit the
/// 16-bit length field of an entry header.
pub open spec fn name_fits(name: Seq<char>) -> bool {
    vstd::utf8::encode_utf8(name).len() <= 0xffff
}

/// An entry small enough for the writer without its ZIP64 extensions. The
/// writer refuses an entry whose data or compressed data passes 4 GiB; below
/// 2 GiB of data the compressed data stays under that mark as well.
pub open spec fn entry_fits(data: Seq<u8>) -> bool {
    data.len() < 0x8000_0000
}

/// No entry of `entries` is named `name`.
pub open spec fn name_is_new(entries: Seq<(Seq<char>, Seq<u8>)>, name: Seq<char>) -> bool {
    forall|j: int| 0 <= j < entries.len() ==> (#[trigger] entries[j]).0 != name
}

/// The bytes of the finished archive that holds `entries`, each stored with
/// the default entry options and written in one piece.
pub uninterp spec fn archive_bytes(entries: Seq<(Seq<char>, Seq<u8>)>) -> Seq<u8>;

/// `ZipWriter::new` over an empty in-memory buffer. Claimed: the new archive
/// has no entry.
#[verifier::external_body]
pub(crate) fn new_archive() -> (archive: Archive)
    ensures
        archive_entries(archive) == Seq::<(Seq<char>, Seq<u8>)>::empty(),
{
    Archive { writer: ZipWriter::new(Cursor::new(Vec::new())) }
}

/// `ZipWriter::start_file` with `SimpleFileOptions::default()`, on the
/// in-memory buffer. A name longer than the 16-bit length field makes the
/// writer panic, so it is left out. Claimed: on success the archive has one
/// more entry, named `name` and still empty, and that entry is open for its
/// data. The call first finishes the entry before it, which fails only when
/// that entry is too large, and then fails only for a name already taken, so
/// it succeeds for a new name after an entry that fits. Nothing is claimed of
/// the archive after a failure.
#[verifier::external_body]
pub(crate) fn start_entry(archive: &mut Archive, name: &str) -> (res: Result<(), ZipError>)
    requires
        name_fits(name@),
    ensures
        res is Ok ==> archive_entries(*final(archive)) == archive_entries(*old(archive)).push(
            (name@, Seq::<u8>::empty()),
        ),
        res is Ok ==> archive_writing(*final(archive)),
        name_is_new(archive_entries(*old(archive)), name@) && (archive_entries(*old(archive)).len()
            == 0 || entry_fits(archive_entries(*old(archive)).last().1)) ==> res is Ok,
{
    archive.writer.start_file(name, SimpleFileOptions::default())
}

/// `Write::write_all` on the archive, once for an entry that has just been
/// started. Claimed: on success the last entry holds `data`; the in-memory
/// buffer takes every write, so the call succeeds when an entry is open and
/// `data` fits. Nothing is claimed of the archive after a failure.
#[verifier::external_body]
pub(crate) fn write_entry(archive: &mut Archive, data: &[u8]) -> (res: Result<(), std::io::Error>)
    requires
        archive_entries(*old(archive)).len() > 0,
        archive_entries(*old(archive)).last().1.len() == 0,
    ensures
        res is Ok ==> archive_entries(*final(archive)) == archive_entries(*old(archive)).update(
            archive_entries(*old(archive)).len() - 1,
            (archive_entries(*old(archive)).last().0, data@),
        ),
        archive_writing(*old(archive)) && entry_fits(data@) ==> res is Ok,
{
    archive.writer.write_all(data)
}

/// `ZipWriter::finish`, then the buffer's contents. Claimed: on success the
/// bytes of the archive that holds the writer's entries. Finishing the last
/// entry fails only when it is too large, and writing the directory to the
/// in-memory buffer does not fail, so the call succeeds when the last entry
/// fits.
#[verifier::external_body]
pub(crate) fn finish_archive(archive: Archive) -> (res: Result<Vec<u8>, ZipError>)
    ensures
        res matches Ok(bytes) ==> bytes@ == archive_bytes(archive_entries(archive)),
        archive_entries(archive).len() == 0 || entry_fits(archive_entries(archive).last().1)
            ==> res is Ok,
{
    match archive.writer.finish() {
        Ok(cursor) => Ok(cursor.into_inner()),
        Err(e) => Err(e),
    }
}

} // verus!
