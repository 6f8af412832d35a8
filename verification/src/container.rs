//! The zip container, written and read in memory by the `zip` crate.
//!
//! Nothing in this file is proved: each function states what the `zip` crate
//! does, and the rest of the library is verified against these statements.

use vstd::prelude::*;
use std::io::Cursor;
use zip::result::ZipError;
use zip::write::FileOptions;
use zip::CompressionMethod;
use zip::ZipArchive;
use zip::ZipWriter;
use crate::extract::Entry;
use crate::extract::EntryView;

verus! {

/// `std::io::Cursor`, carried through without being looked into.
#[verifier::external_type_specification]
#[verifier::external_body]
#[verifier::reject_recursive_types(T)]
pub struct ExCursor<T>(Cursor<T>);

/// `zip::ZipArchive`, a container opened for reading.
#[verifier::external_type_specification]
#[verifier::external_body]
#[verifier::reject_recursive_types(R)]
pub struct ExZipArchive<R>(ZipArchive<R>);

/// A `zip::ZipWriter` that assembles a container in memory.
#[verifier::external_body]
pub struct ArchiveWriter {
    inner: ZipWriter<Cursor<Vec<u8>>>,
}

/// One entry as it was handed to the writer: its name, its settings, and the
/// byte strings written to it, one per write.
pub struct Written {
    pub name: Seq<char>,
    pub method: CompressionMethod,
    pub level: Option<i32>,
    pub permissions: u32,
    pub writes: Seq<Seq<u8>>,
}

/// The entries that the writer has been given so far by calls that
/// succeeded, in order.
pub uninterp spec fn writer_entries(w: ArchiveWriter) -> Seq<Written>;

/// Whether `ZipWriter::start_file` succeeds for `entry` on a writer that
/// holds `held`.
pub uninterp spec fn start_accepted(held: Seq<Written>, entry: Written) -> bool;

/// Whether `write_all` succeeds for `data` on a writer that holds `held`,
/// the last of which is the entry being written.
pub uninterp spec fn write_accepted(held: Seq<Written>, data: Seq<u8>) -> bool;

/// The bytes of the container that `ZipWriter::finish` produces for the
/// given entries, or `None` where it fails. The `zip` crate is used without
/// its `time` feature, so every entry carries the same fixed date and the
/// bytes depend on nothing but the entries.
pub uninterp spec fn archive_bytes(entries: Seq<Written>) -> Option<Seq<u8>>;

/// The entries of an opened container, in stored order, each as reading it
/// returns it; `None` in the place of an entry that cannot be read.
pub uninterp spec fn archive_entries(a: ZipArchive<Cursor<Vec<u8>>>) -> Seq<Option<EntryView>>;

/// The entries of the container that `ZipArchive::new` finds in the bytes,
/// each as reading it returns it, or `None` where the bytes cannot be
/// opened as a container.
pub uninterp spec fn stored_entries(bytes: Seq<u8>) -> Option<Seq<Option<EntryView>>>;

/// The pair of method and level that must not reach the writer: bzip2 at
/// level 0, on which the bzip2 encoder panics.
pub open spec fn is_supported(method: CompressionMethod, level: Option<i32>) -> bool {
    !(method == CompressionMethod::Bzip2 && level == Some(0i32))
}

/// `ZipWriter::new` on an empty buffer: a writer without entries.
#[verifier::external_body]
pub(crate) fn new_writer() -> (w: ArchiveWriter)
    ensures
        writer_entries(w) == Seq::<Written>::empty(),
{
    ArchiveWriter { inner: ZipWriter::new(Cursor::new(Vec::new())) }
}

/// `ZipWriter::start_file` with options built from the arguments. Whether it
/// succeeds depends on what the writer holds and on the new entry. On
/// success the writer has one more entry, with this name and these settings
/// and nothing written to it yet; of the permissions the low nine bits are
/// kept.
#[verifier::external_body]
pub(crate) fn start_file(
    w: &mut ArchiveWriter,
    name: &str,
    method: CompressionMethod,
    level: Option<i32>,
    permissions: u32,
) -> (r: Result<(), ZipError>)
    requires
        is_supported(method, level),
    ensures
        r is Ok <==> start_accepted(
            writer_entries(*old(w)),
            (Written {
                name: name@,
                method,
                level,
                permissions: permissions & 0o777,
                writes: Seq::empty(),
            }),
        ),
        r is Ok ==> writer_entries(*final(w)) == writer_entries(*old(w)).push(
            (Written {
                name: name@,
                method,
                level,
                permissions: permissions & 0o777,
                writes: Seq::empty(),
            }),
        ),
{
    let options = FileOptions::default()
        .compression_method(method)
        .unix_permissions(permissions)
        .compression_level(level);
    w.inner.start_file(name, options)
}

/// `write_all` on the `ZipWriter`. Whether it succeeds depends on what the
/// writer holds and on the bytes. On success the bytes have been written to
/// the entry started last.
#[verifier::external_body]
pub(crate) fn write_data(w: &mut ArchiveWriter, data: &Vec<u8>) -> (r: Result<(), std::io::Error>)
    requires
        writer_entries(*old(w)).len() > 0,
    ensures
        r is Ok <==> write_accepted(writer_entries(*old(w)), data@),
        r is Ok ==> writer_entries(*final(w)) == writer_entries(*old(w)).drop_last().push(
            (Written {
                writes: writer_entries(*old(w)).last().writes.push(data@),
                ..writer_entries(*old(w)).last()
            }),
        ),
{
    std::io::Write::write_all(&mut w.inner, data)
}

/// `ZipWriter::finish`: on success, the bytes of the container that holds
/// the entries given to the writer.
#[verifier::external_body]
pub(crate) fn finish(w: ArchiveWriter) -> (r: Result<Vec<u8>, ZipError>)
    ensures
        r is Ok <==> archive_bytes(writer_entries(w)) is Some,
        r matches Ok(bytes) ==> archive_bytes(writer_entries(w)) == Some(bytes@),
{
    let mut w = w;
    let cursor = w.inner.finish()?;
    Ok(cursor.into_inner())
}

/// `ZipArchive::new` on the bytes: on success, the opened container.
#[verifier::external_body]
pub(crate) fn open_archive(bytes: Vec<u8>) -> (r: Result<ZipArchive<Cursor<Vec<u8>>>, ZipError>)
    ensures
        r is Ok <==> stored_entries(bytes@) is Some,
        r matches Ok(a) ==> stored_entries(bytes@) == Some(archive_entries(a)),
{
    ZipArchive::new(Cursor::new(bytes))
}

/// `ZipArchive::len`: the number of entries.
#[verifier::external_body]
pub(crate) fn archive_len(a: &ZipArchive<Cursor<Vec<u8>>>) -> (n: usize)
    ensures
        n == archive_entries(*a).len(),
{
    a.len()
}

/// `ZipArchive::by_index_decrypt` with an empty password, then the entry's
/// name, comment, mode and payload: on success, the entry at `index`. It
/// succeeds exactly for the entries that can be read. Reading leaves the
/// entries as they were.
///
/// An entry that is encrypted is read only where the empty password opens
/// it. `ZipArchive::by_index` is not used: it panics on an entry that
/// carries AES data without being marked as encrypted.
#[verifier::external_body]
pub(crate) fn read_entry(a: &mut ZipArchive<Cursor<Vec<u8>>>, index: usize) -> (r: Result<
    Entry,
    ZipError,
>)
    ensures
        archive_entries(*final(a)) == archive_entries(*old(a)),
        r is Ok <==> index < archive_entries(*old(a)).len() && archive_entries(
            *old(a),
        )[index as int] is Some,
        r matches Ok(e) ==> archive_entries(*old(a))[index as int] == Some(e@),
{
    let mut file = match a.by_index_decrypt(index, &[])? {
        Ok(file) => file,
        Err(_) => return Err(ZipError::UnsupportedArchive(ZipError::PASSWORD_REQUIRED)),
    };
    let mut data = Vec::new();
    std::io::Read::read_to_end(&mut file, &mut data)?;
    Ok(Entry {
        name: file.name().to_string(),
        data,
        unix_mode: file.unix_mode(),
        comment: file.comment().to_string(),
    })
}

} // verus!
