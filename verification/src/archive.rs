//! Template archives as sequences of named entries, read and written through
//! the `zip` crate, in memory. What the crate does with given bytes depends
//! on those bytes alone, so each of its results has a name here, and the
//! functions of this library say over those names when they succeed.

use std::io::Cursor;
use std::io::Read;
use std::io::Write;
use vstd::prelude::*;
use zip::result::ZipError;
use zip::write::SimpleFileOptions;
use zip::ZipArchive;
use zip::ZipWriter;
use crate::error::DocError;

verus! {

/// One named entry of an archive with its uncompressed content.
#[derive(Debug, Clone)]
pub struct ArchiveEntry {
    pub name: String,
    pub data: Vec<u8>,
}

impl View for ArchiveEntry {
    type V = (Seq<char>, Seq<u8>);

    open spec fn view(&self) -> (Seq<char>, Seq<u8>) {
        (self.name@, self.data@)
    }
}

/// The views of the elements of a vector of entries.
pub open spec fn entries_of(v: Seq<ArchiveEntry>) -> Seq<(Seq<char>, Seq<u8>)> {
    Seq::new(v.len(), |i: int| v[i]@)
}

#[verifier::external_type_specification]
#[verifier::external_body]
#[verifier::reject_recursive_types(T)]
pub struct ExCursor<T>(Cursor<T>);

#[verifier::external_type_specification]
#[verifier::external_body]
#[verifier::reject_recursive_types(R)]
pub struct ExZipArchive<R>(ZipArchive<R>);

/// An archive under construction in memory: a `ZipWriter` over a cursor.
#[verifier::external_body]
pub struct ArchiveWriter {
    inner: ZipWriter<Cursor<Vec<u8>>>,
}

#[verifier::external_type_specification]
#[verifier::external_body]
pub struct ExZipError(ZipError);

/// The bytes that an open archive reads.
pub uninterp spec fn archive_source(archive: ZipArchive<Cursor<Vec<u8>>>) -> Seq<u8>;

/// Whether `ZipArchive::new` opens a file of these bytes.
pub uninterp spec fn archive_opens(bytes: Seq<u8>) -> bool;

/// The number of files that `ZipArchive::len` counts in an archive of these
/// bytes.
pub uninterp spec fn entry_count(bytes: Seq<u8>) -> nat;

/// The name that `ZipArchive::name_for_index` gives for the file at an index
/// of an archive of these bytes, or nothing where the index is out of range
/// or the name cannot be decoded.
pub uninterp spec fn entry_name_at(bytes: Seq<u8>, i: int) -> Option<Seq<char>>;

/// The uncompressed content that `ZipArchive::by_index` and a read to the
/// end give for the file at an index of an archive of these bytes, or
/// nothing where that fails.
pub uninterp spec fn entry_data_at(bytes: Seq<u8>, i: int) -> Option<Seq<u8>>;

/// The stored form of the file at an index of an archive of these bytes, as
/// `ZipArchive::by_index_raw` hands it on: its attributes and its compressed
/// bytes.
pub uninterp spec fn raw_entry(bytes: Seq<u8>, i: int) -> Seq<u8>;

/// The entries of an archive under construction, in the order in which they
/// were added: for an entry that was started, its name, the bytes written to
/// it and no stored form; for a copied entry, its name, no bytes and the
/// stored form that was copied. This describes a writer on which no call
/// has failed. A call that fails may leave the writer changed, and nothing
/// is said of this list afterwards: the library gives up a writer at its
/// first failure.
pub uninterp spec fn written_entries(writer: ArchiveWriter) -> Seq<(Seq<char>, Seq<u8>, Seq<u8>)>;

/// Whether `ZipWriter::start_file` with the default options accepts a name
/// after these entries.
pub uninterp spec fn entry_accepted(written: Seq<(Seq<char>, Seq<u8>, Seq<u8>)>, name: Seq<char>) -> bool;

/// Whether `write_all` on a `ZipWriter` that holds these entries accepts
/// these bytes.
pub uninterp spec fn data_accepted(written: Seq<(Seq<char>, Seq<u8>, Seq<u8>)>, data: Seq<u8>) -> bool;

/// Whether `ZipWriter::raw_copy_file` accepts, after these entries, the file
/// at an index of an archive of these bytes.
pub uninterp spec fn copy_accepted(
    written: Seq<(Seq<char>, Seq<u8>, Seq<u8>)>,
    bytes: Seq<u8>,
    i: int,
) -> bool;

/// The bytes of the archive file that `ZipWriter::finish` makes of these
/// entries, or nothing where it fails. Entries that are started get the
/// crate's default options, whose time stamp is a constant as long as the
/// crate's `time` feature is off, as it is here.
pub uninterp spec fn finished_archive(written: Seq<(Seq<char>, Seq<u8>, Seq<u8>)>) -> Option<
    Seq<u8>,
>;

/// `ZipArchive::new` on a cursor over the bytes: it opens the archive or
/// fails, as the bytes decide; an archive that it opens reads those bytes.
#[verifier::external_body]
pub(crate) fn open_archive(bytes: Vec<u8>) -> (r: Result<ZipArchive<Cursor<Vec<u8>>>, ZipError>)
    ensures
        r is Ok <==> archive_opens(bytes@),
        r is Ok ==> archive_source(r->Ok_0) == bytes@,
{
    ZipArchive::new(Cursor::new(bytes))
}

/// `ZipArchive::len`: the number of files in the archive.
#[verifier::external_body]
pub(crate) fn archive_len(archive: &ZipArchive<Cursor<Vec<u8>>>) -> (n: usize)
    ensures
        n == entry_count(archive_source(*archive)),
{
    archive.len()
}

/// `ZipArchive::name_for_index`: the name of the file at an index, where the
/// index is in range and the name can be decoded.
#[verifier::external_body]
pub(crate) fn entry_name(archive: &ZipArchive<Cursor<Vec<u8>>>, i: usize) -> (r: Option<String>)
    ensures
        r is Some <==> entry_name_at(archive_source(*archive), i as int) is Some,
        r is Some ==> r->0@ == entry_name_at(archive_source(*archive), i as int)->0,
        r is Some ==> i < entry_count(archive_source(*archive)),
{
    match archive.name_for_index(i) {
        Some(Ok(name)) => Some(name.into_owned()),
        _ => None,
    }
}

/// `ZipArchive::by_index` and a read of the file to its end: the
/// uncompressed content of the file at an index. The archive reads the same
/// bytes afterwards.
#[verifier::external_body]
pub(crate) fn entry_data(archive: &mut ZipArchive<Cursor<Vec<u8>>>, i: usize) -> (r: Result<
    Vec<u8>,
    ZipError,
>)
    ensures
        archive_source(*final(archive)) == archive_source(*old(archive)),
        r is Ok <==> entry_data_at(archive_source(*old(archive)), i as int) is Some,
        r is Ok ==> r->Ok_0@ == entry_data_at(archive_source(*old(archive)), i as int)->0,
{
    let mut file = archive.by_index(i)?;
    let mut data = Vec::new();
    file.read_to_end(&mut data).map_err(ZipError::Io)?;
    Ok(data)
}

/// `ZipWriter::new` on an empty cursor: an archive under construction with
/// no entry.
#[verifier::external_body]
pub(crate) fn new_writer() -> (writer: ArchiveWriter)
    ensures
        written_entries(writer) == Seq::<(Seq<char>, Seq<u8>, Seq<u8>)>::empty(),
{
    ArchiveWriter { inner: ZipWriter::new(Cursor::new(Vec::new())) }
}

/// `ZipWriter::start_file` with the default options: it accepts the name or
/// fails, as the entries before it and the name decide; on success the
/// archive has one more entry, of that name and still empty. It fails on a
/// name that the archive already holds.
#[verifier::external_body]
pub(crate) fn start_entry(writer: &mut ArchiveWriter, name: &str) -> (r: Result<(), ZipError>)
    ensures
        r is Ok <==> entry_accepted(written_entries(*old(writer)), name@),
        r is Ok ==> written_entries(*final(writer)) == written_entries(*old(writer)).push(
            (name@, Seq::<u8>::empty(), Seq::<u8>::empty()),
        ),
        r is Ok ==> forall|k: int|
            0 <= k < written_entries(*old(writer)).len() ==> (#[trigger] written_entries(
                *old(writer),
            )[k]).0 != name@,
{
    writer.inner.start_file(name, SimpleFileOptions::default())
}

/// `write_all` on a `ZipWriter`: it accepts the bytes or fails, as the
/// entries and the bytes decide; on success, where the archive holds an
/// entry, the bytes are added to those of the entry that was added last.
#[verifier::external_body]
pub(crate) fn write_entry_data(writer: &mut ArchiveWriter, data: &[u8]) -> (r: Result<
    (),
    ZipError,
>)
    ensures
        r is Ok <==> data_accepted(written_entries(*old(writer)), data@),
        r is Ok && written_entries(*old(writer)).len() > 0 ==> written_entries(*final(writer))
            == written_entries(*old(writer)).drop_last().push(
            (
                written_entries(*old(writer)).last().0,
                written_entries(*old(writer)).last().1 + data@,
                written_entries(*old(writer)).last().2,
            ),
        ),
{
    writer.inner.write_all(data).map_err(ZipError::Io)
}

/// `ZipArchive::by_index_raw` and `ZipWriter::raw_copy_file`: copies the
/// file at an index of the archive in its stored form, without
/// decompressing it, under its name. The archive reads the same bytes
/// afterwards.
#[verifier::external_body]
pub(crate) fn copy_entry(
    writer: &mut ArchiveWriter,
    archive: &mut ZipArchive<Cursor<Vec<u8>>>,
    i: usize,
) -> (r: Result<(), ZipError>)
    ensures
        archive_source(*final(archive)) == archive_source(*old(archive)),
        r is Ok <==> copy_accepted(
            written_entries(*old(writer)),
            archive_source(*old(archive)),
            i as int,
        ),
        r is Ok ==> entry_name_at(archive_source(*old(archive)), i as int) is Some
            && written_entries(*final(writer)) == written_entries(*old(writer)).push(
            (
                entry_name_at(archive_source(*old(archive)), i as int)->0,
                Seq::<u8>::empty(),
                raw_entry(archive_source(*old(archive)), i as int),
            ),
        ),
{
    writer.inner.raw_copy_file(archive.by_index_raw(i)?)
}

/// `ZipWriter::finish`: the bytes of the finished archive file, or a
/// failure, as the entries decide.
#[verifier::external_body]
pub(crate) fn finish_writer(writer: ArchiveWriter) -> (r: Result<Vec<u8>, ZipError>)
    ensures
        r is Ok <==> finished_archive(written_entries(writer)) is Some,
        r is Ok ==> r->Ok_0@ == finished_archive(written_entries(writer))->0,
{
    writer.inner.finish().map(|cursor| cursor.into_inner())
}

/// Whether every file of an archive of these bytes gives its name and its
/// content.
pub open spec fn all_read(bytes: Seq<u8>) -> bool {
    forall|i: int|
        0 <= i < entry_count(bytes) ==> (#[trigger] entry_name_at(bytes, i)) is Some
            && entry_data_at(bytes, i) is Some
}

/// The entries of an archive file of these bytes, in the order of its
/// directory, or nothing where the archive does not open or a file does not
/// give its name or its content.
pub open spec fn stored_entries(bytes: Seq<u8>) -> Option<Seq<(Seq<char>, Seq<u8>)>> {
    if archive_opens(bytes) && all_read(bytes) {
        Some(
            Seq::new(
                entry_count(bytes),
                |i: int| (entry_name_at(bytes, i)->0, entry_data_at(bytes, i)->0),
            ),
        )
    } else {
        None
    }
}

/// The entries as an archive under construction holds them when each was
/// started and written.
pub open spec fn started(entries: Seq<(Seq<char>, Seq<u8>)>) -> Seq<(Seq<char>, Seq<u8>, Seq<u8>)> {
    Seq::new(entries.len(), |i: int| (entries[i].0, entries[i].1, Seq::<u8>::empty()))
}

/// Whether the writer takes entry `i` after the entries before it: its name
/// and then its bytes.
pub open spec fn entry_taken(entries: Seq<(Seq<char>, Seq<u8>)>, i: int) -> bool {
    let before = started(entries).subrange(0, i);
    &&& entry_accepted(before, entries[i].0)
    &&& data_accepted(
        before.push((entries[i].0, Seq::<u8>::empty(), Seq::<u8>::empty())),
        entries[i].1,
    )
}

/// The archive file of these entries, or nothing where the writer refuses an
/// entry or does not finish.
pub open spec fn packed(entries: Seq<(Seq<char>, Seq<u8>)>) -> Option<Seq<u8>> {
    if forall|i: int| 0 <= i < entries.len() ==> entry_taken(entries, i) {
        finished_archive(started(entries))
    } else {
        None
    }
}

/// Reads every entry of an archive file, in the order of its directory.
/// `CorruptArchive` exactly when the bytes are no archive or a file of it
/// does not give its name or its content.
pub fn read_archive(bytes: Vec<u8>) -> (r: Result<Vec<ArchiveEntry>, DocError>)
    ensures
        match r {
            Ok(entries) => stored_entries(bytes@) == Some(entries_of(entries@)),
            Err(e) => stored_entries(bytes@) is None && e == DocError::CorruptArchive,
        },
{
    let mut archive = match open_archive(bytes) {
        Ok(archive) => archive,
        Err(_) => { return Err(DocError::CorruptArchive); },
    };
    let n = archive_len(&archive);
    let mut entries: Vec<ArchiveEntry> = Vec::new();
    let mut i: usize = 0;
    while i < n
        invariant
            i <= n,
            archive_opens(bytes@),
            archive_source(archive) == bytes@,
            n == entry_count(bytes@),
            entries@.len() == i,
            forall|k: int|
                0 <= k < i ==> (#[trigger] entry_name_at(bytes@, k)) is Some && entry_data_at(
                    bytes@,
                    k,
                ) is Some,
            forall|k: int|
                0 <= k < i ==> (#[trigger] entries@[k])@ == (
                    entry_name_at(bytes@, k)->0,
                    entry_data_at(bytes@, k)->0,
                ),
        decreases n - i,
    {
        let name = match entry_name(&archive, i) {
            Some(name) => name,
            None => {
                assert(entry_name_at(bytes@, i as int) is None);
                return Err(DocError::CorruptArchive);
            },
        };
        let data = match entry_data(&mut archive, i) {
            Ok(data) => data,
            Err(_) => {
                assert(entry_name_at(bytes@, i as int) is Some);
                assert(entry_data_at(bytes@, i as int) is None);
                return Err(DocError::CorruptArchive);
            },
        };
        entries.push(ArchiveEntry { name, data });
        i += 1;
    }
    assert(entries_of(entries@) =~= stored_entries(bytes@)->0);
    Ok(entries)
}

/// Writes the entries to a new archive file, in order. `Io` exactly when the
/// writer refuses an entry, as it does a name that occurs twice, or does not
/// finish.
pub fn write_archive(entries: &Vec<ArchiveEntry>) -> (r: Result<Vec<u8>, DocError>)
    ensures
        match r {
            Ok(bytes) => packed(entries_of(entries@)) == Some(bytes@),
            Err(e) => packed(entries_of(entries@)) is None && e == DocError::Io,
        },
        r is Ok ==> forall|i: int, j: int|
            0 <= i < j < entries@.len() ==> entries@[i].name@ != entries@[j].name@,
{
    let ghost es = entries_of(entries@);
    let mut writer = new_writer();
    let mut i: usize = 0;
    assert(started(es).subrange(0, 0) =~= Seq::empty());
    while i < entries.len()
        invariant
            i <= entries@.len(),
            es == entries_of(entries@),
            written_entries(writer) == started(es).subrange(0, i as int),
            forall|k: int| 0 <= k < i ==> entry_taken(es, k),
            forall|k: int, j: int| 0 <= k < j < i ==> entries@[k].name@ != entries@[j].name@,
        decreases entries@.len() - i,
    {
        let entry = &entries[i];
        let ghost before = started(es).subrange(0, i as int);
        assert(es[i as int] == entry@);
        if start_entry(&mut writer, entry.name.as_str()).is_err() {
            assert(!entry_taken(es, i as int));
            return Err(DocError::Io);
        }
        assert forall|k: int| 0 <= k < i implies entries@[k].name@ != entry.name@ by {
            assert(before[k].0 == entries@[k].name@);
        }
        if write_entry_data(&mut writer, entry.data.as_slice()).is_err() {
            assert(!entry_taken(es, i as int));
            return Err(DocError::Io);
        }
        i += 1;
        assert(written_entries(writer) =~= started(es).subrange(0, i as int)) by {
            assert(Seq::<u8>::empty() + entry.data@ =~= entry.data@);
        }
    }
    assert(started(es).subrange(0, i as int) =~= started(es));
    match finish_writer(writer) {
        Ok(bytes) => Ok(bytes),
        Err(_) => Err(DocError::Io),
    }
}

} // verus!
