//! The packer: builds a container from inputs and plans the extraction of
//! one.

use vstd::prelude::*;
use std::io::Cursor;
use zip::result::ZipError;
use zip::CompressionMethod;
use zip::ZipArchive;
use crate::container::archive_bytes;
use crate::container::archive_entries;
use crate::container::archive_len;
use crate::container::finish;
use crate::container::is_supported;
use crate::container::new_writer;
use crate::container::open_archive;
use crate::container::read_entry;
use crate::container::start_accepted;
use crate::container::start_file;
use crate::container::stored_entries;
use crate::container::write_accepted;
use crate::container::write_data;
use crate::container::writer_entries;
use crate::container::ArchiveWriter;
use crate::container::Written;
use crate::error::ZippyError;
use crate::extract::entry_actions;
use crate::extract::entry_views;
use crate::extract::extraction_plan;
use crate::extract::first_refused;
use crate::extract::head_steps;
use crate::extract::plan_entries;
use crate::extract::views;
use crate::extract::Action;
use crate::extract::ActionView;
use crate::extract::Entry;
use crate::extract::EntryView;
use crate::laws::lemma_each_accepted;
use crate::laws::parents_first;
use crate::laws::stays_inside;
use crate::options::zip_method;
use crate::options::CompressionOptions;
use crate::options::Method;
use crate::options::DEFAULT_PERMISSIONS;
use crate::path::normalize;
use crate::source::all_files;
use crate::source::all_valid;
use crate::source::collect_all;
use crate::source::first_invalid;
use crate::source::input_path;
use crate::source::packed;
use crate::source::packed_all;
use crate::source::InputSpec;
use crate::source::SourceFile;
use crate::text::push_bytes;

verus! {

/// Packs and unpacks. It owns the buffer in which one file's bytes are
/// staged on their way into the container; between calls the buffer is
/// empty.
pub struct Zippy {
    buffer: Vec<u8>,
}

/// The entries that packing `files` in order gives the writer.
pub open spec fn packed_refs(files: Seq<&SourceFile>, cwd: Seq<char>, options: CompressionOptions) -> Seq<
    Written,
> {
    Seq::new(files.len(), |i: int| packed(*files[i], cwd, options))
}

/// An entry as it stands when it has been started and nothing is written.
pub open spec fn started(entry: Written) -> Written {
    Written { writes: Seq::empty(), ..entry }
}

/// A writer that holds `held` takes `entry`: its method and level may reach
/// the writer, the writer starts it, and the writer takes its bytes in one
/// write.
pub open spec fn takes_entry(held: Seq<Written>, entry: Written) -> bool {
    &&& is_supported(entry.method, entry.level)
    &&& start_accepted(held, started(entry))
    &&& write_accepted(held.push(started(entry)), entry.writes[0])
}

/// A writer that holds `held` takes `entries` one after the other.
pub open spec fn takes_all(held: Seq<Written>, entries: Seq<Written>) -> bool
    decreases entries.len(),
{
    entries.len() == 0 || (takes_all(held, entries.drop_last()) && takes_entry(
        held + entries.drop_last(),
        entries.last(),
    ))
}

/// A writer that takes entries takes the first `n` of them.
pub proof fn lemma_takes_prefix(held: Seq<Written>, entries: Seq<Written>, n: int)
    requires
        takes_all(held, entries),
        0 <= n <= entries.len(),
    ensures
        takes_all(held, entries.take(n)),
    decreases entries.len(),
{
    if n < entries.len() {
        lemma_takes_prefix(held, entries.drop_last(), n);
        assert(entries.drop_last().take(n) =~= entries.take(n));
    } else {
        assert(entries.take(n) =~= entries);
    }
}

/// Entry `j` can be read and is not refused.
pub open spec fn is_good(slots: Seq<Option<EntryView>>, j: int, dir: Seq<char>, unix_host: bool) -> bool {
    slots[j] is Some && entry_actions(slots[j].unwrap(), j, dir, unix_host) is Some
}

/// Exactly the first `k` entries are unpacked: each of them can be read and
/// is not refused, and entry `k`, if there is one, cannot be read or is
/// refused.
pub open spec fn unpacks(slots: Seq<Option<EntryView>>, k: int, dir: Seq<char>, unix_host: bool) -> bool {
    &&& 0 <= k <= slots.len()
    &&& forall|j: int| 0 <= j < k ==> #[trigger] is_good(slots, j, dir, unix_host)
    &&& k < slots.len() ==> !is_good(slots, k, dir, unix_host)
}

/// The first `k` entries, each of which can be read.
pub open spec fn read_slots(slots: Seq<Option<EntryView>>, k: int) -> Seq<EntryView> {
    Seq::new(k as nat, |i: int| slots[i].unwrap())
}

/// How an extraction ends that unpacks exactly the first `k` entries: with
/// the number of entries when those are all; with the container's error
/// when entry `k` cannot be read; with the name of entry `k` when it is
/// refused.
pub open spec fn ends_with(slots: Seq<Option<EntryView>>, k: int, r: Result<usize, ZippyError>) -> bool {
    if k == slots.len() {
        r matches Ok(count) && count == k
    } else {
        match slots[k] {
            None => r matches Err(ZippyError::ZipError(_)),
            Some(e) => r matches Err(ZippyError::UnsafeEntryName(name)) && name@ == e.name,
        }
    }
}

/// The steps and the result of an extraction from the entries `slots`: for
/// the one `k` such that exactly the first `k` entries are unpacked, the
/// steps are the plan of those entries and the result ends the extraction
/// as entry `k` asks.
pub open spec fn extraction_of(
    slots: Seq<Option<EntryView>>,
    dir: Seq<char>,
    dir_exists: bool,
    unix_host: bool,
    steps: Seq<ActionView>,
    r: Result<usize, ZippyError>,
) -> bool {
    exists|k: int|
        {
            &&& #[trigger] unpacks(slots, k, dir, unix_host)
            &&& extraction_plan(read_slots(slots, k), dir, dir_exists, unix_host) == Some(steps)
            &&& ends_with(slots, k, r)
        }
}

/// Entries read from the front of a container, the entry at `k` refused and
/// none before it: the extraction unpacks exactly the first `k`.
proof fn lemma_stops_at_refused(
    slots: Seq<Option<EntryView>>,
    read: Seq<EntryView>,
    k: int,
    dir: Seq<char>,
    dir_exists: bool,
    unix_host: bool,
    steps: Seq<ActionView>,
    r: Result<usize, ZippyError>,
)
    requires
        read.len() <= slots.len(),
        forall|j: int| 0 <= j < read.len() ==> slots[j] == Some(#[trigger] read[j]),
        first_refused(read, k, dir, unix_host),
        extraction_plan(read.take(k), dir, dir_exists, unix_host) == Some(steps),
        r matches Err(ZippyError::UnsafeEntryName(name)) && name@ == read[k].name,
    ensures
        extraction_of(slots, dir, dir_exists, unix_host, steps, r),
        !unpacks(slots, slots.len() as int, dir, unix_host),
{
    assert(read_slots(slots, k) =~= read.take(k)) by {
        assert forall|j: int| 0 <= j < k implies read_slots(slots, k)[j] == read.take(k)[j] by {
            assert(slots[j] == Some(read[j]));
        }
    }
    assert forall|j: int| 0 <= j < k implies #[trigger] is_good(slots, j, dir, unix_host) by {
        assert(slots[j] == Some(read[j]));
    }
    assert(slots[k] == Some(read[k]));
    assert(!is_good(slots, k, dir, unix_host));
    assert(unpacks(slots, k, dir, unix_host));
    assert(ends_with(slots, k, r));
    if unpacks(slots, slots.len() as int, dir, unix_host) {
        assert(is_good(slots, k, dir, unix_host));
    }
}

/// Entries read from the front of a container up to its end or up to one
/// that cannot be read, none of them refused: the extraction unpacks
/// exactly those.
proof fn lemma_stops_at_unreadable(
    slots: Seq<Option<EntryView>>,
    read: Seq<EntryView>,
    dir: Seq<char>,
    dir_exists: bool,
    unix_host: bool,
    steps: Seq<ActionView>,
    r: Result<usize, ZippyError>,
)
    requires
        read.len() <= slots.len(),
        forall|j: int| 0 <= j < read.len() ==> slots[j] == Some(#[trigger] read[j]),
        read.len() < slots.len() ==> slots[read.len() as int] is None,
        extraction_plan(read, dir, dir_exists, unix_host) == Some(steps),
        if read.len() == slots.len() {
            r matches Ok(count) && count == read.len()
        } else {
            r matches Err(ZippyError::ZipError(_))
        },
    ensures
        extraction_of(slots, dir, dir_exists, unix_host, steps, r),
        r is Ok <==> unpacks(slots, slots.len() as int, dir, unix_host),
{
    let m = read.len() as int;
    assert(read_slots(slots, m) =~= read) by {
        assert forall|j: int| 0 <= j < m implies read_slots(slots, m)[j] == read[j] by {
            assert(slots[j] == Some(read[j]));
        }
    }
    assert forall|j: int| 0 <= j < m implies #[trigger] is_good(slots, j, dir, unix_host) by {
        assert(slots[j] == Some(read[j]));
        lemma_each_accepted(read, dir, unix_host, j);
    }
    assert(unpacks(slots, m, dir, unix_host));
    assert(ends_with(slots, m, r));
    if m < slots.len() && unpacks(slots, slots.len() as int, dir, unix_host) {
        assert(is_good(slots, m, dir, unix_host));
    }
}

impl Zippy {
    #[verifier::type_invariant]
    spec fn buffer_is_empty(&self) -> bool {
        self.buffer@.len() == 0
    }

    /// The bytes that are staged in the buffer.
    pub closed spec fn staged(&self) -> Seq<u8> {
        self.buffer@
    }

    /// A packer with an empty buffer.
    pub fn new() -> (r: Zippy)
        ensures
            r.staged() == Seq::<u8>::empty(),
    {
        Zippy { buffer: Vec::new() }
    }

    /// Builds a container from the inputs, in the order given.
    ///
    /// Nothing is built when the output path exists already, nor when an
    /// input is neither a file nor a directory: the first such input is
    /// named in the error. Otherwise each input contributes its regular
    /// files, and the build succeeds exactly when the writer takes every
    /// entry and finishes. The result is then the container that holds one
    /// entry per regular file, named relative to `cwd`. Files that come to
    /// the same name are kept as separate entries. Afterwards the buffer is
    /// empty again.
    pub fn zip(
        &mut self,
        inputs: &Vec<InputSpec>,
        output: &str,
        output_exists: bool,
        cwd: &str,
        method: Method,
        level: Option<i32>,
    ) -> (r: Result<Vec<u8>, ZippyError>)
        ensures
            final(self).staged() == Seq::<u8>::empty(),
            output_exists ==> (r matches Err(ZippyError::AlreadyExists(path)) && path@ == output@),
            !output_exists && !all_valid(inputs@) ==> (r matches Err(
                ZippyError::InvalidInput(path),
            ) && exists|k: int|
                first_invalid(inputs@, k) && path@ == input_path(#[trigger] inputs@[k])),
            !output_exists && all_valid(inputs@) ==> ({
                let entries = packed_all(
                    all_files(inputs@),
                    cwd@,
                    (CompressionOptions { method, level, unix_permissions: DEFAULT_PERMISSIONS }),
                );
                match r {
                    Ok(bytes) => {
                        &&& takes_all(Seq::empty(), entries)
                        &&& archive_bytes(entries) == Some(bytes@)
                    },
                    Err(ZippyError::ZipError(_)) => !(takes_all(Seq::empty(), entries)
                        && archive_bytes(entries) is Some),
                    Err(ZippyError::IoError(_)) => !takes_all(Seq::empty(), entries),
                    Err(_) => false,
                }
            }),
    {
        proof {
            use_type_invariant(&*self);
        }
        if output_exists {
            return Err(ZippyError::AlreadyExists(String::from_str(output)));
        }
        let files = match collect_all(inputs) {
            Ok(files) => files,
            Err(e) => {
                return Err(e);
            },
        };
        let mut writer = new_writer();
        let options = CompressionOptions::new(method, level);
        let ghost entries = packed_all(all_files(inputs@), cwd@, options);
        assert(packed_refs(files@, cwd@, options) =~= entries);
        match self.add_dir(&files, cwd, &mut writer, &options) {
            Ok(()) => {},
            Err(e) => {
                return Err(e);
            },
        }
        assert(Seq::<Written>::empty() + entries =~= entries);
        match finish(writer) {
            Ok(bytes) => Ok(bytes),
            Err(e) => Err(ZippyError::from(e)),
        }
    }

    /// Packs one regular file: names the entry relative to `cwd`, starts it
    /// in the writer, stages the whole of the file's bytes in the buffer,
    /// writes them at once and empties the buffer again.
    ///
    /// Bzip2 at level 0 is refused here, as the writer refuses any other
    /// level that the method does not have.
    fn add_file(
        &mut self,
        file: &SourceFile,
        cwd: &str,
        writer: &mut ArchiveWriter,
        options: &CompressionOptions,
    ) -> (r: Result<(), ZippyError>)
        ensures
            final(self).staged() == Seq::<u8>::empty(),
            r is Ok <==> takes_entry(writer_entries(*old(writer)), packed(*file, cwd@, *options)),
            r is Ok ==> writer_entries(*final(writer)) == writer_entries(*old(writer)).push(
                packed(*file, cwd@, *options),
            ),
            match r {
                Ok(()) => true,
                Err(ZippyError::ZipError(_)) => true,
                Err(ZippyError::IoError(_)) => is_supported(zip_method(options.method), options.level)
                    && start_accepted(
                    writer_entries(*old(writer)),
                    started(packed(*file, cwd@, *options)),
                ),
                Err(_) => false,
            },
    {
        proof {
            use_type_invariant(&*self);
        }
        let unsupported = match (options.method, options.level) {
            (Method::Bzip2, Some(level)) => level == 0,
            _ => false,
        };
        if unsupported {
            return Err(
                ZippyError::ZipError(ZipError::UnsupportedArchive("Unsupported compression level")),
            );
        }
        let ghost entry = packed(*file, cwd@, *options);
        let name = normalize(file.path.as_str(), cwd);
        match start_file(
            writer,
            name.as_str(),
            CompressionMethod::from(options.method),
            options.level,
            options.unix_permissions,
        ) {
            Ok(()) => {},
            Err(e) => {
                return Err(ZippyError::from(e));
            },
        }
        let ghost held = writer_entries(*writer);
        assert(held == writer_entries(*old(writer)).push(started(entry)));
        let mut staged: Vec<u8> = Vec::new();
        std::mem::swap(&mut staged, &mut self.buffer);
        push_bytes(&mut staged, &file.data);
        assert(staged@ =~= file.data@);
        let written = write_data(writer, &staged);
        staged.clear();
        std::mem::swap(&mut staged, &mut self.buffer);
        assert(self.buffer@ =~= Seq::<u8>::empty());
        match written {
            Ok(()) => {
                assert(writer_entries(*writer) =~= writer_entries(*old(writer)).push(entry)) by {
                    assert(held.drop_last() =~= writer_entries(*old(writer)));
                    assert(started(entry).writes.push(file.data@) =~= entry.writes);
                }
                Ok(())
            },
            Err(e) => Err(ZippyError::from(e)),
        }
    }

    /// Packs regular files in order, as many as the writer takes.
    fn add_dir(
        &mut self,
        files: &Vec<&SourceFile>,
        cwd: &str,
        writer: &mut ArchiveWriter,
        options: &CompressionOptions,
    ) -> (r: Result<(), ZippyError>)
        ensures
            final(self).staged() == Seq::<u8>::empty(),
            r is Ok <==> takes_all(writer_entries(*old(writer)), packed_refs(files@, cwd@, *options)),
            r is Ok ==> writer_entries(*final(writer)) == writer_entries(*old(writer))
                + packed_refs(files@, cwd@, *options),
            match r {
                Ok(()) => true,
                Err(ZippyError::ZipError(_)) => true,
                Err(ZippyError::IoError(_)) => true,
                Err(_) => false,
            },
    {
        proof {
            use_type_invariant(&*self);
        }
        let ghost held = writer_entries(*writer);
        let ghost all = packed_refs(files@, cwd@, *options);
        let mut i: usize = 0;
        assert(held + all.take(0) =~= held);
        while i < files.len()
            invariant
                i <= files@.len(),
                self.staged() == Seq::<u8>::empty(),
                held == writer_entries(*old(writer)),
                all == packed_refs(files@, cwd@, *options),
                takes_all(held, all.take(i as int)),
                writer_entries(*writer) == held + all.take(i as int),
            decreases files@.len() - i,
        {
            assert(all.take(i as int + 1).drop_last() =~= all.take(i as int));
            assert(all.take(i as int + 1).last() == packed(*files@[i as int], cwd@, *options));
            match self.add_file(files[i], cwd, writer, options) {
                Ok(()) => {},
                Err(e) => {
                    proof {
                        if takes_all(held, all) {
                            lemma_takes_prefix(held, all, i as int + 1);
                        }
                    }
                    return Err(e);
                },
            }
            i += 1;
            assert(writer_entries(*writer) =~= held + all.take(i as int));
        }
        assert(all.take(all.len() as int) =~= all);
        Ok(())
    }

    /// Plans the extraction of the container in `archive` beneath
    /// `output_dir`, entry by entry, up to the first entry that cannot be
    /// read or is refused.
    ///
    /// The steps come back in either case: first the creation of the output
    /// directory, unless it exists; then the steps of the entries that are
    /// unpacked, in stored order. When every entry is unpacked the result is
    /// the number of entries. Bytes that are no container, and an entry that
    /// cannot be read, end the extraction with the container's error; an
    /// entry whose name would lead outside the output directory ends it with
    /// that name. No step touches anything outside the output directory.
    pub fn unzip(
        &mut self,
        archive: Vec<u8>,
        output_dir: &str,
        output_dir_exists: bool,
        unix_host: bool,
    ) -> (r: (Vec<Action>, Result<usize, ZippyError>))
        ensures
            final(self).staged() == Seq::<u8>::empty(),
            stays_inside(views(r.0@), output_dir@),
            parents_first(views(r.0@), output_dir@),
            r.1 is Ok <==> stored_entries(archive@) is Some && unpacks(
                stored_entries(archive@).unwrap(),
                stored_entries(archive@).unwrap().len() as int,
                output_dir@,
                unix_host,
            ),
            match stored_entries(archive@) {
                None => {
                    &&& views(r.0@) == head_steps(output_dir@, output_dir_exists)
                    &&& r.1 matches Err(ZippyError::ZipError(_))
                },
                Some(slots) => extraction_of(
                    slots,
                    output_dir@,
                    output_dir_exists,
                    unix_host,
                    views(r.0@),
                    r.1,
                ),
            },
    {
        proof {
            use_type_invariant(&*self);
        }
        let mut opened = match open_archive(archive) {
            Ok(opened) => opened,
            Err(e) => {
                let none: Vec<Entry> = Vec::new();
                let (steps, _) = plan_entries(&none, output_dir, output_dir_exists, unix_host);
                assert(entry_views(none@) =~= Seq::<EntryView>::empty());
                assert(head_steps(output_dir@, output_dir_exists) + Seq::<ActionView>::empty()
                    =~= head_steps(output_dir@, output_dir_exists));
                return (steps, Err(ZippyError::from(e)));
            },
        };
        let ghost slots = archive_entries(opened);
        let (entries, failure) = read_entries(&mut opened);
        let ghost read = entry_views(entries@);
        let (steps, planned) = plan_entries(&entries, output_dir, output_dir_exists, unix_host);
        match planned {
            Err(ZippyError::UnsafeEntryName(name)) => {
                let r = Err(ZippyError::UnsafeEntryName(name));
                proof {
                    let k = choose|k: int|
                        {
                            &&& first_refused(read, k, output_dir@, unix_host)
                            &&& name@ == #[trigger] entries@[k].name@
                            &&& extraction_plan(
                                read.take(k),
                                output_dir@,
                                output_dir_exists,
                                unix_host,
                            ) == Some(views(steps@))
                        };
                    lemma_stops_at_refused(
                        slots,
                        read,
                        k,
                        output_dir@,
                        output_dir_exists,
                        unix_host,
                        views(steps@),
                        r,
                    );
                }
                (steps, r)
            },
            Err(e) => (steps, Err(e)),
            Ok(count) => {
                let r = match failure {
                    Some(e) => Err(ZippyError::from(e)),
                    None => Ok(count),
                };
                proof {
                    lemma_stops_at_unreadable(
                        slots,
                        read,
                        output_dir@,
                        output_dir_exists,
                        unix_host,
                        views(steps@),
                        r,
                    );
                }
                (steps, r)
            },
        }
    }
}

/// Reads the entries of an opened container in stored order, up to the
/// first that cannot be read; the error of that one comes back with the
/// entries before it.
fn read_entries(archive: &mut ZipArchive<Cursor<Vec<u8>>>) -> (r: (Vec<Entry>, Option<ZipError>))
    ensures
        archive_entries(*final(archive)) == archive_entries(*old(archive)),
        r.0@.len() <= archive_entries(*old(archive)).len(),
        forall|j: int|
            0 <= j < r.0@.len() ==> archive_entries(*old(archive))[j] == Some(
                #[trigger] entry_views(r.0@)[j],
            ),
        match r.1 {
            None => r.0@.len() == archive_entries(*old(archive)).len(),
            Some(_) => r.0@.len() < archive_entries(*old(archive)).len() && archive_entries(
                *old(archive),
            )[r.0@.len() as int] is None,
        },
{
    let n = archive_len(archive);
    let mut entries: Vec<Entry> = Vec::new();
    let mut i: usize = 0;
    while i < n
        invariant
            i <= n == archive_entries(*old(archive)).len(),
            archive_entries(*archive) == archive_entries(*old(archive)),
            entries@.len() == i,
            forall|j: int|
                0 <= j < i ==> archive_entries(*old(archive))[j] == Some(
                    #[trigger] entry_views(entries@)[j],
                ),
        decreases n - i,
    {
        let ghost before = entry_views(entries@);
        match read_entry(archive, i) {
            Ok(entry) => {
                entries.push(entry);
                assert forall|j: int| 0 <= j < i + 1 implies archive_entries(*old(archive))[j]
                    == Some(#[trigger] entry_views(entries@)[j]) by {
                    if j < i {
                        assert(entry_views(entries@)[j] == before[j]);
                    }
                }
            },
            Err(e) => {
                return (entries, Some(e));
            },
        }
        i += 1;
    }
    (entries, None)
}

} // verus!
