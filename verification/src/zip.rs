//! Building an archive from files.
//!
//! The archive is described before anything is read or written: the plan of
//! its entries, the options that every entry starts from, the policies that
//! adjust them per file, and the windows into which the plan is cut where
//! the work is done in parallel. For each entry of the plan the caller then
//! asks what to write, handing in what it found out about the file.

use vstd::prelude::*;
use crate::name::{EntryName, FileSource};
use crate::options::{
    file_time, pipeline_result, static_time, Clock, CompressionMethod, CompressionStrategy,
    DefaultInitializeZipOptions, FileMetadata, FileOptions, FilePolicy,
    InitializeZipOptionsError, InitializeZipOptionsForSpecificFile, ModifiedTimeBehavior,
    OptionsView, PreservePermsBehavior, SmallFileBehavior, ZipOptionsInitializers,
};
use crate::plan::{
    arranged, directories_before_files, directories_once, has_duplicate_names, in_name_order,
    name_sorted, plan_of, EntryModifications, EntrySpecificationList, InputConsistencyError,
    ZipEntrySpecification,
};

verus! {

/// The number of plan entries that one worker puts into one intermediate
/// archive.
pub const INTERMEDIATE_CHUNK_SIZE: usize = 2000;

/// How many finished intermediate archives may wait to be merged.
pub const MAX_PARALLEL_INTERMEDIATES: usize = 12;

/// How many files of one intermediate archive may be in the works at once.
pub const PER_INTERMEDIATE_FILE_IO_QUEUE_LENGTH: usize = 20;

/// Up to this many bytes an intermediate archive is kept in memory.
pub const INTERMEDIATE_OUTPUT_SPOOL_THRESHOLD: usize = 20000;

/// Up to this many bytes the archive of a single file is kept in memory.
pub const PER_FILE_SPOOL_THRESHOLD: usize = 3000;

/// How the archive is written.
#[derive(Clone, Copy, Debug, PartialEq, Eq, Structural)]
pub enum Parallelism {
    /// The entries are written to the output one after another.
    Synchronous,
    /// Windows of the plan are written to intermediate archives at the same
    /// time, and these are merged into the output in the order of the plan.
    ParallelMerge,
}

impl Default for Parallelism {
    fn default() -> (r: Self)
        ensures
            r == Parallelism::ParallelMerge,
    {
        Parallelism::ParallelMerge
    }
}

/// What the caller chose for the whole archive.
#[derive(Clone, Copy, Debug, PartialEq, Eq, Structural)]
pub struct ZipOutputOptions {
    pub mtime_behavior: ModifiedTimeBehavior,
    pub compression_options: CompressionStrategy,
}

impl Default for ZipOutputOptions {
    fn default() -> (r: Self)
        ensures
            r.mtime_behavior == ModifiedTimeBehavior::Reproducible,
            r.compression_options == CompressionStrategy::Deflated(Some(6u8)),
    {
        ZipOutputOptions {
            mtime_behavior: ModifiedTimeBehavior::Reproducible,
            compression_options: CompressionStrategy::Deflated(Some(6)),
        }
    }
}

/// Why an archive cannot be described.
#[derive(Debug)]
pub enum MedusaZipError {
    /// The sources and prefixes do not make a plan.
    InputConsistency(InputConsistencyError),
}

/// Why an entry cannot be written.
#[derive(Debug)]
pub enum MedusaInputReadError {
    /// The file at this path could not be opened or looked at.
    SourceNotFound(String),
    /// The options for the entry could not be set.
    InitZipOptions(InitializeZipOptionsError),
}

/// What to write for one entry of the plan.
#[derive(Debug)]
pub enum IntermediateSingleEntry {
    /// A directory of this name, with the options of the archive.
    Directory(EntryName),
    /// The content of the file at the source path under this name, with
    /// these options.
    File(FileSource, FileOptions),
}

/// The files to put into an archive, and how.
#[derive(Debug)]
pub struct MedusaZip {
    pub input_files: Vec<FileSource>,
    pub zip_options: ZipOutputOptions,
    pub modifications: EntryModifications,
    pub parallelism: Parallelism,
}

/// An archive, described entry by entry.
#[derive(Debug)]
pub struct ZipPlan {
    /// The entries in the order in which they appear in the archive.
    pub entries: EntrySpecificationList,
    /// The options that every entry starts from.
    pub zip_options: FileOptions,
    /// The policies that adjust the options for each file.
    pub options_initializers: ZipOptionsInitializers,
    pub parallelism: Parallelism,
}

/// The options that every entry starts from: the defaults, with the time
/// and the compression that the caller chose.
pub open spec fn static_options(options: ZipOutputOptions, clock: Clock) -> OptionsView {
    OptionsView {
        compression_method: options.compression_options.method(),
        compression_level: options.compression_options.level(),
        last_modified_time: static_time(options.mtime_behavior, clock),
        permissions: None,
        large_file: false,
    }
}

/// The standard line of policies for the entry of a file.
pub open spec fn standard_policies(mtime_behavior: ModifiedTimeBehavior) -> Seq<FilePolicy> {
    seq![
        FilePolicy::ModifiedTime(mtime_behavior),
        FilePolicy::PreservePerms,
        FilePolicy::SmallFile,
        FilePolicy::LargeFile,
    ]
}

/// What the standard line of policies makes of the options for a file.
///
/// The time is that of the time policy. The permissions are the mode bits
/// of the file, where it has them. A file of at most 1000 bytes is stored
/// without a level; a longer one keeps method and level. The entry has
/// 64-bit sizes exactly if the file has more than 0xFFFFFFFF bytes.
pub open spec fn standard_result(
    mtime_behavior: ModifiedTimeBehavior,
    options: OptionsView,
    metadata: FileMetadata,
    clock: Clock,
) -> Result<OptionsView, InitializeZipOptionsError> {
    match file_time(mtime_behavior, metadata, clock) {
        Err(e) => Err(e),
        Ok(time) => Ok(
            OptionsView {
                compression_method: if metadata.len <= 1000 {
                    CompressionMethod::Stored
                } else {
                    options.compression_method
                },
                compression_level: if metadata.len <= 1000 {
                    None
                } else {
                    options.compression_level
                },
                last_modified_time: time,
                permissions: match metadata.unix_mode {
                    Some(mode) => Some(mode),
                    None => options.permissions,
                },
                large_file: metadata.len > 0xFFFF_FFFF,
            },
        ),
    }
}

/// The standard line of policies gives `standard_result`.
pub proof fn law_standard_policies(
    mtime_behavior: ModifiedTimeBehavior,
    options: OptionsView,
    metadata: FileMetadata,
    clock: Clock,
)
    ensures
        pipeline_result(standard_policies(mtime_behavior), 4, options, metadata, clock)
            == standard_result(mtime_behavior, options, metadata, clock),
{
    let policies = standard_policies(mtime_behavior);
    let r0 = pipeline_result(policies, 0, options, metadata, clock);
    let r1 = pipeline_result(policies, 1, options, metadata, clock);
    let r2 = pipeline_result(policies, 2, options, metadata, clock);
    let r3 = pipeline_result(policies, 3, options, metadata, clock);
    let r4 = pipeline_result(policies, 4, options, metadata, clock);
    assert(r0 == Ok::<OptionsView, InitializeZipOptionsError>(options));
    assert(r1 == policies[0].file_result(options, metadata, clock));
    match file_time(mtime_behavior, metadata, clock) {
        Err(e) => {
            assert(r1 is Err);
            assert(r2 == r1);
            assert(r3 == r2);
            assert(r4 == r3);
        },
        Ok(time) => {
            let o1 = OptionsView { last_modified_time: time, ..options };
            assert(r1 == Ok::<OptionsView, InitializeZipOptionsError>(o1));
            assert(r2 == policies[1].file_result(o1, metadata, clock));
            let o2 = PreservePermsBehavior.file_result(o1, metadata, clock)->Ok_0;
            assert(r2 == Ok::<OptionsView, InitializeZipOptionsError>(o2));
            assert(r3 == policies[2].file_result(o2, metadata, clock));
            let o3 = SmallFileBehavior.file_result(o2, metadata, clock)->Ok_0;
            assert(r3 == Ok::<OptionsView, InitializeZipOptionsError>(o3));
            assert(r4 == policies[3].file_result(o3, metadata, clock));
        },
    }
}

/// The windows of `size` entries into which `len` entries are cut: each a
/// pair of the first position and the position after the last.
///
/// The windows follow each other without gap from 0 to `len`; all have
/// `size` entries but the last, which has at least one and at most `size`.
pub open spec fn is_windows_of(windows: Seq<(usize, usize)>, len: int, size: int) -> bool {
    &&& windows.len() == 0 <==> len == 0
    &&& windows.len() > 0 ==> windows[0].0 == 0 && windows[windows.len() - 1].1 == len
    &&& forall|k: int|
        0 <= k < windows.len() ==> (#[trigger] windows[k]).0 < windows[k].1 <= len && windows[k].1
            - windows[k].0 <= size
    &&& forall|k: int|
        0 <= k < windows.len() - 1 ==> (#[trigger] windows[k]).1 == windows[k + 1].0
            && windows[k].1 - windows[k].0 == size
}

/// The entries of the first `n` windows, one window after another.
pub open spec fn windowed<T>(entries: Seq<T>, windows: Seq<(usize, usize)>, n: nat) -> Seq<T>
    decreases n,
{
    if n == 0 {
        Seq::empty()
    } else {
        windowed(entries, windows, (n - 1) as nat) + entries.subrange(
            windows[n - 1].0 as int,
            windows[n - 1].1 as int,
        )
    }
}

/// Writing the windows one after another writes every entry once, in the
/// order of the plan: cutting the plan into windows changes neither which
/// entries the archive gets nor their order.
pub proof fn law_windows_keep_the_plan<T>(entries: Seq<T>, windows: Seq<(usize, usize)>, size: int)
    requires
        is_windows_of(windows, entries.len() as int, size),
    ensures
        windowed(entries, windows, windows.len()) == entries,
{
    if windows.len() > 0 {
        lemma_windowed_prefix(entries, windows, size, windows.len());
        assert(entries.subrange(0, entries.len() as int) =~= entries);
    } else {
        assert(entries =~= Seq::<T>::empty());
    }
}

/// The first `n` windows hold the entries up to the end of window `n - 1`.
proof fn lemma_windowed_prefix<T>(
    entries: Seq<T>,
    windows: Seq<(usize, usize)>,
    size: int,
    n: nat,
)
    requires
        is_windows_of(windows, entries.len() as int, size),
        1 <= n <= windows.len(),
    ensures
        windowed(entries, windows, n) == entries.subrange(0, windows[n - 1].1 as int),
    decreases n,
{
    let last = windows[n - 1];
    if n == 1 {
        assert(windowed(entries, windows, 0) =~= Seq::<T>::empty());
        assert(windowed(entries, windows, 1) =~= entries.subrange(0, last.1 as int));
    } else {
        lemma_windowed_prefix(entries, windows, size, (n - 1) as nat);
        let before = windows[n - 2];
        assert(before.1 == last.0);
        assert(entries.subrange(0, before.1 as int) + entries.subrange(last.0 as int, last.1 as int)
            =~= entries.subrange(0, last.1 as int));
    }
}

/// Cuts `len` entries into windows of `size` entries.
pub fn chunk_windows(len: usize, size: usize) -> (windows: Vec<(usize, usize)>)
    requires
        size > 0,
    ensures
        is_windows_of(windows@, len as int, size as int),
{
    let mut windows: Vec<(usize, usize)> = Vec::new();
    let mut start: usize = 0;
    while start < len
        invariant
            size > 0,
            start <= len,
            windows@.len() == 0 <==> start == 0,
            windows@.len() > 0 ==> windows@[0].0 == 0 && windows@[windows@.len() - 1].1 == start,
            forall|k: int|
                0 <= k < windows@.len() ==> (#[trigger] windows@[k]).0 < windows@[k].1 <= start
                    && windows@[k].1 - windows@[k].0 <= size && (windows@[k].1 < len
                    ==> windows@[k].1 - windows@[k].0 == size),
            forall|k: int|
                0 <= k < windows@.len() - 1 ==> (#[trigger] windows@[k]).1 == windows@[k + 1].0,
        decreases len - start,
    {
        let end: usize = if len - start > size {
            start + size
        } else {
            len
        };
        windows.push((start, end));
        start = end;
    }
    proof {
        assert forall|k: int| 0 <= k < windows@.len() - 1 implies (#[trigger] windows@[k]).1
            == windows@[k + 1].0 && windows@[k].1 - windows@[k].0 == size by {
            assert(windows@[k + 1].0 < windows@[k + 1].1);
        }
    }
    windows
}

impl MedusaZip {
    /// Describes the archive: lays out the plan and fixes the options that
    /// every entry starts from.
    ///
    /// Fails exactly where laying out the plan fails: on two sources with one
    /// name, or else on a prefix that is not an acceptable name.
    pub fn zip(self, clock: &Clock) -> (r: Result<ZipPlan, MedusaZipError>)
        ensures
            match r {
                Ok(plan) => {
                    &&& !has_duplicate_names(self.input_files@)
                    &&& self.modifications.acceptable()
                    &&& arranged(self.input_files@, in_name_order(self.input_files@))
                    &&& plan.entries@ == plan_of(
                        self.modifications.silent_parts(),
                        self.modifications.own_parts(),
                        in_name_order(self.input_files@),
                    )
                    &&& name_sorted(plan.entries@)
                    &&& directories_once(plan.entries@)
                    &&& directories_before_files(
                        plan.entries@,
                        self.modifications.silent_parts().len() as int,
                    )
                    &&& plan.zip_options@ == static_options(self.zip_options, *clock)
                    &&& plan.options_initializers.initializers@ == standard_policies(
                        self.zip_options.mtime_behavior,
                    )
                    &&& plan.parallelism == self.parallelism
                },
                Err(MedusaZipError::InputConsistency(InputConsistencyError::DuplicateName(n, p, q))) => {
                    &&& has_duplicate_names(self.input_files@)
                    &&& InputConsistencyError::DuplicateName(n, p, q).reports_duplicate_in(
                        self.input_files@,
                    )
                },
                Err(MedusaZipError::InputConsistency(InputConsistencyError::NameFormat(e))) => {
                    &&& !has_duplicate_names(self.input_files@)
                    &&& !self.modifications.acceptable()
                    &&& self.modifications.refused_with(e)
                },
            },
    {
        let MedusaZip { input_files, zip_options, modifications, parallelism } = self;
        let entries = match EntrySpecificationList::from_file_specs(input_files, modifications) {
            Err(e) => {
                return Err(MedusaZipError::InputConsistency(e));
            },
            Ok(entries) => entries,
        };
        let with_time = zip_options.mtime_behavior.set_zip_options_static(
            FileOptions::default(),
            clock,
        );
        let options = zip_options.compression_options.set_zip_options_static(with_time, clock);
        Ok(
            ZipPlan {
                entries,
                zip_options: options,
                options_initializers: ZipOptionsInitializers::options_initializers(
                    zip_options.mtime_behavior,
                ),
                parallelism,
            },
        )
    }
}

impl IntermediateSingleEntry {
    /// What to write for `entry`.
    ///
    /// A directory needs nothing from disk. For a file the caller hands in
    /// what it found out about the file, or nothing where the file could
    /// not be opened or looked at; the options of the archive then run
    /// through the policies for this file.
    pub fn open_handle(
        entry: ZipEntrySpecification,
        zip_options: FileOptions,
        options_initializers: &ZipOptionsInitializers,
        metadata: Option<FileMetadata>,
        clock: &Clock,
    ) -> (r: Result<IntermediateSingleEntry, MedusaInputReadError>)
        ensures
            match entry {
                ZipEntrySpecification::Directory(name) => r matches Ok(
                    IntermediateSingleEntry::Directory(n),
                ) && n@ == name@,
                ZipEntrySpecification::File(file) => match metadata {
                    None => r matches Err(MedusaInputReadError::SourceNotFound(p)) && p@
                        == file.source@,
                    Some(m) => match pipeline_result(
                        options_initializers.initializers@,
                        options_initializers.initializers@.len(),
                        zip_options@,
                        m,
                        *clock,
                    ) {
                        Ok(o) => r matches Ok(IntermediateSingleEntry::File(f, fo)) && f.name@
                            == file.name@ && f.source@ == file.source@ && fo@ == o,
                        Err(e) => r matches Err(MedusaInputReadError::InitZipOptions(e2)) && e2 == e,
                    },
                },
            },
    {
        match entry {
            ZipEntrySpecification::Directory(name) => Ok(IntermediateSingleEntry::Directory(name)),
            ZipEntrySpecification::File(file) => match metadata {
                None => Err(MedusaInputReadError::SourceNotFound(file.source)),
                Some(m) => match options_initializers.set_zip_options_for_file(zip_options, &m, clock) {
                    Ok(options) => Ok(IntermediateSingleEntry::File(file, options)),
                    Err(e) => Err(MedusaInputReadError::InitZipOptions(e)),
                },
            },
        }
    }
}

} // verus!
