use medusa_zip::name::{EntryName, FileSource};
use medusa_zip::options::{
    Clock, CompressionMethod, CompressionStrategy, FileMetadata, FileOptions, FilePolicy,
    InitializeZipOptionsError, ModifiedTimeBehavior, ZipDateTime, ZipOptionsInitializers,
};
use medusa_zip::plan::{EntryModifications, InputConsistencyError, ZipEntrySpecification};
use medusa_zip::zip::{
    chunk_windows, IntermediateSingleEntry, MedusaInputReadError, MedusaZip, MedusaZipError,
    Parallelism, ZipOutputOptions, INTERMEDIATE_CHUNK_SIZE,
};

fn source(name: &str, path: &str) -> FileSource {
    FileSource {
        name: EntryName::validate(name.to_string()).unwrap(),
        source: path.to_string(),
    }
}

fn clock() -> Clock {
    Clock {
        current_time: ZipDateTime::from_date_and_time(2023, 6, 15, 12, 30, 44).unwrap(),
        local_offset_seconds: 0,
    }
}

fn fields(t: &ZipDateTime) -> (u16, u8, u8, u8, u8, u8) {
    (t.year(), t.month(), t.day(), t.hour(), t.minute(), t.second())
}

fn job(names: &[&str], options: ZipOutputOptions, parallelism: Parallelism) -> MedusaZip {
    MedusaZip {
        input_files: names.iter().map(|n| source(n, "/s")).collect(),
        zip_options: options,
        modifications: EntryModifications {
            silent_external_prefix: None,
            own_prefix: None,
        },
        parallelism,
    }
}

#[test]
fn zip_defaults() {
    assert_eq!(Parallelism::default(), Parallelism::ParallelMerge);
    let o = ZipOutputOptions::default();
    assert_eq!(o.mtime_behavior, ModifiedTimeBehavior::Reproducible);
    assert_eq!(o.compression_options, CompressionStrategy::Deflated(Some(6)));
    assert_eq!(INTERMEDIATE_CHUNK_SIZE, 2000);
}

#[test]
fn no_entries_give_no_window() {
    assert_eq!(chunk_windows(0, 2000), Vec::<(usize, usize)>::new());
}

#[test]
fn windows_tile_the_plan() {
    assert_eq!(chunk_windows(1, 2000), vec![(0, 1)]);
    assert_eq!(chunk_windows(1999, 2000), vec![(0, 1999)]);
    assert_eq!(chunk_windows(2000, 2000), vec![(0, 2000)]);
    assert_eq!(chunk_windows(2001, 2000), vec![(0, 2000), (2000, 2001)]);
    assert_eq!(
        chunk_windows(4500, 2000),
        vec![(0, 2000), (2000, 4000), (4000, 4500)]
    );
    assert_eq!(chunk_windows(6, 2), vec![(0, 2), (2, 4), (4, 6)]);
    assert_eq!(chunk_windows(3, 1), vec![(0, 1), (1, 2), (2, 3)]);
    assert_eq!(chunk_windows(usize::MAX, usize::MAX), vec![(0, usize::MAX)]);
}

#[test]
fn zip_lays_out_the_plan_and_fixes_the_options() {
    let options = ZipOutputOptions {
        mtime_behavior: ModifiedTimeBehavior::CurrentTime,
        compression_options: CompressionStrategy::Deflated(Some(3)),
    };
    let plan = job(&["b/c", "a"], options, Parallelism::Synchronous)
        .zip(&clock())
        .unwrap();
    let names: Vec<String> = plan
        .entries
        .0
        .iter()
        .map(|e| match e {
            ZipEntrySpecification::File(f) => f.name.as_str().to_string(),
            ZipEntrySpecification::Directory(n) => format!("{}/", n.as_str()),
        })
        .collect();
    assert_eq!(names, vec!["a", "b/", "b/c"]);
    assert_eq!(plan.parallelism, Parallelism::Synchronous);
    assert_eq!(plan.zip_options.compression_method, CompressionMethod::Deflated);
    assert_eq!(plan.zip_options.compression_level, Some(3));
    assert_eq!(
        fields(&plan.zip_options.last_modified_time),
        (2023, 6, 15, 12, 30, 44)
    );
    assert_eq!(plan.zip_options.permissions, None);
    assert!(!plan.zip_options.large_file);
    assert_eq!(
        plan.options_initializers.initializers,
        vec![
            FilePolicy::ModifiedTime(ModifiedTimeBehavior::CurrentTime),
            FilePolicy::PreservePerms,
            FilePolicy::SmallFile,
            FilePolicy::LargeFile,
        ]
    );
}

#[test]
fn zip_with_default_options_is_reproducible() {
    let plan = job(&["a"], ZipOutputOptions::default(), Parallelism::ParallelMerge)
        .zip(&clock())
        .unwrap();
    assert_eq!(fields(&plan.zip_options.last_modified_time), (1980, 1, 1, 0, 0, 0));
    assert_eq!(plan.zip_options.compression_level, Some(6));
    assert_eq!(plan.parallelism, Parallelism::ParallelMerge);
}

#[test]
fn zip_of_nothing_is_an_empty_plan() {
    let plan = job(&[], ZipOutputOptions::default(), Parallelism::ParallelMerge)
        .zip(&clock())
        .unwrap();
    assert!(plan.entries.0.is_empty());
}

#[test]
fn zip_refuses_duplicates() {
    let result = job(
        &["a", "b", "a"],
        ZipOutputOptions::default(),
        Parallelism::ParallelMerge,
    )
    .zip(&clock());
    match result {
        Err(MedusaZipError::InputConsistency(InputConsistencyError::DuplicateName(n, _, _))) => {
            assert_eq!(n.as_str(), "a")
        }
        other => panic!("unexpected: {:?}", other),
    }
}

#[test]
fn a_directory_needs_nothing_from_disk() {
    let policies = ZipOptionsInitializers::options_initializers(ModifiedTimeBehavior::Reproducible);
    let entry = ZipEntrySpecification::Directory(EntryName::validate("a/b".to_string()).unwrap());
    match IntermediateSingleEntry::open_handle(
        entry,
        FileOptions::default(),
        &policies,
        None,
        &clock(),
    ) {
        Ok(IntermediateSingleEntry::Directory(n)) => assert_eq!(n.as_str(), "a/b"),
        other => panic!("unexpected: {:?}", other),
    }
}

#[test]
fn a_file_runs_through_the_policies() {
    let policies = ZipOptionsInitializers::options_initializers(ModifiedTimeBehavior::Reproducible);
    let base = FileOptions {
        compression_level: Some(6),
        ..FileOptions::default()
    };
    let small = FileMetadata {
        len: 12,
        unix_mode: Some(0o755),
        modified: None,
    };
    match IntermediateSingleEntry::open_handle(
        ZipEntrySpecification::File(source("a/b.txt", "/disk/b.txt")),
        base,
        &policies,
        Some(small),
        &clock(),
    ) {
        Ok(IntermediateSingleEntry::File(f, o)) => {
            assert_eq!(f.name.as_str(), "a/b.txt");
            assert_eq!(f.source, "/disk/b.txt");
            assert_eq!(o.compression_method, CompressionMethod::Stored);
            assert_eq!(o.compression_level, None);
            assert_eq!(o.permissions, Some(0o755));
            assert!(!o.large_file);
        }
        other => panic!("unexpected: {:?}", other),
    }
    let big = FileMetadata {
        len: 5_000_000_000,
        unix_mode: None,
        modified: None,
    };
    match IntermediateSingleEntry::open_handle(
        ZipEntrySpecification::File(source("big.bin", "/disk/big.bin")),
        base,
        &policies,
        Some(big),
        &clock(),
    ) {
        Ok(IntermediateSingleEntry::File(_, o)) => {
            assert_eq!(o.compression_method, CompressionMethod::Deflated);
            assert_eq!(o.compression_level, Some(6));
            assert_eq!(o.permissions, None);
            assert!(o.large_file);
        }
        other => panic!("unexpected: {:?}", other),
    }
}

#[test]
fn a_file_that_cannot_be_looked_at_is_reported_with_its_path() {
    let policies = ZipOptionsInitializers::options_initializers(ModifiedTimeBehavior::Reproducible);
    match IntermediateSingleEntry::open_handle(
        ZipEntrySpecification::File(source("a", "/gone")),
        FileOptions::default(),
        &policies,
        None,
        &clock(),
    ) {
        Err(MedusaInputReadError::SourceNotFound(p)) => assert_eq!(p, "/gone"),
        other => panic!("unexpected: {:?}", other),
    }
}

#[test]
fn a_failing_policy_is_reported() {
    let policies =
        ZipOptionsInitializers::options_initializers(ModifiedTimeBehavior::PreserveSourceTime);
    let unknown = FileMetadata {
        len: 12,
        unix_mode: None,
        modified: None,
    };
    match IntermediateSingleEntry::open_handle(
        ZipEntrySpecification::File(source("a", "/s")),
        FileOptions::default(),
        &policies,
        Some(unknown),
        &clock(),
    ) {
        Err(MedusaInputReadError::InitZipOptions(e)) => {
            assert_eq!(e, InitializeZipOptionsError::Io)
        }
        other => panic!("unexpected: {:?}", other),
    }
}

#[test]
fn windows_cover_the_plan_in_order() {
    for len in [0usize, 1, 5, 6, 7, 12, 13] {
        let plan: Vec<usize> = (0..len).collect();
        let mut seen: Vec<usize> = Vec::new();
        for (start, end) in chunk_windows(len, 6) {
            assert!(start < end && end - start <= 6);
            seen.extend_from_slice(&plan[start..end]);
        }
        assert_eq!(seen, plan);
    }
}
