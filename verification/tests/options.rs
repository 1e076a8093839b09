use medusa_zip::options::{
    Clock, CompressionMethod, CompressionOptions, CompressionStrategy, DateTimeRangeError,
    DefaultInitializeZipOptions, FileMetadata, FileOptions, FilePolicy, InitializeZipOptionsError,
    InitializeZipOptionsForSpecificFile, LargeFileBehavior, ModifiedTimeBehavior,
    ParseCompressionOptionsError, PreservePermsBehavior, SmallFileBehavior, ZipDateTime,
    ZipOptionsInitializers,
};

fn time(y: u16, mo: u8, d: u8, h: u8, mi: u8, s: u8) -> ZipDateTime {
    ZipDateTime::from_date_and_time(y, mo, d, h, mi, s).unwrap()
}

fn fields(t: &ZipDateTime) -> (u16, u8, u8, u8, u8, u8) {
    (t.year(), t.month(), t.day(), t.hour(), t.minute(), t.second())
}

fn clock() -> Clock {
    Clock {
        current_time: time(2023, 6, 15, 12, 30, 44),
        local_offset_seconds: 3600,
    }
}

fn file(len: u64) -> FileMetadata {
    FileMetadata {
        len,
        unix_mode: Some(0o100644),
        modified: Some(1_546_300_800),
    }
}

fn deflated(level: i64) -> FileOptions {
    FileOptions {
        compression_method: CompressionMethod::Deflated,
        compression_level: Some(level),
        ..FileOptions::default()
    }
}

#[test]
fn defaults() {
    assert_eq!(CompressionMethod::default(), CompressionMethod::Deflated);
    assert_eq!(
        CompressionStrategy::default(),
        CompressionStrategy::Deflated(Some(6))
    );
    assert_eq!(
        ModifiedTimeBehavior::default(),
        ModifiedTimeBehavior::Reproducible
    );
    let o = FileOptions::default();
    assert_eq!(o.compression_method, CompressionMethod::Deflated);
    assert_eq!(o.compression_level, None);
    assert_eq!(fields(&o.last_modified_time), (1980, 1, 1, 0, 0, 0));
    assert_eq!(o.permissions, None);
    assert!(!o.large_file);
}

#[test]
fn stored_takes_no_level() {
    assert_eq!(
        CompressionStrategy::from_method_and_level(CompressionMethod::Stored, None),
        Ok(CompressionStrategy::Stored)
    );
    assert_eq!(
        CompressionStrategy::from_method_and_level(CompressionMethod::Stored, Some(3)),
        Err(ParseCompressionOptionsError::CompressionLevelWithStored(3))
    );
    assert_eq!(
        CompressionStrategy::from_method_and_level(CompressionMethod::Stored, Some(0)),
        Err(ParseCompressionOptionsError::CompressionLevelWithStored(0))
    );
}

#[test]
fn deflated_takes_levels_from_0_to_9() {
    assert_eq!(
        CompressionStrategy::from_method_and_level(CompressionMethod::Deflated, None),
        Ok(CompressionStrategy::Deflated(None))
    );
    for level in 0..=9i8 {
        assert_eq!(
            CompressionStrategy::from_method_and_level(CompressionMethod::Deflated, Some(level)),
            Ok(CompressionStrategy::Deflated(Some(level as u8)))
        );
    }
    assert_eq!(
        CompressionStrategy::from_method_and_level(CompressionMethod::Deflated, Some(10)),
        Err(ParseCompressionOptionsError::InvalidCompressionLevel(
            CompressionMethod::Deflated,
            10,
            0,
            9
        ))
    );
    assert_eq!(
        CompressionStrategy::from_method_and_level(CompressionMethod::Deflated, Some(-1)),
        Err(ParseCompressionOptionsError::InvalidCompressionLevel(
            CompressionMethod::Deflated,
            -1,
            0,
            9
        ))
    );
}

#[test]
fn from_options_is_from_method_and_level() {
    assert_eq!(
        CompressionStrategy::from_options(CompressionOptions {
            compression_method: CompressionMethod::Deflated,
            compression_level: Some(9),
        }),
        Ok(CompressionStrategy::Deflated(Some(9)))
    );
    assert_eq!(
        CompressionStrategy::from_options(CompressionOptions {
            compression_method: CompressionMethod::Stored,
            compression_level: Some(9),
        }),
        Err(ParseCompressionOptionsError::CompressionLevelWithStored(9))
    );
}

#[test]
fn a_strategy_sets_method_and_level() {
    let base = FileOptions {
        large_file: true,
        permissions: Some(0o600),
        ..FileOptions::default()
    };
    let o = CompressionStrategy::Stored.set_zip_options_static(deflated(4), &clock());
    assert_eq!(o.compression_method, CompressionMethod::Stored);
    assert_eq!(o.compression_level, None);
    let o = CompressionStrategy::Deflated(Some(7)).set_zip_options_static(base, &clock());
    assert_eq!(o.compression_method, CompressionMethod::Deflated);
    assert_eq!(o.compression_level, Some(7));
    assert!(o.large_file);
    assert_eq!(o.permissions, Some(0o600));
    let o = CompressionStrategy::Deflated(None).set_zip_options_static(deflated(4), &clock());
    assert_eq!(o.compression_level, None);
}

#[test]
fn archive_times_run_from_1980_to_2107() {
    assert_eq!(fields(&ZipDateTime::zero()), (1980, 1, 1, 0, 0, 0));
    assert_eq!(fields(&time(1980, 1, 1, 0, 0, 0)), (1980, 1, 1, 0, 0, 0));
    assert_eq!(
        fields(&time(2107, 12, 31, 23, 59, 58)),
        (2107, 12, 31, 23, 59, 58)
    );
    assert_eq!(
        ZipDateTime::from_date_and_time(1979, 12, 31, 23, 59, 58),
        Err(DateTimeRangeError)
    );
    assert_eq!(
        ZipDateTime::from_date_and_time(2108, 1, 1, 0, 0, 0),
        Err(DateTimeRangeError)
    );
}

#[test]
fn archive_times_are_days_of_the_calendar() {
    assert!(ZipDateTime::from_date_and_time(2000, 2, 29, 0, 0, 0).is_ok());
    assert!(ZipDateTime::from_date_and_time(2024, 2, 29, 0, 0, 0).is_ok());
    assert!(ZipDateTime::from_date_and_time(2023, 2, 29, 0, 0, 0).is_err());
    assert!(ZipDateTime::from_date_and_time(2100, 2, 29, 0, 0, 0).is_err());
    assert!(ZipDateTime::from_date_and_time(2023, 4, 31, 0, 0, 0).is_err());
    assert!(ZipDateTime::from_date_and_time(2023, 4, 30, 0, 0, 0).is_ok());
    assert!(ZipDateTime::from_date_and_time(2023, 1, 31, 0, 0, 0).is_ok());
    assert!(ZipDateTime::from_date_and_time(2023, 1, 32, 0, 0, 0).is_err());
    assert!(ZipDateTime::from_date_and_time(2023, 0, 1, 0, 0, 0).is_err());
    assert!(ZipDateTime::from_date_and_time(2023, 13, 1, 0, 0, 0).is_err());
    assert!(ZipDateTime::from_date_and_time(2023, 1, 0, 0, 0, 0).is_err());
    assert!(ZipDateTime::from_date_and_time(2023, 1, 1, 24, 0, 0).is_err());
    assert!(ZipDateTime::from_date_and_time(2023, 1, 1, 0, 60, 0).is_err());
    assert!(ZipDateTime::from_date_and_time(2023, 1, 1, 0, 0, 61).is_err());
}

#[test]
fn seconds_are_kept_even_and_at_most_58() {
    assert_eq!(time(2023, 1, 1, 0, 0, 0).second(), 0);
    assert_eq!(time(2023, 1, 1, 0, 0, 1).second(), 0);
    assert_eq!(time(2023, 1, 1, 0, 0, 2).second(), 2);
    assert_eq!(time(2023, 1, 1, 0, 0, 57).second(), 56);
    assert_eq!(time(2023, 1, 1, 0, 0, 58).second(), 58);
    assert_eq!(time(2023, 1, 1, 0, 0, 59).second(), 58);
    assert_eq!(time(2023, 1, 1, 0, 0, 60).second(), 58);
}

#[test]
fn from_civil_checks_the_range() {
    assert_eq!(
        ZipDateTime::from_civil(None),
        Err(InitializeZipOptionsError::InvalidOffsetDateTime)
    );
    assert_eq!(
        ZipDateTime::from_civil(Some((1970, 1, 1, 0, 0, 0))),
        Err(InitializeZipOptionsError::InvalidDateTime)
    );
    assert_eq!(
        ZipDateTime::from_civil(Some((-5, 1, 1, 0, 0, 0))),
        Err(InitializeZipOptionsError::InvalidDateTime)
    );
    assert_eq!(
        ZipDateTime::from_civil(Some((70000, 1, 1, 0, 0, 0))),
        Err(InitializeZipOptionsError::InvalidDateTime)
    );
    assert_eq!(
        ZipDateTime::from_civil(Some((2023, 2, 30, 0, 0, 0))),
        Err(InitializeZipOptionsError::InvalidDateTime)
    );
    let t = ZipDateTime::from_civil(Some((2023, 2, 28, 13, 14, 15))).unwrap();
    assert_eq!(fields(&t), (2023, 2, 28, 13, 14, 14));
}

#[test]
fn static_times() {
    let c = clock();
    let base = deflated(5);
    let o = ModifiedTimeBehavior::Reproducible.set_zip_options_static(base, &c);
    assert_eq!(fields(&o.last_modified_time), (1980, 1, 1, 0, 0, 0));
    assert_eq!(o.compression_level, Some(5));
    let o = ModifiedTimeBehavior::CurrentTime.set_zip_options_static(base, &c);
    assert_eq!(fields(&o.last_modified_time), (2023, 6, 15, 12, 30, 44));
    let o = ModifiedTimeBehavior::PreserveSourceTime.set_zip_options_static(base, &c);
    assert_eq!(fields(&o.last_modified_time), (2023, 6, 15, 12, 30, 44));
    let o = ModifiedTimeBehavior::Explicit(time(1999, 12, 31, 23, 59, 58))
        .set_zip_options_static(base, &c);
    assert_eq!(fields(&o.last_modified_time), (1999, 12, 31, 23, 59, 58));
}

#[test]
fn file_times_that_do_not_look_at_the_file() {
    let c = clock();
    let base = FileOptions::default();
    let m = FileMetadata {
        len: 5,
        unix_mode: None,
        modified: None,
    };
    let o = ModifiedTimeBehavior::Reproducible
        .set_zip_options_for_file(base, &m, &c)
        .unwrap();
    assert_eq!(fields(&o.last_modified_time), (1980, 1, 1, 0, 0, 0));
    let o = ModifiedTimeBehavior::CurrentTime
        .set_zip_options_for_file(base, &m, &c)
        .unwrap();
    assert_eq!(fields(&o.last_modified_time), (2023, 6, 15, 12, 30, 44));
    let o = ModifiedTimeBehavior::Explicit(time(2001, 2, 3, 4, 5, 6))
        .set_zip_options_for_file(base, &m, &c)
        .unwrap();
    assert_eq!(fields(&o.last_modified_time), (2001, 2, 3, 4, 5, 6));
}

#[test]
fn preserved_source_time_is_the_local_time_of_the_modification() {
    let base = FileOptions::default();
    let utc = Clock {
        current_time: time(2023, 6, 15, 12, 30, 44),
        local_offset_seconds: 0,
    };
    let o = ModifiedTimeBehavior::PreserveSourceTime
        .set_zip_options_for_file(base, &file(1), &utc)
        .unwrap();
    assert_eq!(fields(&o.last_modified_time), (2019, 1, 1, 0, 0, 0));
    let o = ModifiedTimeBehavior::PreserveSourceTime
        .set_zip_options_for_file(base, &file(1), &clock())
        .unwrap();
    assert_eq!(fields(&o.last_modified_time), (2019, 1, 1, 1, 0, 0));
    let west = Clock {
        current_time: time(2023, 6, 15, 12, 30, 44),
        local_offset_seconds: -5 * 3600,
    };
    let o = ModifiedTimeBehavior::PreserveSourceTime
        .set_zip_options_for_file(base, &file(1), &west)
        .unwrap();
    assert_eq!(fields(&o.last_modified_time), (2018, 12, 31, 19, 0, 0));
    let odd = FileMetadata {
        len: 1,
        unix_mode: None,
        modified: Some(1_546_300_800 + 75),
    };
    let o = ModifiedTimeBehavior::PreserveSourceTime
        .set_zip_options_for_file(base, &odd, &utc)
        .unwrap();
    assert_eq!(fields(&o.last_modified_time), (2019, 1, 1, 0, 1, 14));
}

#[test]
fn preserved_source_time_can_fail() {
    let base = FileOptions::default();
    let c = clock();
    let unknown = FileMetadata {
        len: 1,
        unix_mode: None,
        modified: None,
    };
    assert_eq!(
        ModifiedTimeBehavior::PreserveSourceTime.set_zip_options_for_file(base, &unknown, &c),
        Err(InitializeZipOptionsError::Io)
    );
    let early = FileMetadata {
        len: 1,
        unix_mode: None,
        modified: Some(0),
    };
    assert_eq!(
        ModifiedTimeBehavior::PreserveSourceTime.set_zip_options_for_file(base, &early, &c),
        Err(InitializeZipOptionsError::InvalidDateTime)
    );
    let beyond = FileMetadata {
        len: 1,
        unix_mode: None,
        modified: Some(i64::MAX),
    };
    assert_eq!(
        ModifiedTimeBehavior::PreserveSourceTime.set_zip_options_for_file(base, &beyond, &c),
        Err(InitializeZipOptionsError::InvalidOffsetDateTime)
    );
    let bad_offset = Clock {
        current_time: time(2023, 6, 15, 12, 30, 44),
        local_offset_seconds: 200_000,
    };
    assert_eq!(
        ModifiedTimeBehavior::PreserveSourceTime.set_zip_options_for_file(
            base,
            &file(1),
            &bad_offset
        ),
        Err(InitializeZipOptionsError::InvalidOffsetDateTime)
    );
}

#[test]
fn permissions_are_copied_where_the_file_has_them() {
    let base = FileOptions {
        permissions: Some(0o600),
        ..FileOptions::default()
    };
    let o = PreservePermsBehavior
        .set_zip_options_for_file(base, &file(1), &clock())
        .unwrap();
    assert_eq!(o.permissions, Some(0o100644));
    let without = FileMetadata {
        len: 1,
        unix_mode: None,
        modified: None,
    };
    let o = PreservePermsBehavior
        .set_zip_options_for_file(base, &without, &clock())
        .unwrap();
    assert_eq!(o.permissions, Some(0o600));
}

#[test]
fn a_file_of_1000_bytes_is_stored() {
    for len in [0u64, 1, 999, 1000] {
        let o = SmallFileBehavior
            .set_zip_options_for_file(deflated(9), &file(len), &clock())
            .unwrap();
        assert_eq!(o.compression_method, CompressionMethod::Stored);
        assert_eq!(o.compression_level, None);
    }
}

#[test]
fn a_file_of_1001_bytes_keeps_its_method() {
    for len in [1001u64, 1002, 1_000_000, u64::MAX] {
        let o = SmallFileBehavior
            .set_zip_options_for_file(deflated(9), &file(len), &clock())
            .unwrap();
        assert_eq!(o.compression_method, CompressionMethod::Deflated);
        assert_eq!(o.compression_level, Some(9));
    }
}

#[test]
fn a_file_of_4_gib_is_large() {
    let base = FileOptions::default();
    let large = |options: FileOptions, len: u64| {
        LargeFileBehavior
            .set_zip_options_for_file(options, &file(len), &clock())
            .unwrap()
            .large_file
    };
    assert!(!large(base, 0));
    assert!(!large(base, 0xFFFF_FFFF));
    assert!(large(base, 0x1_0000_0000));
    assert!(large(base, u64::MAX));
    let set = FileOptions {
        large_file: true,
        ..FileOptions::default()
    };
    assert!(!large(set, 5));
}

#[test]
fn the_standard_policies_apply_in_order() {
    let policies = ZipOptionsInitializers::options_initializers(ModifiedTimeBehavior::CurrentTime);
    assert_eq!(
        policies.initializers,
        vec![
            FilePolicy::ModifiedTime(ModifiedTimeBehavior::CurrentTime),
            FilePolicy::PreservePerms,
            FilePolicy::SmallFile,
            FilePolicy::LargeFile,
        ]
    );
    let o = policies
        .set_zip_options_for_file(deflated(9), &file(1000), &clock())
        .unwrap();
    assert_eq!(o.compression_method, CompressionMethod::Stored);
    assert_eq!(o.compression_level, None);
    assert_eq!(fields(&o.last_modified_time), (2023, 6, 15, 12, 30, 44));
    assert_eq!(o.permissions, Some(0o100644));
    assert!(!o.large_file);
    let o = policies
        .set_zip_options_for_file(deflated(9), &file(0x1_0000_0000), &clock())
        .unwrap();
    assert_eq!(o.compression_method, CompressionMethod::Deflated);
    assert_eq!(o.compression_level, Some(9));
    assert!(o.large_file);
}

#[test]
fn the_first_failing_policy_ends_the_line() {
    let policies =
        ZipOptionsInitializers::options_initializers(ModifiedTimeBehavior::PreserveSourceTime);
    let unknown = FileMetadata {
        len: 1,
        unix_mode: None,
        modified: None,
    };
    assert_eq!(
        policies.set_zip_options_for_file(deflated(9), &unknown, &clock()),
        Err(InitializeZipOptionsError::Io)
    );
    let none = ZipOptionsInitializers {
        initializers: Vec::new(),
    };
    assert_eq!(
        none.set_zip_options_for_file(deflated(9), &unknown, &clock()),
        Ok(deflated(9))
    );
}

#[test]
fn a_single_policy_applies_alone() {
    let o = FilePolicy::SmallFile
        .set_zip_options_for_file(deflated(9), &file(10), &clock())
        .unwrap();
    assert_eq!(o.compression_method, CompressionMethod::Stored);
    let o = FilePolicy::LargeFile
        .set_zip_options_for_file(deflated(9), &file(10), &clock())
        .unwrap();
    assert_eq!(o.compression_method, CompressionMethod::Deflated);
    assert!(!o.large_file);
    let o = FilePolicy::PreservePerms
        .set_zip_options_for_file(deflated(9), &file(10), &clock())
        .unwrap();
    assert_eq!(o.permissions, Some(0o100644));
    let o = FilePolicy::ModifiedTime(ModifiedTimeBehavior::PreserveSourceTime)
        .set_zip_options_for_file(deflated(9), &file(10), &clock())
        .unwrap();
    assert_eq!(fields(&o.last_modified_time), (2019, 1, 1, 1, 0, 0));
}
