//! Options of archive entries, and the policies that set them.
//!
//! An archive gets its defaults once: the modification time and the
//! compression that the caller chose. Each file then runs through a fixed
//! line of policies, which see the file's length, mode and modification
//! time and adjust the options for that one entry.

use vstd::prelude::*;

verus! {

/// How an entry's content is stored.
#[derive(Clone, Copy, Debug, PartialEq, Eq, Structural)]
pub enum CompressionMethod {
    /// As it is.
    Stored,
    /// Compressed with deflate.
    Deflated,
}

impl Default for CompressionMethod {
    fn default() -> (r: Self)
        ensures
            r == CompressionMethod::Deflated,
    {
        CompressionMethod::Deflated
    }
}

/// A method together with the level that the caller asked for.
#[derive(Clone, Copy, Debug, PartialEq, Eq, Structural)]
pub struct CompressionOptions {
    pub compression_method: CompressionMethod,
    pub compression_level: Option<i8>,
}

/// A method with a level that the method accepts.
#[derive(Clone, Copy, Debug, PartialEq, Eq, Structural)]
pub enum CompressionStrategy {
    Stored,
    /// The level is between 0 and 9; without one the method's own default
    /// applies.
    Deflated(Option<u8>),
}

impl Default for CompressionStrategy {
    fn default() -> (r: Self)
        ensures
            r == CompressionStrategy::Deflated(Some(6u8)),
    {
        CompressionStrategy::Deflated(Some(6))
    }
}

/// Why a method and a level do not go together.
#[derive(Clone, Copy, Debug, PartialEq, Eq, Structural)]
pub enum ParseCompressionOptionsError {
    /// `Stored` takes no level; this one was given.
    CompressionLevelWithStored(i8),
    /// The level is outside what the method accepts: the method, the level,
    /// and the least and the greatest level accepted.
    InvalidCompressionLevel(CompressionMethod, i8, i8, i8),
}

/// The least level that deflate accepts.
pub const DEFLATE_LEVEL_MIN: i8 = 0;

/// The greatest level that deflate accepts.
pub const DEFLATE_LEVEL_MAX: i8 = 9;

/// The strategy for a method and a level, or the reason why there is none.
pub open spec fn strategy_for(method: CompressionMethod, level: Option<i8>) -> Result<
    CompressionStrategy,
    ParseCompressionOptionsError,
> {
    match method {
        CompressionMethod::Stored => match level {
            None => Ok(CompressionStrategy::Stored),
            Some(l) => Err(ParseCompressionOptionsError::CompressionLevelWithStored(l)),
        },
        CompressionMethod::Deflated => match level {
            None => Ok(CompressionStrategy::Deflated(None)),
            Some(l) => if 0 <= l <= 9 {
                Ok(CompressionStrategy::Deflated(Some(l as u8)))
            } else {
                Err(ParseCompressionOptionsError::InvalidCompressionLevel(method, l, 0, 9))
            },
        },
    }
}

impl CompressionStrategy {
    /// Checks that the level suits the method.
    ///
    /// `Stored` takes no level. `Deflated` takes none, or one from 0 to 9.
    pub fn from_method_and_level(method: CompressionMethod, level: Option<i8>) -> (r: Result<
        CompressionStrategy,
        ParseCompressionOptionsError,
    >)
        ensures
            r == strategy_for(method, level),
    {
        match method {
            CompressionMethod::Stored => match level {
                None => Ok(CompressionStrategy::Stored),
                Some(l) => Err(ParseCompressionOptionsError::CompressionLevelWithStored(l)),
            },
            CompressionMethod::Deflated => match level {
                None => Ok(CompressionStrategy::Deflated(None)),
                Some(l) => {
                    if DEFLATE_LEVEL_MIN <= l && l <= DEFLATE_LEVEL_MAX {
                        Ok(CompressionStrategy::Deflated(Some(l as u8)))
                    } else {
                        Err(
                            ParseCompressionOptionsError::InvalidCompressionLevel(
                                method,
                                l,
                                DEFLATE_LEVEL_MIN,
                                DEFLATE_LEVEL_MAX,
                            ),
                        )
                    }
                },
            },
        }
    }

    /// Checks that the level of `options` suits their method.
    pub fn from_options(options: CompressionOptions) -> (r: Result<
        CompressionStrategy,
        ParseCompressionOptionsError,
    >)
        ensures
            r == strategy_for(options.compression_method, options.compression_level),
    {
        Self::from_method_and_level(options.compression_method, options.compression_level)
    }

    /// The method of this strategy.
    pub open spec fn method(&self) -> CompressionMethod {
        match self {
            CompressionStrategy::Stored => CompressionMethod::Stored,
            CompressionStrategy::Deflated(_) => CompressionMethod::Deflated,
        }
    }

    /// The level of this strategy, if it has one.
    pub open spec fn level(&self) -> Option<i64> {
        match self {
            CompressionStrategy::Stored => None,
            CompressionStrategy::Deflated(None) => None,
            CompressionStrategy::Deflated(Some(l)) => Some(*l as i64),
        }
    }
}

/// The number of days of a month.
pub open spec fn days_in_month(year: int, month: int) -> int {
    if month == 4 || month == 6 || month == 9 || month == 11 {
        30
    } else if month == 2 {
        if year % 4 == 0 && (year % 100 != 0 || year % 400 == 0) {
            29
        } else {
            28
        }
    } else {
        31
    }
}

/// A date and time that an archive can hold: a day of the calendar in the
/// years 1980 to 2107, and a time of day with an even number of seconds.
pub open spec fn zip_time_fields(
    year: int,
    month: int,
    day: int,
    hour: int,
    minute: int,
    second: int,
) -> bool {
    &&& 1980 <= year <= 2107
    &&& 1 <= month <= 12
    &&& 1 <= day <= days_in_month(year, month)
    &&& 0 <= hour <= 23
    &&& 0 <= minute <= 59
    &&& 0 <= second <= 58
    &&& second % 2 == 0
}

/// A date and time of day as an archive holds it.
#[derive(Clone, Copy, Debug, PartialEq, Eq, Structural)]
pub struct ZipDateTime {
    year: u16,
    month: u8,
    day: u8,
    hour: u8,
    minute: u8,
    second: u8,
}

/// The fields of a date and time, in the order year, month, day, hour,
/// minute, second.
pub struct TimeFields {
    pub year: int,
    pub month: int,
    pub day: int,
    pub hour: int,
    pub minute: int,
    pub second: int,
}

/// The seconds as an archive stores them: at most 58, and even.
pub open spec fn stored_second(second: int) -> int {
    let capped = if second > 58 {
        58
    } else {
        second
    };
    capped - capped % 2
}

impl View for ZipDateTime {
    type V = TimeFields;

    closed spec fn view(&self) -> TimeFields {
        TimeFields {
            year: self.year as int,
            month: self.month as int,
            day: self.day as int,
            hour: self.hour as int,
            minute: self.minute as int,
            second: self.second as int,
        }
    }
}

/// The date and time is outside of what an archive can hold.
#[derive(Clone, Copy, Debug, PartialEq, Eq, Structural)]
pub struct DateTimeRangeError;

impl ZipDateTime {
    /// The fields are those of a date and time that an archive can hold.
    #[verifier::type_invariant]
    spec fn valid(&self) -> bool {
        zip_time_fields(
            self.year as int,
            self.month as int,
            self.day as int,
            self.hour as int,
            self.minute as int,
            self.second as int,
        )
    }

    /// 1980-01-01 00:00:00, the earliest time that an archive can hold.
    pub fn zero() -> (t: ZipDateTime)
        ensures
            t@ == (TimeFields { year: 1980, month: 1, day: 1, hour: 0, minute: 0, second: 0 }),
    {
        ZipDateTime { year: 1980, month: 1, day: 1, hour: 0, minute: 0, second: 0 }
    }

    /// The date and time with these fields.
    ///
    /// The year is from 1980 to 2107, the day exists in its month, and the
    /// time of day is a time of day; 60 seconds are accepted. The seconds
    /// are kept as the archive stores them: at most 58, rounded down to an
    /// even number.
    pub fn from_date_and_time(year: u16, month: u8, day: u8, hour: u8, minute: u8, second: u8) -> (r:
        Result<ZipDateTime, DateTimeRangeError>)
        ensures
            match r {
                Ok(t) => {
                    &&& zip_time_fields(
                        year as int,
                        month as int,
                        day as int,
                        hour as int,
                        minute as int,
                        stored_second(second as int),
                    )
                    &&& second <= 60
                    &&& t@ == (TimeFields {
                        year: year as int,
                        month: month as int,
                        day: day as int,
                        hour: hour as int,
                        minute: minute as int,
                        second: stored_second(second as int),
                    })
                },
                Err(_) => !(second <= 60 && zip_time_fields(
                    year as int,
                    month as int,
                    day as int,
                    hour as int,
                    minute as int,
                    stored_second(second as int),
                )),
            },
    {
        if year < 1980 || year > 2107 || month < 1 || month > 12 || day < 1 || hour > 23 || minute
            > 59 || second > 60 {
            return Err(DateTimeRangeError);
        }
        let leap = year % 4 == 0 && (year % 100 != 0 || year % 400 == 0);
        let max_day: u8 = if month == 4 || month == 6 || month == 9 || month == 11 {
            30
        } else if month == 2 {
            if leap {
                29
            } else {
                28
            }
        } else {
            31
        };
        if day > max_day {
            return Err(DateTimeRangeError);
        }
        let capped: u8 = if second > 58 {
            58
        } else {
            second
        };
        let even: u8 = capped - capped % 2;
        Ok(ZipDateTime { year, month, day, hour, minute, second: even })
    }

    /// The year, from 1980 to 2107.
    pub fn year(&self) -> (y: u16)
        ensures
            y as int == self@.year,
            1980 <= y <= 2107,
    {
        proof {
            use_type_invariant(self);
        }
        self.year
    }

    /// The month, from 1 to 12.
    pub fn month(&self) -> (m: u8)
        ensures
            m as int == self@.month,
            1 <= m <= 12,
    {
        proof {
            use_type_invariant(self);
        }
        self.month
    }

    /// The day of the month, from 1.
    pub fn day(&self) -> (d: u8)
        ensures
            d as int == self@.day,
            1 <= d <= days_in_month(self@.year, self@.month),
    {
        proof {
            use_type_invariant(self);
        }
        self.day
    }

    /// The hour, from 0 to 23.
    pub fn hour(&self) -> (h: u8)
        ensures
            h as int == self@.hour,
            h <= 23,
    {
        proof {
            use_type_invariant(self);
        }
        self.hour
    }

    /// The minute, from 0 to 59.
    pub fn minute(&self) -> (m: u8)
        ensures
            m as int == self@.minute,
            m <= 59,
    {
        proof {
            use_type_invariant(self);
        }
        self.minute
    }

    /// The second: even, from 0 to 58.
    pub fn second(&self) -> (s: u8)
        ensures
            s as int == self@.second,
            s <= 58,
            s % 2 == 0,
    {
        proof {
            use_type_invariant(self);
        }
        self.second
    }
}

/// The options of one entry.
#[derive(Clone, Copy, Debug, PartialEq, Eq, Structural)]
pub struct FileOptions {
    pub compression_method: CompressionMethod,
    /// Without a level the method's own default applies.
    pub compression_level: Option<i64>,
    pub last_modified_time: ZipDateTime,
    /// The permission bits of the entry, where they are set.
    pub permissions: Option<u32>,
    /// Whether the entry is written with 64-bit sizes.
    pub large_file: bool,
}

impl Default for FileOptions {
    /// Deflate without a level, the earliest time, no permissions, and
    /// 32-bit sizes.
    fn default() -> (r: Self)
        ensures
            r.compression_method == CompressionMethod::Deflated,
            r.compression_level == None::<i64>,
            r.last_modified_time@ == (TimeFields {
                year: 1980,
                month: 1,
                day: 1,
                hour: 0,
                minute: 0,
                second: 0,
            }),
            r.permissions == None::<u32>,
            !r.large_file,
    {
        FileOptions {
            compression_method: CompressionMethod::Deflated,
            compression_level: None,
            last_modified_time: ZipDateTime::zero(),
            permissions: None,
            large_file: false,
        }
    }
}

/// The options of one entry by what they hold.
pub struct OptionsView {
    pub compression_method: CompressionMethod,
    pub compression_level: Option<i64>,
    pub last_modified_time: TimeFields,
    pub permissions: Option<u32>,
    pub large_file: bool,
}

impl View for FileOptions {
    type V = OptionsView;

    open spec fn view(&self) -> OptionsView {
        OptionsView {
            compression_method: self.compression_method,
            compression_level: self.compression_level,
            last_modified_time: self.last_modified_time@,
            permissions: self.permissions,
            large_file: self.large_file,
        }
    }
}

/// What the policies get to know of a file.
#[derive(Clone, Copy, Debug, PartialEq, Eq, Structural)]
pub struct FileMetadata {
    /// The length of the file in bytes.
    pub len: u64,
    /// The mode bits of the file, where the platform has them.
    pub unix_mode: Option<u32>,
    /// When the file was last modified, in seconds since 1970-01-01 00:00:00
    /// UTC, where the platform tells.
    pub modified: Option<i64>,
}

/// The time of the run, taken once before any entry is written.
#[derive(Clone, Copy, Debug, PartialEq, Eq, Structural)]
pub struct Clock {
    /// The local time at the start of the run.
    pub current_time: ZipDateTime,
    /// The local offset from UTC at the start of the run, in seconds.
    pub local_offset_seconds: i32,
}

/// Which modification time the entries get.
#[derive(Clone, Copy, Debug, PartialEq, Eq, Structural)]
pub enum ModifiedTimeBehavior {
    /// 1980-01-01 00:00:00 for every entry.
    Reproducible,
    /// The time at the start of the run for every entry.
    CurrentTime,
    /// For each file the time at which it was last modified; for
    /// directories the time at the start of the run.
    PreserveSourceTime,
    /// This time for every entry.
    Explicit(ZipDateTime),
}

impl Default for ModifiedTimeBehavior {
    fn default() -> (r: Self)
        ensures
            r == ModifiedTimeBehavior::Reproducible,
    {
        ModifiedTimeBehavior::Reproducible
    }
}

/// Why the options of an entry could not be set.
#[derive(Clone, Copy, Debug, PartialEq, Eq, Structural)]
pub enum InitializeZipOptionsError {
    /// The platform does not tell when the file was last modified.
    Io,
    /// The time is outside of what an archive can hold.
    InvalidDateTime,
    /// The time is outside of what the calendar arithmetic can handle.
    InvalidOffsetDateTime,
}

/// The calendar date and time of day, at the given offset from UTC, of the
/// moment that lies `unix_seconds` after 1970-01-01 00:00:00 UTC: year,
/// month, day, hour, minute, second. None where the time crate cannot
/// represent the moment or the offset.
pub uninterp spec fn civil_time_of(unix_seconds: int, offset_seconds: int) -> Option<
    (i32, u8, u8, u8, u8, u8),
>;

/// Asks the time crate for the calendar date and time of day of a moment.
///
/// The moment is made with `OffsetDateTime::from_unix_timestamp`, the offset
/// with `UtcOffset::from_whole_seconds`, and the moment is moved to the
/// offset with `OffsetDateTime::checked_to_offset`. Each of them refuses
/// what is out of its range without panicking, and the result is then
/// none. Taken on trust: the result is the same for the same two numbers.
#[verifier::external_body]
fn civil_time(unix_seconds: i64, offset_seconds: i32) -> (r: Option<(i32, u8, u8, u8, u8, u8)>)
    ensures
        r == civil_time_of(unix_seconds as int, offset_seconds as int),
{
    let utc = time::OffsetDateTime::from_unix_timestamp(unix_seconds).ok()?;
    let offset = time::UtcOffset::from_whole_seconds(offset_seconds).ok()?;
    let local = utc.checked_to_offset(offset)?;
    Some(
        (
            local.year(),
            u8::from(local.month()),
            local.day(),
            local.hour(),
            local.minute(),
            local.second(),
        ),
    )
}

/// The archive time for a calendar date and time, or the reason why there
/// is none.
pub open spec fn civil_outcome(civil: Option<(i32, u8, u8, u8, u8, u8)>) -> Result<
    TimeFields,
    InitializeZipOptionsError,
> {
    match civil {
        None => Err(InitializeZipOptionsError::InvalidOffsetDateTime),
        Some((year, month, day, hour, minute, second)) => if second <= 60 && zip_time_fields(
            year as int,
            month as int,
            day as int,
            hour as int,
            minute as int,
            stored_second(second as int),
        ) {
            Ok(
                TimeFields {
                    year: year as int,
                    month: month as int,
                    day: day as int,
                    hour: hour as int,
                    minute: minute as int,
                    second: stored_second(second as int),
                },
            )
        } else {
            Err(InitializeZipOptionsError::InvalidDateTime)
        },
    }
}

impl ZipDateTime {
    /// The archive time for a calendar date and time.
    ///
    /// Without a calendar date the offset arithmetic has failed. A date
    /// outside the years 1980 to 2107 cannot be held by an archive.
    pub fn from_civil(civil: Option<(i32, u8, u8, u8, u8, u8)>) -> (r: Result<
        ZipDateTime,
        InitializeZipOptionsError,
    >)
        ensures
            match r {
                Ok(t) => civil_outcome(civil) == Ok::<TimeFields, InitializeZipOptionsError>(t@),
                Err(e) => civil_outcome(civil) == Err::<TimeFields, InitializeZipOptionsError>(e),
            },
    {
        match civil {
            None => Err(InitializeZipOptionsError::InvalidOffsetDateTime),
            Some((year, month, day, hour, minute, second)) => {
                if year < 1980 || year > 2107 {
                    return Err(InitializeZipOptionsError::InvalidDateTime);
                }
                match ZipDateTime::from_date_and_time(year as u16, month, day, hour, minute, second) {
                    Ok(t) => Ok(t),
                    Err(_) => Err(InitializeZipOptionsError::InvalidDateTime),
                }
            },
        }
    }
}

/// Sets the options that every entry of an archive starts from.
pub trait DefaultInitializeZipOptions {
    /// What this setting makes of `options`.
    spec fn static_result(&self, options: OptionsView, clock: Clock) -> OptionsView;

    /// Applies this setting to `options`.
    fn set_zip_options_static(&self, options: FileOptions, clock: &Clock) -> (r: FileOptions)
        ensures
            r@ == self.static_result(options@, *clock),
    ;
}

/// Adjusts the options of the entry of one file.
pub trait InitializeZipOptionsForSpecificFile {
    /// What this policy makes of `options` for a file, or why it fails.
    spec fn file_result(&self, options: OptionsView, metadata: FileMetadata, clock: Clock) -> Result<
        OptionsView,
        InitializeZipOptionsError,
    >;

    /// Applies this policy to the options of a file's entry.
    fn set_zip_options_for_file(
        &self,
        options: FileOptions,
        metadata: &FileMetadata,
        clock: &Clock,
    ) -> (r: Result<FileOptions, InitializeZipOptionsError>)
        ensures
            match r {
                Ok(o) => self.file_result(options@, *metadata, *clock) == Ok::<
                    OptionsView,
                    InitializeZipOptionsError,
                >(o@),
                Err(e) => self.file_result(options@, *metadata, *clock) == Err::<
                    OptionsView,
                    InitializeZipOptionsError,
                >(e),
            },
    ;
}

impl DefaultInitializeZipOptions for CompressionStrategy {
    /// The method and the level are those of this strategy.
    open spec fn static_result(&self, options: OptionsView, clock: Clock) -> OptionsView {
        OptionsView {
            compression_method: self.method(),
            compression_level: self.level(),
            ..options
        }
    }

    fn set_zip_options_static(&self, options: FileOptions, clock: &Clock) -> (r: FileOptions) {
        let (method, level): (CompressionMethod, Option<i64>) = match self {
            CompressionStrategy::Stored => (CompressionMethod::Stored, None),
            CompressionStrategy::Deflated(None) => (CompressionMethod::Deflated, None),
            CompressionStrategy::Deflated(Some(l)) => (CompressionMethod::Deflated, Some(*l as i64)),
        };
        FileOptions { compression_method: method, compression_level: level, ..options }
    }
}

/// A file of at most this many bytes is stored as it is.
pub const SMALL_FILE_FOR_NO_COMPRESSION_MAX_SIZE: u64 = 1000;

/// A file of more than this many bytes needs 64-bit sizes.
pub const ZIP64_BYTES_THR: u64 = 0xFFFF_FFFF;

/// The time of every entry where no file is looked at.
pub open spec fn static_time(behavior: ModifiedTimeBehavior, clock: Clock) -> TimeFields {
    match behavior {
        ModifiedTimeBehavior::Reproducible => TimeFields {
            year: 1980,
            month: 1,
            day: 1,
            hour: 0,
            minute: 0,
            second: 0,
        },
        ModifiedTimeBehavior::CurrentTime => clock.current_time@,
        ModifiedTimeBehavior::PreserveSourceTime => clock.current_time@,
        ModifiedTimeBehavior::Explicit(t) => t@,
    }
}

/// The time of the entry of one file.
pub open spec fn file_time(behavior: ModifiedTimeBehavior, metadata: FileMetadata, clock: Clock) -> Result<
    TimeFields,
    InitializeZipOptionsError,
> {
    match behavior {
        ModifiedTimeBehavior::PreserveSourceTime => match metadata.modified {
            None => Err(InitializeZipOptionsError::Io),
            Some(seconds) => civil_outcome(
                civil_time_of(seconds as int, clock.local_offset_seconds as int),
            ),
        },
        _ => Ok(static_time(behavior, clock)),
    }
}

impl DefaultInitializeZipOptions for ModifiedTimeBehavior {
    /// The time is the one that every entry gets unless a file says
    /// otherwise.
    open spec fn static_result(&self, options: OptionsView, clock: Clock) -> OptionsView {
        OptionsView { last_modified_time: static_time(*self, clock), ..options }
    }

    fn set_zip_options_static(&self, options: FileOptions, clock: &Clock) -> (r: FileOptions) {
        let time = match self {
            ModifiedTimeBehavior::Reproducible => ZipDateTime::zero(),
            ModifiedTimeBehavior::CurrentTime => clock.current_time,
            ModifiedTimeBehavior::PreserveSourceTime => clock.current_time,
            ModifiedTimeBehavior::Explicit(t) => *t,
        };
        FileOptions { last_modified_time: time, ..options }
    }
}

impl InitializeZipOptionsForSpecificFile for ModifiedTimeBehavior {
    /// Only `PreserveSourceTime` looks at the file: it fails where the
    /// platform does not tell the file's time, and where that time, at the
    /// local offset, is not a time that an archive can hold.
    open spec fn file_result(&self, options: OptionsView, metadata: FileMetadata, clock: Clock) -> Result<
        OptionsView,
        InitializeZipOptionsError,
    > {
        match file_time(*self, metadata, clock) {
            Ok(time) => Ok(OptionsView { last_modified_time: time, ..options }),
            Err(e) => Err(e),
        }
    }

    fn set_zip_options_for_file(
        &self,
        options: FileOptions,
        metadata: &FileMetadata,
        clock: &Clock,
    ) -> (r: Result<FileOptions, InitializeZipOptionsError>) {
        match self {
            ModifiedTimeBehavior::PreserveSourceTime => match metadata.modified {
                None => Err(InitializeZipOptionsError::Io),
                Some(seconds) => {
                    match ZipDateTime::from_civil(civil_time(seconds, clock.local_offset_seconds)) {
                        Ok(time) => Ok(FileOptions { last_modified_time: time, ..options }),
                        Err(e) => Err(e),
                    }
                },
            },
            _ => Ok(self.set_zip_options_static(options, clock)),
        }
    }
}

/// Copies the mode bits of the file to the entry, where the file has them.
#[derive(Clone, Copy, Debug, PartialEq, Eq, Structural)]
pub struct PreservePermsBehavior;

impl InitializeZipOptionsForSpecificFile for PreservePermsBehavior {
    open spec fn file_result(&self, options: OptionsView, metadata: FileMetadata, clock: Clock) -> Result<
        OptionsView,
        InitializeZipOptionsError,
    > {
        match metadata.unix_mode {
            None => Ok(options),
            Some(mode) => Ok(OptionsView { permissions: Some(mode), ..options }),
        }
    }

    fn set_zip_options_for_file(
        &self,
        options: FileOptions,
        metadata: &FileMetadata,
        clock: &Clock,
    ) -> (r: Result<FileOptions, InitializeZipOptionsError>) {
        match metadata.unix_mode {
            None => Ok(options),
            Some(mode) => Ok(FileOptions { permissions: Some(mode), ..options }),
        }
    }
}

/// Stores a file of at most 1000 bytes as it is, whatever was asked for.
#[derive(Clone, Copy, Debug, PartialEq, Eq, Structural)]
pub struct SmallFileBehavior;

impl InitializeZipOptionsForSpecificFile for SmallFileBehavior {
    open spec fn file_result(&self, options: OptionsView, metadata: FileMetadata, clock: Clock) -> Result<
        OptionsView,
        InitializeZipOptionsError,
    > {
        if metadata.len <= 1000 {
            Ok(
                OptionsView {
                    compression_method: CompressionMethod::Stored,
                    compression_level: None,
                    ..options
                },
            )
        } else {
            Ok(options)
        }
    }

    fn set_zip_options_for_file(
        &self,
        options: FileOptions,
        metadata: &FileMetadata,
        clock: &Clock,
    ) -> (r: Result<FileOptions, InitializeZipOptionsError>) {
        if metadata.len <= SMALL_FILE_FOR_NO_COMPRESSION_MAX_SIZE {
            Ok(
                FileOptions {
                    compression_method: CompressionMethod::Stored,
                    compression_level: None,
                    ..options
                },
            )
        } else {
            Ok(options)
        }
    }
}

/// Gives a file 64-bit sizes exactly if it has more than 0xFFFFFFFF bytes,
/// that is, at least 4 GiB.
#[derive(Clone, Copy, Debug, PartialEq, Eq, Structural)]
pub struct LargeFileBehavior;

impl InitializeZipOptionsForSpecificFile for LargeFileBehavior {
    open spec fn file_result(&self, options: OptionsView, metadata: FileMetadata, clock: Clock) -> Result<
        OptionsView,
        InitializeZipOptionsError,
    > {
        Ok(OptionsView { large_file: metadata.len > 0xFFFF_FFFF, ..options })
    }

    fn set_zip_options_for_file(
        &self,
        options: FileOptions,
        metadata: &FileMetadata,
        clock: &Clock,
    ) -> (r: Result<FileOptions, InitializeZipOptionsError>) {
        Ok(FileOptions { large_file: metadata.len > ZIP64_BYTES_THR, ..options })
    }
}

/// One of the policies that set the options of a file's entry.
#[derive(Clone, Copy, Debug, PartialEq, Eq, Structural)]
pub enum FilePolicy {
    ModifiedTime(ModifiedTimeBehavior),
    PreservePerms,
    SmallFile,
    LargeFile,
}

impl InitializeZipOptionsForSpecificFile for FilePolicy {
    /// What the policy that this one stands for makes of `options`.
    open spec fn file_result(&self, options: OptionsView, metadata: FileMetadata, clock: Clock) -> Result<
        OptionsView,
        InitializeZipOptionsError,
    > {
        match self {
            FilePolicy::ModifiedTime(behavior) => behavior.file_result(options, metadata, clock),
            FilePolicy::PreservePerms => PreservePermsBehavior.file_result(options, metadata, clock),
            FilePolicy::SmallFile => SmallFileBehavior.file_result(options, metadata, clock),
            FilePolicy::LargeFile => LargeFileBehavior.file_result(options, metadata, clock),
        }
    }

    fn set_zip_options_for_file(
        &self,
        options: FileOptions,
        metadata: &FileMetadata,
        clock: &Clock,
    ) -> (r: Result<FileOptions, InitializeZipOptionsError>) {
        match self {
            FilePolicy::ModifiedTime(behavior) => behavior.set_zip_options_for_file(
                options,
                metadata,
                clock,
            ),
            FilePolicy::PreservePerms => PreservePermsBehavior.set_zip_options_for_file(
                options,
                metadata,
                clock,
            ),
            FilePolicy::SmallFile => SmallFileBehavior.set_zip_options_for_file(
                options,
                metadata,
                clock,
            ),
            FilePolicy::LargeFile => LargeFileBehavior.set_zip_options_for_file(
                options,
                metadata,
                clock,
            ),
        }
    }
}

/// What the first `n` policies make of `options` for a file: each works on
/// what the one before it made, and the first failure ends the line.
pub open spec fn pipeline_result(
    policies: Seq<FilePolicy>,
    n: nat,
    options: OptionsView,
    metadata: FileMetadata,
    clock: Clock,
) -> Result<OptionsView, InitializeZipOptionsError>
    decreases n,
{
    if n == 0 {
        Ok(options)
    } else {
        match pipeline_result(policies, (n - 1) as nat, options, metadata, clock) {
            Ok(o) => policies[n - 1].file_result(o, metadata, clock),
            Err(e) => Err(e),
        }
    }
}

/// The policies for the entry of a file, in the order in which they apply.
#[derive(Debug)]
pub struct ZipOptionsInitializers {
    pub initializers: Vec<FilePolicy>,
}

impl ZipOptionsInitializers {
    /// The standard line of policies: the modification time, the
    /// permissions, small files, large files.
    pub fn options_initializers(mtime_behavior: ModifiedTimeBehavior) -> (r: ZipOptionsInitializers)
        ensures
            r.initializers@ == seq![
                FilePolicy::ModifiedTime(mtime_behavior),
                FilePolicy::PreservePerms,
                FilePolicy::SmallFile,
                FilePolicy::LargeFile,
            ],
    {
        let mut initializers: Vec<FilePolicy> = Vec::new();
        initializers.push(FilePolicy::ModifiedTime(mtime_behavior));
        initializers.push(FilePolicy::PreservePerms);
        initializers.push(FilePolicy::SmallFile);
        initializers.push(FilePolicy::LargeFile);
        proof {
            assert(initializers@ =~= seq![
                FilePolicy::ModifiedTime(mtime_behavior),
                FilePolicy::PreservePerms,
                FilePolicy::SmallFile,
                FilePolicy::LargeFile,
            ]);
        }
        ZipOptionsInitializers { initializers }
    }

    /// Runs the options of a file's entry through all policies in order.
    pub fn set_zip_options_for_file(
        &self,
        options: FileOptions,
        metadata: &FileMetadata,
        clock: &Clock,
    ) -> (r: Result<FileOptions, InitializeZipOptionsError>)
        ensures
            match r {
                Ok(o) => pipeline_result(
                    self.initializers@,
                    self.initializers@.len(),
                    options@,
                    *metadata,
                    *clock,
                ) == Ok::<OptionsView, InitializeZipOptionsError>(o@),
                Err(e) => pipeline_result(
                    self.initializers@,
                    self.initializers@.len(),
                    options@,
                    *metadata,
                    *clock,
                ) == Err::<OptionsView, InitializeZipOptionsError>(e),
            },
    {
        let mut current = options;
        let mut i: usize = 0;
        while i < self.initializers.len()
            invariant
                i <= self.initializers.len(),
                pipeline_result(self.initializers@, i as nat, options@, *metadata, *clock) == Ok::<
                    OptionsView,
                    InitializeZipOptionsError,
                >(current@),
            decreases self.initializers.len() - i,
        {
            match self.initializers[i].set_zip_options_for_file(current, metadata, clock) {
                Ok(next) => {
                    current = next;
                },
                Err(e) => {
                    proof {
                        lemma_pipeline_failure(
                            self.initializers@,
                            (i + 1) as nat,
                            self.initializers@.len(),
                            options@,
                            *metadata,
                            *clock,
                        );
                    }
                    return Err(e);
                },
            }
            i += 1;
        }
        Ok(current)
    }
}

/// Once the line of policies has failed, it stays failed with that error.
pub proof fn lemma_pipeline_failure(
    policies: Seq<FilePolicy>,
    n: nat,
    m: nat,
    options: OptionsView,
    metadata: FileMetadata,
    clock: Clock,
)
    requires
        n <= m,
        pipeline_result(policies, n, options, metadata, clock) is Err,
    ensures
        pipeline_result(policies, m, options, metadata, clock) == pipeline_result(
            policies,
            n,
            options,
            metadata,
            clock,
        ),
    decreases m,
{
    if n < m {
        lemma_pipeline_failure(policies, n, (m - 1) as nat, options, metadata, clock);
    }
}

} // verus!
