//! Opening the output file.
//!
//! There are four ways to treat a file that may already exist. This module
//! says how the file is opened under each of them, what is done with the
//! open file before the archive writer gets it, and what follows where the
//! first attempt to open it fails.

use vstd::prelude::*;

verus! {

/// What is done with an output file that may already exist.
#[derive(Clone, Copy, Debug, PartialEq, Eq, Structural)]
pub enum DestinationBehavior {
    /// Create the file if it is new, else empty it.
    AlwaysTruncate,
    /// Add to the archive that the file holds; the file must exist.
    AppendOrFail,
    /// Add to the archive that the file holds if it exists, else create it.
    OptimisticallyAppend,
    /// Start an archive behind what the file holds, which is no archive;
    /// the file must exist.
    AppendToNonZip,
}

impl Default for DestinationBehavior {
    fn default() -> (r: Self)
        ensures
            r == DestinationBehavior::AlwaysTruncate,
    {
        DestinationBehavior::AlwaysTruncate
    }
}

/// How a file is opened.
#[derive(Clone, Copy, Debug, PartialEq, Eq, Structural)]
pub struct OpenRequest {
    pub write: bool,
    pub read: bool,
    pub create: bool,
    pub truncate: bool,
    pub create_new: bool,
}

/// How the output file is opened and handed to the archive writer.
#[derive(Clone, Copy, Debug, PartialEq, Eq, Structural)]
pub struct Initialization {
    pub request: OpenRequest,
    /// Whether the position is moved to the end of the file before the
    /// writer gets it. The file is never opened in the system's append
    /// mode, which would move the position on every write.
    pub seek_to_end: bool,
    /// Whether the writer first reads the archive that the file holds and
    /// then adds to it, or starts a new archive at the position.
    pub with_append: bool,
}

/// Why the first attempt to open the output file failed.
#[derive(Clone, Copy, Debug, PartialEq, Eq, Structural)]
pub enum OpenFailure {
    /// The file exists, and the request was to create a new one.
    AlreadyExists,
    /// Any other reason.
    Other,
}

/// Opening a file for reading and writing, which must exist.
pub open spec fn existing_file() -> OpenRequest {
    OpenRequest { write: true, read: true, create: false, truncate: false, create_new: false }
}

/// The first attempt under a behavior.
pub open spec fn first_attempt(behavior: DestinationBehavior) -> Initialization {
    match behavior {
        DestinationBehavior::AlwaysTruncate => Initialization {
            request: OpenRequest {
                write: true,
                read: false,
                create: true,
                truncate: true,
                create_new: false,
            },
            seek_to_end: false,
            with_append: false,
        },
        DestinationBehavior::AppendOrFail => Initialization {
            request: existing_file(),
            seek_to_end: false,
            with_append: true,
        },
        DestinationBehavior::OptimisticallyAppend => Initialization {
            request: OpenRequest {
                write: true,
                read: false,
                create: false,
                truncate: false,
                create_new: true,
            },
            seek_to_end: false,
            with_append: false,
        },
        DestinationBehavior::AppendToNonZip => Initialization {
            request: existing_file(),
            seek_to_end: true,
            with_append: false,
        },
    }
}

/// The second attempt after the first has failed, if there is one: only
/// `OptimisticallyAppend` goes on, and only where the file exists already;
/// it then does what `AppendOrFail` does.
pub open spec fn second_attempt(behavior: DestinationBehavior, failure: OpenFailure) -> Option<
    Initialization,
> {
    if behavior == DestinationBehavior::OptimisticallyAppend && failure
        == OpenFailure::AlreadyExists {
        Some(first_attempt(DestinationBehavior::AppendOrFail))
    } else {
        None
    }
}

impl DestinationBehavior {
    /// How the output file is opened at first.
    pub fn initialize(self) -> (r: Initialization)
        ensures
            r == first_attempt(self),
    {
        let existing = OpenRequest {
            write: true,
            read: true,
            create: false,
            truncate: false,
            create_new: false,
        };
        match self {
            DestinationBehavior::AlwaysTruncate => Initialization {
                request: OpenRequest {
                    write: true,
                    read: false,
                    create: true,
                    truncate: true,
                    create_new: false,
                },
                seek_to_end: false,
                with_append: false,
            },
            DestinationBehavior::AppendOrFail => Initialization {
                request: existing,
                seek_to_end: false,
                with_append: true,
            },
            DestinationBehavior::OptimisticallyAppend => Initialization {
                request: OpenRequest {
                    write: true,
                    read: false,
                    create: false,
                    truncate: false,
                    create_new: true,
                },
                seek_to_end: false,
                with_append: false,
            },
            DestinationBehavior::AppendToNonZip => Initialization {
                request: existing,
                seek_to_end: true,
                with_append: false,
            },
        }
    }

    /// What follows where the first attempt has failed: another way to open
    /// the file, or nothing, and the failure stands.
    pub fn after_failure(self, failure: OpenFailure) -> (r: Option<Initialization>)
        ensures
            r == second_attempt(self, failure),
    {
        match self {
            DestinationBehavior::OptimisticallyAppend => match failure {
                OpenFailure::AlreadyExists => Some(DestinationBehavior::AppendOrFail.initialize()),
                OpenFailure::Other => None,
            },
            _ => None,
        }
    }
}

} // verus!
