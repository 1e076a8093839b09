use medusa_zip::destination::{DestinationBehavior, Initialization, OpenFailure, OpenRequest};

fn existing() -> OpenRequest {
    OpenRequest {
        write: true,
        read: true,
        create: false,
        truncate: false,
        create_new: false,
    }
}

#[test]
fn the_default_is_to_truncate() {
    assert_eq!(
        DestinationBehavior::default(),
        DestinationBehavior::AlwaysTruncate
    );
}

#[test]
fn always_truncate_creates_and_empties() {
    assert_eq!(
        DestinationBehavior::AlwaysTruncate.initialize(),
        Initialization {
            request: OpenRequest {
                write: true,
                read: false,
                create: true,
                truncate: true,
                create_new: false,
            },
            seek_to_end: false,
            with_append: false,
        }
    );
}

#[test]
fn append_or_fail_reads_the_archive_that_is_there() {
    assert_eq!(
        DestinationBehavior::AppendOrFail.initialize(),
        Initialization {
            request: existing(),
            seek_to_end: false,
            with_append: true,
        }
    );
}

#[test]
fn optimistically_append_first_tries_to_create() {
    assert_eq!(
        DestinationBehavior::OptimisticallyAppend.initialize(),
        Initialization {
            request: OpenRequest {
                write: true,
                read: false,
                create: false,
                truncate: false,
                create_new: true,
            },
            seek_to_end: false,
            with_append: false,
        }
    );
}

#[test]
fn append_to_non_zip_starts_at_the_end() {
    assert_eq!(
        DestinationBehavior::AppendToNonZip.initialize(),
        Initialization {
            request: existing(),
            seek_to_end: true,
            with_append: false,
        }
    );
}

#[test]
fn only_optimistically_append_tries_again() {
    assert_eq!(
        DestinationBehavior::OptimisticallyAppend.after_failure(OpenFailure::AlreadyExists),
        Some(DestinationBehavior::AppendOrFail.initialize())
    );
    assert_eq!(
        DestinationBehavior::OptimisticallyAppend.after_failure(OpenFailure::Other),
        None
    );
    for behavior in [
        DestinationBehavior::AlwaysTruncate,
        DestinationBehavior::AppendOrFail,
        DestinationBehavior::AppendToNonZip,
    ] {
        assert_eq!(behavior.after_failure(OpenFailure::AlreadyExists), None);
        assert_eq!(behavior.after_failure(OpenFailure::Other), None);
    }
}
