//! How a run ends.

use sztools::hashing::{format_hash, parse_content_hash, HASH_CHARS};
use sztools::replace::run::parse_expected_hash;
use sztools::status::{report, Failure, Status, Tally, REFUSED_EXIT_CODE};

#[test]
fn a_tally_answers_the_exit_code_without_a_counter_on_the_side() {
    assert_eq!(Tally::default().status(), Status::NoResult);

    let mut produced = Tally::default();
    produced.produced();
    assert_eq!(produced.status(), Status::Success);

    // A failure outranks a result: a partial answer is not a whole one.
    let mut partial = Tally::default();
    partial.produced();
    partial.failed();
    assert_eq!(partial.status(), Status::Error);
    assert_eq!(partial.failures(), 1);
}

#[test]
fn reports_a_refused_precondition_as_its_own_code() {
    let code = |outcome| report(&outcome, 2).code;

    let stale = Failure::Stale {
        path: "notes.md".into(),
        expected: 0x91bc_0d2f_5a7e_3c11,
        actual: 0x3f2a_1c88_de10_b4e7,
    };
    let ambiguous = Failure::Ambiguous {
        path: "notes.md".into(),
        subject: "k3f9m2qx".into(),
        matches: 3,
        note: "lengthen the name",
    };
    let unresolved = Failure::Unresolved {
        path: "notes.md".into(),
        subject: "k3f9m2qx".into(),
        note: "re-read the file",
    };

    assert_eq!(code(Err(stale)), REFUSED_EXIT_CODE);
    assert_eq!(code(Err(ambiguous)), REFUSED_EXIT_CODE);
    assert_eq!(code(Err(unresolved)), REFUSED_EXIT_CODE);
    // And the codes it must stay distinct from.
    assert_ne!(code(Ok(Status::NoResult)), REFUSED_EXIT_CODE);
    assert_ne!(
        code(Err(Failure::Io {
            path: "notes.md".into(),
            cause: "broken".into(),
            broken_pipe: false,
        })),
        REFUSED_EXIT_CODE
    );
}

#[test]
fn a_closed_downstream_is_a_normal_end() {
    let closed = report(
        &Err(Failure::Io {
            path: "-".into(),
            cause: "broken pipe".into(),
            broken_pipe: true,
        }),
        2,
    );
    assert_eq!((closed.code, closed.noted), (0, false));
    let failed = report(
        &Err(Failure::Io {
            path: "-".into(),
            cause: "disk full".into(),
            broken_pipe: false,
        }),
        2,
    );
    assert_eq!((failed.code, failed.noted), (2, true));
    // A usage error prints itself, with the code its renderer gave it.
    let usage = report(
        &Err(Failure::Usage {
            message: "no".into(),
        }),
        7,
    );
    assert_eq!((usage.code, usage.noted), (7, false));
}

#[test]
fn names_both_hashes_when_a_precondition_is_refused() {
    // The message carries what was expected and what is there now, at the width that is accepted.
    let message = Failure::Stale {
        path: "notes.md".into(),
        expected: 0x91bc_0d2f_5a7e_3c11,
        actual: 0x3f2a_1c88_de10_b4e7,
    }
    .message();

    let actual = format_hash(0x3f2a_1c88_de10_b4e7, HASH_CHARS);
    assert!(message.contains("notes.md"), "{message}");
    assert!(
        message.contains(&format_hash(0x91bc_0d2f_5a7e_3c11, HASH_CHARS)),
        "{message}"
    );
    assert!(message.contains(&actual), "{message}");
    assert!(parse_content_hash(&actual).is_ok());
    assert_eq!(parse_expected_hash(&actual), Ok(0x3f2a_1c88_de10_b4e7));
}

#[test]
fn every_failure_names_its_path() {
    let io = Failure::Io {
        path: "missing.tsv".into(),
        cause: "No such file or directory (os error 2)".into(),
        broken_pipe: false,
    };
    assert_eq!(
        io.message(),
        "missing.tsv: No such file or directory (os error 2)"
    );
    let unresolved = Failure::Unresolved {
        path: "notes.md".into(),
        subject: "k3f9m2qx".into(),
        note: "names no line",
    };
    assert_eq!(unresolved.message(), "notes.md: `k3f9m2qx` names no line");
}
