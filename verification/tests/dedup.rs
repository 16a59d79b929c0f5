//! Dropping repeated lines.

use sztools::dedup::lines::{
    compute_hash, dedup_to_writer, lines_equal, DedupCounts, OutputConfig, Rendering,
};
use sztools::dedup::run::{destination, run, validate, Args, Format};
use sztools::dedup::set::{AppendOnlyFlatHashSet, LineEntry};
use sztools::destination::Destination;
use sztools::hashing::content_hash;
use sztools::json::Terminator;
use sztools::status::Status;

fn text_config() -> OutputConfig<'static> {
    OutputConfig {
        rendering: Rendering::Terminated(Terminator::Newline),
        path: "-",
    }
}

fn verbatim_config() -> OutputConfig<'static> {
    OutputConfig {
        rendering: Rendering::Verbatim,
        path: "-",
    }
}

#[test]
fn inserts_and_finds_entries_by_hash() {
    let mut set = AppendOnlyFlatHashSet::new();
    set.insert(123, 0, 10);
    set.insert(456, 20, 5);
    set.insert(123, 50, 8); // Same hash, different entry

    assert_eq!(set.populated_count(), 3);
    assert_eq!(set.find(123).len(), 2);
    assert_eq!(set.find(456).len(), 1);
    assert_eq!(set.find(789).len(), 0);
}

#[test]
fn grows_and_rehashes_beyond_capacity() {
    let mut set = AppendOnlyFlatHashSet::new();
    // Insert more than 60% of initial capacity to trigger growth
    for i in 1..=700 {
        set.insert(i, i * 10, i);
    }
    assert!(set.capacity() > 1024);
    assert_eq!(set.populated_count(), 700);

    // Verify all entries are still findable
    for i in 1..=700 {
        assert_eq!(
            set.find(i),
            vec![LineEntry {
                hash: i,
                offset: i * 10,
                length: i
            }]
        );
    }
}

#[test]
fn never_fills_more_than_three_slots_in_five() {
    let mut set = AppendOnlyFlatHashSet::new();
    for i in 1..=2000 {
        set.insert(i, i, 1);
        assert!(set.populated_count() * 100 <= set.capacity() * 60);
        assert_eq!(set.capacity() == 1024, i <= 614);
    }
}

#[test]
fn tells_a_line_from_another_with_its_hash() {
    // Two entries share a hash, and only the bytes they point at tell them apart.
    let data = b"one\ntwo\n";
    let mut set = AppendOnlyFlatHashSet::new();
    set.insert(7, 0, 3);
    assert!(set.contains(7, b"one", data, false));
    assert!(!set.contains(7, b"two", data, false));
    assert!(!set.contains(8, b"one", data, false));
    assert!(set.contains(7, b"ONE", data, true));
}

#[test]
fn hashes_a_line_by_its_folded_case_when_asked() {
    let mut scratch = Vec::new();
    assert_eq!(
        compute_hash(b"Hello", false, &mut scratch),
        content_hash(b"Hello")
    );
    assert_eq!(
        compute_hash("HELLO".as_bytes(), true, &mut scratch),
        compute_hash("hello".as_bytes(), true, &mut scratch)
    );
    assert_eq!(
        compute_hash("HELLO".as_bytes(), true, &mut scratch),
        content_hash(b"hello")
    );
    assert!(lines_equal("STRASSE".as_bytes(), "straße".as_bytes(), true));
    assert!(!lines_equal(
        "STRASSE".as_bytes(),
        "straße".as_bytes(),
        false
    ));
}

#[test]
fn folds_unicode_case_when_comparing_lines() {
    let data = "MÜNCHEN\nmünchen\nberlin\n".as_bytes();
    let mut output = Vec::new();

    let counts = dedup_to_writer(data, &mut output, true, true, &text_config());

    assert_eq!(counts.unique, 2);
    assert_eq!(output, "MÜNCHEN\nberlin\n".as_bytes());
}

#[test]
fn keeps_every_terminator_the_input_used() {
    // A rewritten file must differ from what it was only by the lines that were dropped.
    let data = "a\r\nb\u{2028}a\r\nc".as_bytes();
    let mut output = Vec::new();

    let counts = dedup_to_writer(data, &mut output, false, true, &verbatim_config());

    assert_eq!(counts.total, 4);
    assert_eq!(output, "a\r\nb\u{2028}c".as_bytes());
}

#[test]
fn dedups_streaming_to_writer() {
    let data = b"line1\nline2\nline1\nline3\n";
    let mut output = Vec::new();

    let counts = dedup_to_writer(data, &mut output, false, false, &text_config());

    assert_eq!(counts.unique, 3);
    let result = String::from_utf8(output).unwrap();
    let lines: Vec<_> = result.lines().collect();
    assert_eq!(lines, vec!["line1", "line2", "line3"]);
}

#[test]
fn dedups_to_writer_ignoring_case() {
    let data = b"Hello\nhello\nHELLO\nworld\n";
    let mut output = Vec::new();

    let counts = dedup_to_writer(data, &mut output, true, true, &text_config());

    assert_eq!(counts.unique, 2);
    let result = String::from_utf8(output).unwrap();
    let lines: Vec<_> = result.lines().collect();
    assert_eq!(lines, vec!["Hello", "world"]);
}

#[test]
fn preserves_first_occurrence_casing() {
    let data = b"First\nfirst\nFIRST\n";
    let mut output = Vec::new();

    dedup_to_writer(data, &mut output, true, true, &text_config());

    let result = String::from_utf8(output).unwrap();
    assert_eq!(result, "First\n");
}

#[test]
fn dedups_empty_input() {
    let data = b"";
    let mut output = Vec::new();

    let counts = dedup_to_writer(data, &mut output, false, false, &text_config());

    assert_eq!(counts.unique, 0);
    assert!(output.is_empty());
}

#[test]
fn dedups_repeated_blank_lines() {
    let data = b"\n\n\ntext\n\n";
    let mut output = Vec::new();

    let counts = dedup_to_writer(data, &mut output, false, false, &text_config());

    assert_eq!(counts.unique, 2); // "" and "text"
}

#[test]
fn deduplicating_what_was_deduplicated_drops_nothing() {
    let data = b"b\na\nb\n\na\n\nc";
    let mut once = Vec::new();
    let first = dedup_to_writer(data, &mut once, false, false, &verbatim_config());
    assert_eq!(once, b"b\na\n\nc");
    assert!(first.dropped_any());
    let mut twice = Vec::new();
    let second = dedup_to_writer(&once, &mut twice, false, false, &verbatim_config());
    assert_eq!(twice, once);
    assert!(!second.dropped_any());
}

#[test]
fn deduplicating_what_was_printed_drops_nothing() {
    let config = text_config();
    for (utf8, expected) in [
        (false, b"q\rq\n\n\xE2\x80\xA8\nz\n".as_slice()),
        (true, b"q\n\nz\n".as_slice()),
    ] {
        let data = "q\rq\n\n\u{2028}\nz".as_bytes();
        let mut once = Vec::new();
        dedup_to_writer(data, &mut once, false, utf8, &config);
        assert_eq!(once, expected);
        let mut twice = Vec::new();
        let again = dedup_to_writer(&once, &mut twice, false, utf8, &config);
        assert_eq!(twice, once);
        assert!(!again.dropped_any());
    }
}

fn args() -> Args {
    Args {
        input: Some("f".to_string()),
        output: None,
        in_place: false,
        dry_run: false,
        ignore_case: false,
        utf8: false,
        format: Format::Text,
        summary: false,
        null: false,
        quiet: false,
    }
}

#[test]
fn sz_dedup_declares_the_conflicts_that_used_to_pass_silently() {
    assert!(validate(&Args {
        in_place: true,
        ..args()
    })
    .is_ok());
    let rejected = [
        Args {
            in_place: true,
            null: true,
            ..args()
        },
        Args {
            in_place: true,
            output: Some("o".to_string()),
            ..args()
        },
        Args {
            in_place: true,
            dry_run: true,
            ..args()
        },
        Args {
            quiet: true,
            summary: true,
            ..args()
        },
        Args {
            quiet: true,
            format: Format::Json,
            ..args()
        },
        Args {
            null: true,
            format: Format::Json,
            ..args()
        },
        Args {
            summary: true,
            dry_run: true,
            ..args()
        },
    ];
    for (index, case) in rejected.iter().enumerate() {
        assert!(
            validate(case).is_err(),
            "expected case {index} to be rejected"
        );
    }
    assert!(
        validate(&Args {
            summary: true,
            format: Format::Json,
            ..args()
        })
        .is_ok(),
        "--summary names the record json already emits"
    );
}

#[test]
fn refuses_to_rewrite_stdin_in_place() {
    for input in [None, Some("-".to_string())] {
        let case = Args {
            in_place: true,
            input,
            ..args()
        };
        assert!(validate(&case).is_err());
    }
}

#[test]
fn rewrites_an_empty_file_as_a_no_op() {
    let mut output = Vec::new();
    let counts = dedup_to_writer(b"", &mut output, false, false, &verbatim_config());

    assert_eq!(counts, DedupCounts::default());
    assert_eq!(output, b"");
}

#[test]
fn sz_dedup_closes_a_json_stream_with_its_summary() {
    let data = b"a\na\n";
    let mut output = Vec::new();
    let config = OutputConfig {
        rendering: Rendering::Json,
        path: "f.txt",
    };

    dedup_to_writer(data, &mut output, false, false, &config);

    let text = String::from_utf8(output).unwrap();
    let records: Vec<_> = text.lines().collect();
    assert_eq!(records.len(), 2);
    assert!(records[1].contains(r#""type":"summary""#));
    assert!(records[1].contains(r#""unique_lines":1,"total_lines":2"#));
}

#[test]
fn detects_empty_line_entries() {
    assert!(LineEntry::empty().is_empty());
    assert!(LineEntry::default().is_empty());

    let occupied = LineEntry {
        hash: 123,
        offset: 0,
        length: 10,
    };
    assert!(!occupied.is_empty());
}

#[test]
fn sends_the_lines_where_they_were_asked_for() {
    assert!(matches!(destination(&args()), Destination::Stdout));
    let to_file = Args {
        output: Some("o".to_string()),
        ..args()
    };
    assert!(matches!(destination(&to_file), Destination::Creating("o")));
    let to_dash = Args {
        output: Some("-".to_string()),
        ..args()
    };
    assert!(matches!(destination(&to_dash), Destination::Stdout));
    let rewriting = Args {
        in_place: true,
        ..args()
    };
    assert!(matches!(
        destination(&rewriting),
        Destination::Replacing("f")
    ));
    let silent = Args {
        quiet: true,
        ..args()
    };
    assert!(matches!(destination(&silent), Destination::Discard));
}

#[test]
fn reports_what_a_run_did() {
    let summarized = Args {
        summary: true,
        ..args()
    };
    let finished = run(&summarized, b"a\nb\na\n");
    assert_eq!(finished.content, b"a\nb\n");
    assert_eq!(finished.notes, b"2 unique lines of 3\n");
    assert!(finished.status == Status::Success);

    // A quiet run answers whether there was anything to drop.
    let quiet = || Args {
        quiet: true,
        ..args()
    };
    assert!(run(&quiet(), b"a\nb\n").status == Status::NoResult);
    assert!(run(&quiet(), b"a\na\n").status == Status::Success);
    assert!(run(&args(), b"").status == Status::NoResult);

    // A dry run under JSON owes the record its stream would have closed with.
    let dry = Args {
        dry_run: true,
        format: Format::Json,
        ..args()
    };
    let notes = String::from_utf8(run(&dry, b"a\na\n").notes).unwrap();
    assert!(notes.contains(r#""unique_lines":1,"total_lines":2"#));
}

#[test]
fn doubles_its_slots_and_keeps_every_entry_of_a_hash() {
    let mut set = AppendOnlyFlatHashSet::new();
    for i in 0..2000 {
        set.insert(i % 7, i, 1);
    }
    assert_eq!(set.capacity(), 4096);
    assert_eq!(set.populated_count(), 2000);
    for hash in 0..7 {
        let mut offsets: Vec<u64> = set.find(hash).iter().map(|entry| entry.offset).collect();
        offsets.sort();
        let inserted: Vec<u64> = (0..2000).filter(|i| i % 7 == hash).collect();
        assert_eq!(offsets, inserted);
    }
    assert!(set.find(7).is_empty());
}
