//! Extracting columns.

use sztools::cols::columns::{parse_column, parse_columns};
use sztools::cols::extract::{
    extract_data, field_at, split_fields, ColsState, ColumnSelection, OutputConfig,
};
use sztools::cols::run::{run, validate, Args, Format};
use sztools::cols::stream::{ColsStream, Need};
use sztools::json::Terminator;
use sztools::lines::Newlines;
use sztools::status::{Failure, Status};

#[test]
fn names_the_token_it_read_in_every_column_error() {
    for (spec, expected) in [
        ("2-", "a column number is missing"),
        ("abc", "`abc` is not a column number"),
        ("0", "column numbers start at 1"),
        ("5-2", "runs backwards"),
        ("1-2-3", "is not a range"),
        ("", "no columns given"),
    ] {
        let error = parse_columns(spec).expect_err("must not parse");
        assert!(error.contains(expected), "`{spec}` reported `{error}`");
    }
}

#[test]
fn counts_records_a_quiet_run_never_writes() {
    // The count that becomes the exit status is the same one a printing run would report.
    let selection = ColumnSelection::new(&[0], b"\t", None);
    let config = text_config(b"\t");

    let mut state = ColsState::default();
    let mut discard = Vec::new();
    extract_data(
        b"a\tb\n",
        &mut state,
        &selection,
        Newlines::Lf,
        &config,
        &mut discard,
    );
    assert!(Status::from_found(state.emitted > 0) == Status::Success);

    let mut state = ColsState::default();
    extract_data(
        b"",
        &mut state,
        &selection,
        Newlines::Lf,
        &config,
        &mut discard,
    );
    assert!(Status::from_found(state.emitted > 0) == Status::NoResult);

    let quiet = Args {
        quiet: true,
        ..args()
    };
    let mut output = Vec::new();
    assert_eq!(run(&quiet, b"a\tb\n", &mut output), Ok(Status::Success));
    assert!(output.is_empty());
}

fn args() -> Args {
    Args {
        input: None,
        columns: "1".to_string(),
        delimiter: "\t".to_string(),
        output_delimiter: None,
        min_columns: None,
        utf8: false,
        format: None,
        null: false,
        quiet: false,
    }
}

#[test]
fn sz_cols_quiet_rejects_the_flags_it_would_ignore() {
    // Under `--quiet` the exit status is the whole output, so nothing that shapes a record can
    // reach it.
    let rejected = [
        Args {
            quiet: true,
            format: Some(Format::Json),
            ..args()
        },
        Args {
            quiet: true,
            null: true,
            ..args()
        },
        Args {
            quiet: true,
            output_delimiter: Some(",".to_string()),
            ..args()
        },
    ];
    for (index, arguments) in rejected.iter().enumerate() {
        assert!(validate(arguments).is_err(), "case {index} must be rejected");
    }

    // Which rows survive still steers the status, so the filters compose.
    let accepted = [
        Args {
            quiet: true,
            min_columns: Some(3),
            ..args()
        },
        Args {
            quiet: true,
            delimiter: ",".to_string(),
            ..args()
        },
        Args {
            quiet: true,
            utf8: true,
            ..args()
        },
    ];
    for (index, arguments) in accepted.iter().enumerate() {
        assert!(validate(arguments).is_ok(), "case {index} must compose");
    }
}

#[test]
fn names_the_path_a_failure_happened_on() {
    let failure = Failure::Io {
        path: "missing.tsv".to_string(),
        cause: "No such file or directory (os error 2)".to_string(),
        broken_pipe: false,
    };
    assert!(failure.message().starts_with("missing.tsv: "));
}

#[test]
fn rejects_what_json_would_silently_ignore() {
    assert!(validate(&Args {
        delimiter: String::new(),
        ..args()
    })
    .is_err());
    assert!(validate(&Args {
        format: Some(Format::Json),
        output_delimiter: Some(",".to_string()),
        ..args()
    })
    .is_err());
    assert!(validate(&Args {
        format: Some(Format::Json),
        null: true,
        ..args()
    })
    .is_err());
    assert!(validate(&Args {
        output_delimiter: Some(",".to_string()),
        ..args()
    })
    .is_ok());
    assert!(validate(&Args {
        null: true,
        ..args()
    })
    .is_ok());
}

#[test]
fn parses_single_column_index() {
    assert_eq!(parse_columns("2").unwrap(), vec![1]); // 0-based
    assert_eq!(parse_columns("1").unwrap(), vec![0]);
}

#[test]
fn parses_comma_separated_column_list() {
    assert_eq!(parse_columns("1,3,5").unwrap(), vec![0, 2, 4]);
    assert_eq!(parse_columns("2, 4").unwrap(), vec![1, 3]); // with spaces
}

#[test]
fn parses_column_range() {
    assert_eq!(parse_columns("2-5").unwrap(), vec![1, 2, 3, 4]);
    assert_eq!(parse_columns("1-3").unwrap(), vec![0, 1, 2]);
}

#[test]
fn parses_mixed_column_list_and_range() {
    assert_eq!(parse_columns("1,3-5,7").unwrap(), vec![0, 2, 3, 4, 6]);
}

#[test]
fn rejects_invalid_column_specs() {
    assert!(parse_columns("0").is_err()); // 0 not allowed
    assert!(parse_columns("5-2").is_err()); // invalid range
    assert!(parse_columns("abc").is_err()); // not a number
}

#[test]
fn reads_one_column_token() {
    let column = |text: &str| parse_column(&text.chars().collect::<Vec<char>>());
    assert_eq!(column("7"), Ok(6)); // 0-based
    assert!(column("").unwrap_err().contains("missing"));
    assert!(column("0").unwrap_err().contains("start at 1"));
}

fn fields<'a>(line: &'a [u8], delimiter: &'a [u8]) -> Vec<&'a [u8]> {
    let mut out = Vec::new();
    split_fields(line, delimiter, None, &mut out);
    out
}

#[test]
fn splits_fields_on_tab() {
    assert_eq!(
        fields(b"a\tb\tc", b"\t"),
        vec![b"a".as_slice(), b"b".as_slice(), b"c".as_slice()]
    );
}

#[test]
fn splits_fields_on_comma() {
    assert_eq!(
        fields(b"one,two,three", b","),
        vec![b"one".as_slice(), b"two".as_slice(), b"three".as_slice()]
    );
}

#[test]
fn splits_fields_on_multi_char_delimiter() {
    assert_eq!(
        fields(b"a::b::c", b"::"),
        vec![b"a".as_slice(), b"b".as_slice(), b"c".as_slice()]
    );
}

#[test]
fn joins_the_fields_of_a_line_back_into_it() {
    for line in [&b""[..], b",", b"a,,b", b"a,b,", b",,,", b"plain"] {
        assert_eq!(fields(line, b",").join(&b","[..]), line);
    }
}

#[test]
fn stops_splitting_at_a_limit() {
    let mut out = Vec::new();
    split_fields(b"a,b,c,d", b",", Some(2), &mut out);
    assert_eq!(out, vec![&b"a"[..], b"b"]);
    assert_eq!(field_at(&out, 1), b"b");
    assert_eq!(field_at(&out, 2), b"");
}

fn text_config(output_delimiter: &'static [u8]) -> OutputConfig<'static> {
    OutputConfig {
        json: false,
        terminator: Terminator::Newline,
        output_delimiter,
        path: "-",
    }
}

/// Extract from a whole buffer, returning the output and the record count.
fn extract(
    data: &[u8],
    selection: &ColumnSelection,
    newlines: Newlines,
    config: &OutputConfig,
) -> (Vec<u8>, usize) {
    let mut state = ColsState::default();
    let mut output = Vec::new();
    extract_data(data, &mut state, selection, newlines, config, &mut output);
    (output, state.emitted)
}

/// Extract the same way, but through a window of exactly `capacity` bytes.
fn extract_streamed(
    data: &[u8],
    capacity: usize,
    selection: ColumnSelection,
    newlines: Newlines,
    config: OutputConfig,
) -> (Vec<u8>, usize) {
    let mut stream = ColsStream::new(selection, newlines, config, capacity);
    let mut output = Vec::new();
    let mut rest = data;
    loop {
        match stream.advance(&mut output) {
            Need::Read { room } => {
                let (front, back) = rest.split_at(room.min(rest.len()));
                stream.supply(front);
                rest = back;
            }
            Need::Done => return (output, stream.finish().emitted),
        }
    }
}

#[test]
fn extracts_single_column() {
    let data = b"a\tb\tc\n1\t2\t3\n";

    let (output, count) = extract(
        data,
        &ColumnSelection::new(&[1], b"\t", None),
        Newlines::Lf,
        &text_config(b"\t"),
    );

    assert_eq!(count, 2);
    assert_eq!(output, b"b\n2\n");
}

#[test]
fn extracts_and_reorders_multiple_columns() {
    let data = b"a\tb\tc\td\n";

    let (output, _) = extract(
        data,
        &ColumnSelection::new(&[0, 2], b"\t", None),
        Newlines::Lf,
        &text_config(b","),
    );

    assert_eq!(output, b"a,c\n");

    let (output, _) = extract(
        data,
        &ColumnSelection::new(&[3, 0, 0], b"\t", None),
        Newlines::Lf,
        &text_config(b","),
    );

    assert_eq!(output, b"d,a,a\n");
}

#[test]
fn emits_empty_field_when_missing() {
    let data = b"a\tb\n";

    let (output, _) = extract(
        data,
        &ColumnSelection::new(&[0, 2], b"\t", None),
        Newlines::Lf,
        &text_config(b"\t"),
    );

    // Field 3 (index 2) doesn't exist, should output empty
    assert_eq!(output, b"a\t\n");
}

#[test]
fn skips_rows_below_min_columns() {
    let data = b"a\tb\tc\na\n1\t2\t3\n";

    let (output, count) = extract(
        data,
        &ColumnSelection::new(&[1], b"\t", Some(3)),
        Newlines::Lf,
        &text_config(b"\t"),
    );

    // Only lines with 3+ fields
    assert_eq!(count, 2);
    assert_eq!(output, b"b\n2\n");
}

#[test]
fn terminates_records_with_nul() {
    let data = b"a\tb\n1\t2\n";
    let mut config = text_config(b"\t");
    config.terminator = Terminator::Null;

    let (output, _) = extract(
        data,
        &ColumnSelection::new(&[0], b"\t", None),
        Newlines::Lf,
        &config,
    );

    assert_eq!(output, b"a\0\x31\0");
}

#[test]
fn emits_json_records_with_columns() {
    let data = b"a\tb\tc\n";
    let mut config = text_config(b"\t");
    config.json = true;

    let (output, _) = extract(
        data,
        &ColumnSelection::new(&[0, 2], b"\t", None),
        Newlines::Lf,
        &config,
    );

    assert_eq!(
        String::from_utf8(output).unwrap(),
        "{\"type\":\"line\",\"data\":{\"path\":{\"text\":\"-\"},\
         \"columns\":[{\"text\":\"a\"},{\"text\":\"c\"}],\"line_number\":1}}\n"
    );
}

#[test]
fn stops_splitting_once_selected_columns_are_in_hand() {
    let wide: Vec<u8> = {
        let mut line: Vec<u8> = (0..64)
            .map(|column| format!("c{}", column))
            .collect::<Vec<_>>()
            .join("\t")
            .into_bytes();
        line.push(b'\n');
        line
    };

    let early = extract(
        &wide,
        &ColumnSelection::new(&[0, 2], b"\t", None),
        Newlines::Lf,
        &text_config(b"\t"),
    );
    let whole = extract(
        &wide,
        &ColumnSelection {
            indices: &[0, 2],
            limit: None,
            delimiter: b"\t",
            min_columns: None,
        },
        Newlines::Lf,
        &text_config(b"\t"),
    );

    assert_eq!(ColumnSelection::new(&[0, 2], b"\t", None).limit, Some(3));
    assert_eq!(ColumnSelection::new(&[0, 2], b"\t", Some(4)).limit, None);
    assert_eq!(early, whole);
    assert_eq!(early.0, b"c0\tc2\n");
}

#[test]
fn splits_rows_on_unicode_newlines_under_utf8() {
    // Line separators, which only the Unicode newline set breaks on.
    let data = "a\tb\u{2028}c\td\n".as_bytes();
    let selection = ColumnSelection::new(&[1], b"\t", None);

    let (output, count) = extract(data, &selection, Newlines::Unicode, &text_config(b"\t"));
    assert_eq!(count, 2);
    assert_eq!(output, b"b\nd\n");

    // Without it the separator is ordinary text inside one wide field.
    let (output, count) = extract(data, &selection, Newlines::Lf, &text_config(b"\t"));
    assert_eq!(count, 1);
    assert_eq!(output, "b\u{2028}c\n".as_bytes());
}

#[test]
fn streams_identically_to_whole_buffer() {
    // A blank line, an over-wide line, and a final line without a terminator.
    let data = "a\tb\tc\n\t\t\n\nvery\tlong\trecord\u{2028}that\toutgrows\ta\ttiny\twindow\nx\ty"
        .as_bytes();

    for (newline_set, newlines) in [("lf", Newlines::Lf), ("unicode", Newlines::Unicode)] {
        for (columns, least) in [
            (&[1][..], None),
            (&[0, 2][..], None),
            (&[1][..], Some(3)),
        ] {
            for (json, between) in [(false, &b"\t"[..]), (false, b","), (true, b",")] {
                let selection = || ColumnSelection::new(columns, b"\t", least);
                let config = || OutputConfig {
                    json,
                    ..text_config(between)
                };
                let whole = extract(data, &selection(), newlines, &config());
                for capacity in [7, 13, 64, 4096] {
                    assert_eq!(
                        extract_streamed(data, capacity, selection(), newlines, config()),
                        whole,
                        "{} newlines at capacity {}",
                        newline_set,
                        capacity
                    );
                }
            }
        }
    }
}

#[test]
fn streams_an_empty_input_without_records() {
    let (output, count) = extract_streamed(
        b"",
        7,
        ColumnSelection::new(&[0], b"\t", None),
        Newlines::Lf,
        text_config(b"\t"),
    );

    assert!(output.is_empty());
    assert_eq!(count, 0);
}

#[test]
fn runs_from_arguments_to_records() {
    let mut output = Vec::new();
    let joined = Args {
        columns: "3,1".to_string(),
        delimiter: ",".to_string(),
        output_delimiter: Some(" | ".to_string()),
        ..args()
    };
    assert_eq!(
        run(&joined, b"a,b,c\nd,e\n", &mut output),
        Ok(Status::Success)
    );
    assert_eq!(output, b"c | a\n | d\n");

    let mut output = Vec::new();
    assert_eq!(run(&args(), b"", &mut output), Ok(Status::NoResult));

    let refused = Args {
        columns: "x".to_string(),
        ..args()
    };
    assert_eq!(
        run(&refused, b"a\n", &mut output),
        Err("`x` is not a column number".to_string())
    );
    assert!(output.is_empty());
}

#[test]
fn resumes_an_extraction_where_a_line_ended() {
    let data = b"a\tb\nc\td\n\ne\tf";
    let selection = ColumnSelection::new(&[1], b"\t", Some(2));
    let config = OutputConfig {
        json: true,
        ..text_config(b"\t")
    };
    let (whole, emitted) = extract(data, &selection, Newlines::Lf, &config);
    assert_eq!(emitted, 3);
    for at in [0, 4, 8, 9] {
        let mut state = ColsState::default();
        let mut output = Vec::new();
        for part in [&data[..at], &data[at..]] {
            extract_data(part, &mut state, &selection, Newlines::Lf, &config, &mut output);
        }
        assert_eq!(output, whole);
        assert_eq!((state.line_number, state.emitted), (4, 3));
    }
}

#[test]
fn asks_an_extraction_for_bytes_until_a_line_ends() {
    // A window of four bytes is widened for the line that no four bytes end.
    let selection = ColumnSelection::new(&[0], b"\t", None);
    let mut stream = ColsStream::new(selection, Newlines::Lf, text_config(b"\t"), 4);
    let mut output = Vec::new();
    assert_eq!(stream.advance(&mut output), Need::Read { room: 4 });
    stream.supply(b"abcd");
    assert_eq!(stream.advance(&mut output), Need::Read { room: 4 });
    stream.supply(b"ef\ng");
    assert_eq!(stream.advance(&mut output), Need::Read { room: 7 });
    assert_eq!(output, b"abcdef\n");
    stream.supply(b"");
    assert_eq!(stream.advance(&mut output), Need::Done);
    assert_eq!(output, b"abcdef\ng\n");
}
