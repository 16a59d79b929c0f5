//! Searching lines.

use sztools::args::parse_at_least_one;
use sztools::find::files::{self, can_stream, WindowSearch};
use sztools::find::matcher::{
    is_word_boundary, trim_to_limit, Fit, MatchInfo, MatchIter, Matcher,
};
use sztools::find::multiline::{printed_region, LineCursor};
use sztools::find::options::{
    validate, Args, ColorChoice, Colors, Context, Field, Format, Inputs, Match, OutputConfig,
    OutputFormat, Reporting, Show,
};
use sztools::find::search::{LineCounting, Search, Selection};
use sztools::find::session::{inputs_of, is_binary, print_summary, Outcome, Session, Summary};
use sztools::find::window::{FileResult, Stop};
use sztools::hashing::{
    content_hash, format_hash, parse_content_hash, parse_hash_prefix, DEFAULT_HASH_WIDTH,
    HASH_CHARS,
};
use sztools::json::Terminator;
use sztools::lines::Newlines;
use sztools::replace::run::parse_expected_hash;
use sztools::status::Status;

fn make_search(pattern: &[u8]) -> Search<'_> {
    Search {
        matcher: Matcher {
            pattern,
            ignore_case: false,
            whole_word: false,
            unicode: false,
        },
        newlines: Newlines::Lf,
        multiline: false,
        invert_match: false,
        max_matches: None,
        line_counting: LineCounting::Reported,
    }
}

fn make_config() -> OutputConfig {
    OutputConfig {
        output_format: OutputFormat::Standard,
        colors: Colors::disabled(),
        fields: 0,
        hash_width: DEFAULT_HASH_WIDTH,
        show: Show::Lines,
        inputs: Inputs::One,
        max_line_length: None,
        terminator: b'\n',
    }
}

/// Search a whole slice, returning what it printed and what it counted.
fn search_whole(data: &[u8], search: &Search, reporting: &Reporting) -> (Vec<u8>, usize, usize) {
    let mut output = Vec::new();
    let result = files::search_whole(data, "test.txt", search, reporting, &mut output);
    (output, result.match_count, result.lines_searched)
}

/// Search through a window of exactly `capacity` bytes, reading no more than `budget` of them.
fn search_budgeted(
    data: &[u8],
    capacity: usize,
    budget: usize,
    search: &Search,
    reporting: &Reporting,
) -> (Vec<u8>, FileResult) {
    let mut searcher = WindowSearch::new("test.txt", search, reporting, capacity);
    let mut output = Vec::new();
    let mut position = 0;
    while let files::Need::Read { room } = searcher.advance(&mut output) {
        assert!(
            position < budget || position == data.len(),
            "read past the budget"
        );
        let taken = room.min(data.len() - position).min(budget - position);
        searcher.supply(&data[position..position + taken]);
        position += taken;
    }
    let result = searcher.finish(&mut output);
    (output, result)
}

/// Search the same way as a whole slice, but through a window of exactly `capacity` bytes.
fn search_streamed(
    data: &[u8],
    capacity: usize,
    search: &Search,
    reporting: &Reporting,
) -> (Vec<u8>, usize, usize) {
    let (output, result) = search_budgeted(data, capacity, usize::MAX, search, reporting);
    (output, result.match_count, result.lines_searched)
}

/// Lines that put every seam case in reach of a tiny window: multi-byte characters, CRLF, blank
/// lines, a line wider than the smallest capacity, and no trailing newline.
const SEAM_CORPUS: &[u8] = "alpha error one\nbeta ok\n\ngamma error two\r\nδέλτα error três\nlong \
     xxxxxxxxxxxxxxxxxxxxxxxxxxxxxxxxxxxx error tail\nepsilon ok\nzeta error last"
    .as_bytes();

/// Whether a pattern matches in a line.
fn has_match(line: &[u8], pattern: &[u8], ignore_case: bool, whole_word: bool) -> bool {
    let matcher = Matcher {
        pattern,
        ignore_case,
        whole_word,
        unicode: false,
    };
    MatchIter::new(line, matcher).next().is_some()
}

/// The arguments of a run that searches for `pattern`.
fn args(pattern: &str) -> Args {
    Args {
        pattern: pattern.to_string(),
        inputs: Vec::new(),
        show: None,
        format: Format::Text,
        fields: Vec::new(),
        hash_width: None,
        match_kind: Match::Substring,
        ignore_case: false,
        before_context: 0,
        after_context: 0,
        context: None,
        utf8: false,
        multiline: false,
        invert_match: false,
        max_matches: None,
        quiet: false,
        summary: false,
        color: ColorChoice::Auto,
        heading: false,
        max_line_length: None,
        null: false,
        binary: false,
    }
}

/// Read a command line into the arguments of a run.
fn read(flags: &[&str], pattern: &str) -> Args {
    let mut args = args(pattern);
    let mut rest = flags.iter().copied();
    while let Some(flag) = rest.next() {
        match flag {
            "--quiet" => args.quiet = true,
            "--null" => args.null = true,
            "--heading" => args.heading = true,
            "--summary" => args.summary = true,
            "--multiline" => args.multiline = true,
            "--invert-match" => args.invert_match = true,
            _ => {
                let value = rest.next().expect("a value follows");
                match flag {
                    "--format" => {
                        args.format = match value {
                            "json" => Format::Json,
                            "vimgrep" => Format::Vimgrep,
                            _ => Format::Text,
                        }
                    }
                    "--fields" => {
                        args.fields = value
                            .split(',')
                            .map(|name| match name {
                                "line-numbers" => Field::LineNumbers,
                                "byte-offset" => Field::ByteOffset,
                                "line-hashes" => Field::LineHashes,
                                "file-hash" => Field::FileHash,
                                _ => Field::ColumnNumbers,
                            })
                            .collect()
                    }
                    "--show" => {
                        args.show = Some(match value {
                            "matches" => Show::Matches,
                            "count" => Show::Count,
                            "files" => Show::Files,
                            "files-without" => Show::FilesWithout,
                            _ => Show::Lines,
                        })
                    }
                    "--color" => args.color = ColorChoice::parse(value).unwrap(),
                    "--max-line-length" => args.max_line_length = value.parse().ok(),
                    "--max-matches" => args.max_matches = value.parse().ok(),
                    "--context" => args.context = value.parse().ok(),
                    "--after-context" => args.after_context = value.parse().unwrap(),
                    "--before-context" => args.before_context = value.parse().unwrap(),
                    other => panic!("unknown flag {other}"),
                }
            }
        }
    }
    args
}

#[test]
fn rejects_flags_that_would_silently_override_each_other() {
    let accepts = |flags: &[&str]| validate(&read(flags, "e")).is_ok();

    // Each second flag is inert by construction under the first.
    for flags in [
        vec!["--quiet", "--format", "json"],
        vec!["--quiet", "--null"],
        vec!["--quiet", "--fields", "line-numbers"],
        vec!["--quiet", "--fields", "line-hashes"],
        vec!["--quiet", "--heading"],
        vec!["--quiet", "--color", "always"],
        vec!["--quiet", "--max-line-length", "10"],
        vec!["--quiet", "--context", "2"],
        vec!["--quiet", "--max-matches", "3"],
        vec!["--quiet", "--show", "count"],
        vec!["--format", "json", "--null"],
        vec!["--format", "json", "--heading"],
        vec!["--format", "json", "--color", "always"],
        vec!["--format", "json", "--max-line-length", "10"],
        // JSON emits the position of every record unasked, so naming it is inert.
        vec!["--format", "json", "--fields", "line-numbers"],
        vec!["--format", "json", "--fields", "byte-offset"],
        vec!["--format", "vimgrep", "--heading"],
        vec!["--format", "vimgrep", "--fields", "line-numbers"],
        vec!["--format", "vimgrep", "--fields", "line-hashes"],
        vec!["--format", "vimgrep", "--color", "always"],
        vec!["--show", "count", "--fields", "line-numbers"],
        vec!["--show", "count", "--heading"],
        vec!["--show", "files", "--fields", "line-numbers"],
        vec!["--show", "files", "--context", "2"],
        vec!["--show", "matches", "--invert-match"],
        vec!["--multiline", "--invert-match"],
        vec!["--context", "2", "--after-context", "1"],
    ] {
        assert!(!accepts(&flags), "accepted {:?}", flags);
    }

    // A count is a record, so `--null` terminates it and JSON carries it. A cap is
    // inert under `--quiet` alone, and bounds the totals `--summary` reports.
    assert!(accepts(&["--show", "count", "--null"]));
    assert!(accepts(&["--show", "count", "--format", "json"]));
    assert!(accepts(&["--quiet", "--summary", "--max-matches", "2"]));
    // A whole-file hash is the one field JSON does not already emit, so it is the one
    // `--fields` value that form accepts.
    assert!(accepts(&["--format", "json", "--fields", "file-hash"]));
    // Neither hash is emitted unasked, so both are meaningful under JSON.
    assert!(accepts(&["--format", "json", "--fields", "line-hashes"]));
    assert!(accepts(&[
        "--format",
        "json",
        "--fields",
        "line-hashes,file-hash"
    ]));
    assert!(accepts(&["--heading", "--fields", "file-hash"]));
    // Plain text and vimgrep have nowhere to put it but every record.
    assert!(!accepts(&["--fields", "file-hash"]));
    assert!(!accepts(&["--format", "vimgrep", "--fields", "file-hash"]));

    assert!(validate(&args("")).is_err());
    // Zero is a whole-run no-op rather than a limit.
    assert!(parse_at_least_one("0").is_err());
}

#[test]
fn selects_one_record_kind() {
    assert_eq!(read(&["--show", "matches"], "error").show, Some(Show::Matches));
    assert_eq!(
        read(&["--show", "files-without"], "error").show,
        Some(Show::FilesWithout)
    );
    // A run that names none shows lines.
    let session_of = |args: &Args| Session::new(args, Inputs::One, false).show;
    assert_eq!(session_of(&args("error")), Show::Lines);
    assert_eq!(session_of(&read(&["--show", "count"], "error")), Show::Count);
}

#[test]
fn bounds_the_summary_totals_under_quiet() {
    // `--quiet` prints no line, so the cap only ever shows in what `--summary` reports.
    let args = read(&["--quiet", "--summary", "--max-matches", "2"], "error");
    assert!(validate(&args).is_ok());

    let session = Session::new(&args, Inputs::One, false);
    let (mut printed, mut notes) = (Vec::new(), Vec::new());
    let mut outcome = Outcome::default();
    session.search_input(
        b"error one\nerror two\nerror three\n",
        "log.txt",
        &mut printed,
        &mut outcome,
    );
    assert!(outcome.tally.status() == Status::Success);
    assert!(printed.is_empty(), "--quiet prints no line");
    print_summary(
        &mut printed,
        &mut notes,
        args.format,
        &outcome.summary,
        "0.001",
        "0.00",
        None,
    );
    let notes = String::from_utf8(notes).unwrap();
    assert!(notes.contains("Matches found:  2"), "{notes}");
}

#[test]
fn searches_past_a_missing_input_but_still_reports_the_failure() {
    let args = args("error");
    let session = Session::new(&args, Inputs::Many, false);
    let mut output = Vec::new();
    let mut outcome = Outcome::default();
    // The readable neighbour is still searched and its matches still printed, but an input that
    // could not be read is a run that did not complete.
    outcome.tally.failed();
    session.search_input(b"error here\n", "present.txt", &mut output, &mut outcome);
    assert!(outcome.tally.status() == Status::Error);
    assert_eq!(output, b"present.txt:error here\n");

    let mut outcome = Outcome::default();
    outcome.tally.failed();
    assert!(outcome.tally.status() == Status::Error);
}

#[test]
fn honours_stdin_in_any_position() {
    let mut two = args("error");
    two.inputs = vec!["log.txt".to_string(), "-".to_string()];
    assert_eq!(inputs_of(&two, false), Inputs::Many);
    two.inputs.pop();
    assert_eq!(inputs_of(&two, false), Inputs::One);
    assert_eq!(inputs_of(&two, true), Inputs::Many);
}

/// A session reporting `show` records in `format`, over a single unnamed input.
fn make_session(show: Show, format: Format, null: bool) -> Session<'static> {
    Session {
        search: make_search(b"error"),
        reporting: Reporting::Tally {
            stop_at_first: false,
        },
        show,
        format,
        terminator: Terminator::from_null(null).as_byte(),
        inputs: Inputs::One,
        binary: false,
    }
}

fn report_one(session: &Session, match_count: usize) -> Vec<u8> {
    let mut output = Vec::new();
    let mut outcome = Outcome::default();
    let result = FileResult {
        match_count,
        lines_searched: 9,
        bytes_searched: 40,
        flow: None,
    };
    session.report(&mut output, "log.txt", &result, &mut outcome);
    assert_eq!(
        outcome.tally.status(),
        Status::from_found(match_count > 0 || session.show == Show::FilesWithout)
    );
    output
}

/// The hashes a run printed, in order, given one column of them. A context line ends its columns
/// with `-` where a matching line ends them with `:`.
fn printed_hashes(output: &[u8], column: usize) -> Vec<String> {
    String::from_utf8(output.to_vec())
        .unwrap()
        .lines()
        .filter_map(|line| line.split([':', '-']).nth(column).map(str::to_string))
        .collect()
}

#[test]
fn emits_the_summary_as_a_record_under_json() {
    let summary = Summary {
        files_searched: 2,
        files_matched: 1,
        lines_searched: 9,
        matches_found: 3,
        bytes_searched: 40,
    };
    let mut printed = Vec::new();
    print_summary(
        &mut printed,
        &mut Vec::new(),
        Format::Json,
        &summary,
        "1.500",
        "0.00",
        None,
    );
    assert_eq!(
        String::from_utf8(printed).unwrap(),
        "{\"type\":\"summary\",\"data\":{\"files_searched\":2,\"files_matched\":1,\
         \"lines_searched\":9,\"matches_found\":3,\"bytes_searched\":40,\"seconds\":1.500}}\n"
    );
}

#[test]
fn tallies_silently_under_quiet() {
    let args = read(&["--quiet"], "error");
    let reporting = Reporting::pick(&args, Show::Lines, Context::none(), Inputs::One, false);
    assert!(matches!(
        reporting,
        Reporting::Tally {
            stop_at_first: true
        }
    ));
    assert!(reporting.config().is_none());
}

#[test]
fn emits_a_count_record_rather_than_a_bare_integer_in_json() {
    let text = report_one(&make_session(Show::Count, Format::Text, false), 3);
    assert_eq!(text, b"3\n");
    let json = report_one(&make_session(Show::Count, Format::Json, false), 3);
    assert_eq!(
        json,
        br#"{"type":"count","data":{"path":{"text":"log.txt"},"count":3}}"#
            .iter()
            .copied()
            .chain(*b"\n")
            .collect::<Vec<u8>>()
    );
}

#[test]
fn terminates_every_record_with_nul_under_null() {
    assert_eq!(
        report_one(&make_session(Show::Files, Format::Text, true), 2),
        b"log.txt\0"
    );
    assert_eq!(
        report_one(&make_session(Show::FilesWithout, Format::Text, true), 0),
        b"log.txt\0"
    );
    assert_eq!(
        report_one(&make_session(Show::Count, Format::Text, true), 2),
        b"2\0"
    );

    // `--null` reaches the printed lines too, where grep's `-Z` stops at file names.
    let mut config = make_config();
    config.terminator = 0;
    let (printed, ..) = search_whole(
        b"error one\nplain\nerror two\n",
        &make_search(b"error"),
        &Reporting::Print(config),
    );
    assert_eq!(printed, b"error one\0error two\0");
}

#[test]
fn reads_word_boundaries_and_columns_by_character_under_utf8() {
    // `é` closes no word under Unicode rules, so `caf` is not a whole word there.
    let line = "café".as_bytes();
    assert!(is_word_boundary(line, 0, 3, false));
    assert!(!is_word_boundary(line, 0, 3, true));

    // Six characters precede the match, in eleven bytes.
    let found = MatchInfo {
        offset: 11,
        length: 5,
    };
    let line = "δέλτα error".as_bytes();
    assert_eq!(found.column(line, Newlines::Lf), 12);
    assert_eq!(found.column(line, Newlines::Unicode), 7);
    assert_eq!(
        trim_to_limit(line, 5, Newlines::Unicode),
        (&line[..10], 5, Fit::Cut)
    );
    assert_eq!(
        trim_to_limit(line, 6, Newlines::Lf),
        (&line[..6], 6, Fit::Cut)
    );
}

#[test]
fn detects_substring_matches() {
    let line = b"hello world";
    assert!(has_match(line, b"hello", false, false));
    assert!(has_match(line, b"world", false, false));
    assert!(!has_match(line, b"foo", false, false));
}

#[test]
fn matches_ignoring_case() {
    let line = b"Hello World";
    assert!(has_match(line, b"hello", true, false));
    assert!(has_match(line, b"WORLD", true, false));
    assert!(!has_match(line, b"foo", true, false));
}

#[test]
fn matches_only_at_word_boundaries() {
    let line = b"hello world";
    assert!(has_match(line, b"hello", false, true));
    assert!(has_match(line, b"world", false, true));
    assert!(!has_match(line, b"ello", false, true)); // Not at word boundary
    assert!(!has_match(line, b"worl", false, true)); // Not at word boundary
}

#[test]
fn finds_standalone_word_after_partial_match() {
    // Test that word boundary check finds matches after non-boundary matches
    let line = b"fn_name fn";
    assert!(has_match(line, b"fn", false, true)); // Should find standalone "fn"
}

#[test]
fn inverts_line_match_selection() {
    let line = b"hello world";
    let mut search = make_search(b"hello");
    assert!(matches!(search.select(line), Selection::Selected(_)));

    search.invert_match = true;
    assert!(matches!(search.select(line), Selection::Rejected));
    assert!(matches!(
        search.select(b"goodbye world"),
        Selection::Selected(_)
    ));
}

#[test]
fn detects_binary_from_null_bytes() {
    assert!(is_binary(b"hello\0world"));
    assert!(!is_binary(b"hello world"));
    assert!(!is_binary(b"hello\nworld\n"));
}

#[test]
fn reports_matching_line() {
    let data = b"line1\nerror here\nline3\n";
    let search = make_search(b"error");
    let reporting = Reporting::Print(make_config());
    let mut output = Vec::new();

    let result = files::search_whole(data,
        "test.txt",
        &search,
        &reporting,
        &mut output,
    );

    assert_eq!(result.match_count, 1);
    let output_str = String::from_utf8(output).unwrap();
    assert!(output_str.contains("error here"));
}

#[test]
fn includes_surrounding_context_lines() {
    let data = b"line1\nline2\nerror here\nline4\nline5\n";
    let search = make_search(b"error");
    let context = Context {
        before: 1,
        after: 1,
    };
    let reporting = Reporting::PrintContext(make_config(), context);
    let mut output = Vec::new();

    files::search_whole(data,
        "test.txt",
        &search,
        &reporting,
        &mut output,
    );

    let output_str = String::from_utf8(output).unwrap();
    assert!(output_str.contains("line2"));
    assert!(output_str.contains("error here"));
    assert!(output_str.contains("line4"));
}

#[test]
fn stops_after_max_count() {
    let data = b"error1\nerror2\nerror3\nerror4\n";
    let mut search = make_search(b"error");
    search.max_matches = Some(2);
    let reporting = Reporting::Print(make_config());
    let mut output = Vec::new();

    let result = files::search_whole(data,
        "test.txt",
        &search,
        &reporting,
        &mut output,
    );

    assert_eq!(result.match_count, 2);
    assert!(result.capped());
}

#[test]
fn counts_without_printing() {
    let data = b"error1\nok\nerror2\n";
    let search = make_search(b"error");
    let reporting = Reporting::Tally {
        stop_at_first: false,
    };
    let mut output = Vec::new();

    let result = files::search_whole(data,
        "test.txt",
        &search,
        &reporting,
        &mut output,
    );

    assert_eq!(result.match_count, 2);
    assert_eq!(result.lines_searched, 3);
    assert!(output.is_empty());
}

#[test]
fn stops_the_tally_at_the_first_match() {
    let data = b"ok\nerror1\nerror2\nerror3\n";
    let search = make_search(b"error");
    let reporting = Reporting::Tally {
        stop_at_first: true,
    };
    let mut output = Vec::new();

    let result = files::search_whole(data,
        "test.txt",
        &search,
        &reporting,
        &mut output,
    );

    assert_eq!(result.match_count, 1);
    assert_eq!(result.lines_searched, 2);
}

#[test]
fn streams_every_path_that_reads_no_earlier_line() {
    let search = make_search(b"error");
    assert!(can_stream(
        &search,
        &Reporting::Tally {
            stop_at_first: true
        }
    ));
    assert!(can_stream(&search, &Reporting::Print(make_config())));
    assert!(can_stream(
        &search,
        &Reporting::PrintContext(
            make_config(),
            Context {
                before: 0,
                after: 3
            }
        )
    ));
    assert!(!can_stream(
        &search,
        &Reporting::PrintContext(
            make_config(),
            Context {
                before: 1,
                after: 0
            }
        )
    ));
}

#[test]
fn wraps_matches_in_color_codes() {
    let search = make_search(b"hello");
    let mut config = make_config();
    config.colors = Colors::enabled();

    let (output, ..) = search_whole(b"hello world hello\n", &search, &Reporting::Print(config));
    assert_eq!(
        output,
        b"\x1b[1;31mhello\x1b[0m world \x1b[1;31mhello\x1b[0m\n"
    );

    // A line without a match is printed as it stands, escapes and all absent.
    let (output, ..) = search_whole(
        b"hello\nnothing here\n",
        &make_search(b"nothing"),
        &Reporting::Print(config),
    );
    assert_eq!(output, b"\x1b[1;31mnothing\x1b[0m here\n");
}

/// The trimming budget counts what a reader sees, so color changes where a line is cut
/// but never how much of it survives.
#[test]
fn trims_colored_and_plain_lines_to_the_same_text() {
    let data = b"one error two error three error four\n";
    let search = make_search(b"error");
    for limit in [1usize, 4, 9, 12, 20, 33, 36, 40] {
        let mut config = make_config();
        config.max_line_length = Some(limit);
        let (plain, ..) = search_whole(data, &search, &Reporting::Print(config));

        config.colors = Colors::enabled();
        let (colored, ..) = search_whole(data, &search, &Reporting::Print(config));
        let visible: Vec<u8> = String::from_utf8(colored)
            .unwrap()
            .replace("\x1b[1;31m", "")
            .replace("\x1b[0m", "")
            .into_bytes();
        assert_eq!(visible, plain, "limit {}", limit);
    }
}

#[test]
fn reports_the_same_column_with_and_without_color() {
    // Two matches on one line, so the colored form carries an escape code ahead of
    // each. `grep -bo` puts the first at byte 5, which is column 6.
    let data = b"lead error one error two\n";
    let search = make_search(b"error");
    let mut config = make_config();
    config.fields = Field::bits(&[Field::ColumnNumbers]);

    let (plain, ..) = search_whole(data, &search, &Reporting::Print(config));
    assert_eq!(plain, b"6:lead error one error two\n");

    config.colors = Colors::enabled();
    let (colored, ..) = search_whole(data, &search, &Reporting::Print(config));
    let colored = String::from_utf8(colored).unwrap();
    assert!(
        colored.starts_with("\x1b[32m6\x1b[0m:"),
        "column resolved against the highlighted line: {:?}",
        colored
    );
}

#[test]
fn matches_across_newlines_in_multiline_mode() {
    let data = b"hello\nworld\nfoo bar\n";
    let mut search = make_search(b"hello\nworld");
    search.multiline = true;
    let reporting = Reporting::Print(make_config());
    let mut output = Vec::new();

    let result = files::search_whole(data,
        "test.txt",
        &search,
        &reporting,
        &mut output,
    );

    assert_eq!(result.match_count, 1);
}

#[test]
fn keeps_blank_context_lines_in_multiline_mode() {
    // The blank lines either side of the match are context that `grep -C 1` prints.
    let data = b"alpha\n\nbeta MATCH here\n\ngamma\n";
    let mut search = make_search(b"MATCH");
    search.multiline = true;
    let context = Context {
        before: 1,
        after: 1,
    };

    let reporting = Reporting::PrintContext(make_config(), context);
    let (printed, ..) = search_whole(data, &search, &reporting);
    assert_eq!(printed, b"\nbeta MATCH here\n\n");

    let mut config = make_config();
    config.fields = Field::bits(&[Field::LineNumbers]);
    let reporting = Reporting::PrintContext(config, context);
    let (numbered, ..) = search_whole(data, &search, &reporting);
    assert_eq!(numbered, b"2:\n3:beta MATCH here\n4:\n");
}

#[test]
fn terminates_every_multiline_region() {
    // Two matches far apart print as two whole lines, not one run-on line. The first
    // sits at byte zero, where the search for the line start has nothing to scan.
    let data = b"MATCH l1\nl2\nl3\nl4\nl5 MATCH\nl6\n";
    let mut search = make_search(b"MATCH");
    search.multiline = true;
    let reporting = Reporting::Print(make_config());

    let (printed, ..) = search_whole(data, &search, &reporting);
    assert_eq!(printed, b"MATCH l1\nl5 MATCH\n");
}

#[test]
fn prints_a_context_region_that_is_only_a_blank_line() {
    // The after-context of the first match and the before-context of the second are
    // one blank line each, so neither region holds anything but its terminator.
    let data = b"MATCH one\n\n\nMATCH two\n";
    let mut search = make_search(b"MATCH");
    search.multiline = true;
    let context = Context {
        before: 1,
        after: 1,
    };
    let reporting = Reporting::PrintContext(make_config(), context);

    let (printed, ..) = search_whole(data, &search, &reporting);
    assert_eq!(printed, b"MATCH one\n\n\nMATCH two\n");
}

#[test]
fn divides_multiline_groups_that_do_not_adjoin() {
    // Two matches four lines apart print as two groups, and `grep -C 1` divides
    // groups with `--`. Line mode and multiline mode answer alike.
    let data = b"alpha\nbeta MATCH one\ngamma\ndelta\nepsilon\nzeta MATCH two\neta\n";
    let mut search = make_search(b"MATCH");
    let context = Context {
        before: 1,
        after: 1,
    };
    let reporting = Reporting::PrintContext(make_config(), context);

    let (by_line, ..) = search_whole(data, &search, &reporting);
    search.multiline = true;
    let (by_region, ..) = search_whole(data, &search, &reporting);
    assert_eq!(
        by_region,
        b"alpha\nbeta MATCH one\ngamma\n--\nepsilon\nzeta MATCH two\neta\n"
    );
    assert_eq!(by_region, by_line);
}

#[test]
fn joins_groups_that_adjoin() {
    // The after-context of the first match and the before-context of the second are
    // consecutive lines, so the whole file prints as one group, as `grep -C 1` does.
    // Line mode and multiline mode answer alike.
    let data = b"alpha\nbeta MATCH one\ngamma\ndelta\nepsilon MATCH two\nzeta\n";
    let mut search = make_search(b"MATCH");
    let context = Context {
        before: 1,
        after: 1,
    };
    let reporting = Reporting::PrintContext(make_config(), context);

    let (by_line, ..) = search_whole(data, &search, &reporting);
    search.multiline = true;
    let (by_region, ..) = search_whole(data, &search, &reporting);
    assert_eq!(by_region, data);
    assert_eq!(by_line, by_region);
}

#[test]
fn divides_line_groups_exactly_where_grep_does() {
    // Every expectation below is GNU grep 3.11's own output for the same input and
    // the same context widths. A group opens at the first line it will print, not
    // at its matching line, so groups whose surrounding lines adjoin take no divider.
    let two_apart: &[u8] = b"one\ntwo MATCH\nthree\nfour MATCH\nfive\n";
    let three_apart: &[u8] = b"one\ntwo MATCH\nthree\nfour\nfive MATCH\nsix\n";
    let four_apart: &[u8] = b"one\ntwo MATCH\nthree\nfour\nfive\nsix MATCH\nseven\n";
    let at_both_ends: &[u8] = b"one MATCH\ntwo\nthree\nfour MATCH\nfive\n";
    let adjacent: &[u8] = b"one\ntwo MATCH\nthree MATCH\nfour\n";
    let far_apart: &[u8] =
        b"one\ntwo\nthree MATCH\nfour\nfive\nsix\nseven MATCH\neight\nnine\n";

    let cases: [(&[u8], usize, usize, &[u8]); 11] = [
        // Adjoining contexts print as one block.
        (two_apart, 1, 0, b"one\ntwo MATCH\nthree\nfour MATCH\n"),
        (two_apart, 0, 1, b"two MATCH\nthree\nfour MATCH\nfive\n"),
        (
            three_apart,
            1,
            1,
            b"one\ntwo MATCH\nthree\nfour\nfive MATCH\nsix\n",
        ),
        (
            at_both_ends,
            1,
            1,
            b"one MATCH\ntwo\nthree\nfour MATCH\nfive\n",
        ),
        // Overlapping contexts print each line once.
        (adjacent, 2, 2, b"one\ntwo MATCH\nthree MATCH\nfour\n"),
        (
            far_apart,
            2,
            2,
            b"one\ntwo\nthree MATCH\nfour\nfive\nsix\nseven MATCH\neight\nnine\n",
        ),
        // A line falling between the groups divides them.
        (three_apart, 1, 0, b"one\ntwo MATCH\n--\nfour\nfive MATCH\n"),
        (
            four_apart,
            1,
            1,
            b"one\ntwo MATCH\nthree\n--\nfive\nsix MATCH\nseven\n",
        ),
        (at_both_ends, 1, 0, b"one MATCH\n--\nthree\nfour MATCH\n"),
        (
            at_both_ends,
            0,
            1,
            b"one MATCH\ntwo\n--\nfour MATCH\nfive\n",
        ),
        (
            far_apart,
            1,
            1,
            b"two\nthree MATCH\nfour\n--\nsix\nseven MATCH\neight\n",
        ),
    ];

    for (data, before, after, expected) in cases {
        let search = make_search(b"MATCH");
        let reporting = Reporting::PrintContext(make_config(), Context { before, after });
        let (printed, ..) = search_whole(data, &search, &reporting);
        assert_eq!(
            String::from_utf8_lossy(&printed),
            String::from_utf8_lossy(expected),
            "-B {} -A {}",
            before,
            after
        );
    }
}

#[test]
fn divides_no_multiline_groups_without_context() {
    // Without any context lines there are no groups, so no divider is written.
    let data = b"alpha\nbeta MATCH one\ngamma\ndelta\nepsilon\nzeta MATCH two\neta\n";
    let mut search = make_search(b"MATCH");
    search.multiline = true;
    let reporting = Reporting::Print(make_config());

    let (printed, ..) = search_whole(data, &search, &reporting);
    assert_eq!(printed, b"beta MATCH one\nzeta MATCH two\n");
}

#[test]
fn counts_lines_forward_without_rescanning() {
    // Newlines at 1, 3, 5, 7 and 9.
    let mut data = b"a\nb\nc\nd\ne\n".to_vec();
    let mut lines = LineCursor::default();
    assert_eq!(lines.line_at(&data, 0), 1);
    assert_eq!(lines.line_at(&data, 4), 3);

    // Rewrite the prefix already counted: an implementation that rescans from byte
    // zero would see the two added newlines and report 7 rather than 5.
    data[0] = b'\n';
    data[2] = b'\n';
    assert_eq!(lines.line_at(&data, 8), 5);
    assert_eq!(lines.line_at(&data, data.len()), 6);
}

#[test]
fn numbers_every_multiline_region_from_the_running_count() {
    let mut data = Vec::new();
    for index in 0..1000 {
        data.extend_from_slice(if index % 5 == 0 {
            b"line MATCH\n".as_slice()
        } else {
            b"line plain\n".as_slice()
        });
    }
    let mut search = make_search(b"MATCH");
    search.multiline = true;
    let mut config = make_config();
    config.fields = Field::bits(&[Field::LineNumbers]);
    let reporting = Reporting::Print(config);

    let (printed, matches, _) = search_whole(&data, &search, &reporting);
    assert_eq!(matches, 200);
    let text = String::from_utf8(printed).unwrap();
    let numbers: Vec<&str> = text
        .lines()
        .map(|line| line.split(':').next().unwrap())
        .collect();
    assert_eq!(numbers.first().copied(), Some("1"));
    assert_eq!(numbers.last().copied(), Some("996"));
    assert_eq!(numbers.len(), 200);
}

#[test]
fn never_streams_a_multiline_search() {
    let mut search = make_search(b"error");
    let reporting = Reporting::Print(make_config());
    assert!(can_stream(&search, &reporting));

    search.multiline = true;
    assert!(!can_stream(&search, &reporting));
}

#[test]
fn streams_the_same_output_at_tiny_capacities() {
    let config = make_config();
    let paths = [
        Reporting::Tally {
            stop_at_first: false,
        },
        Reporting::Print(config),
        Reporting::PrintContext(
            config,
            Context {
                before: 0,
                after: 2,
            },
        ),
    ];

    for newlines in [Newlines::Lf, Newlines::Unicode] {
        for reporting in &paths {
            let mut search = make_search(b"error");
            search.newlines = newlines;
            let expected = search_whole(SEAM_CORPUS, &search, reporting);
            for capacity in [1, 2, 3, 7, 13, 64, 4096] {
                let streamed = search_streamed(SEAM_CORPUS, capacity, &search, reporting);
                assert_eq!(streamed, expected, "capacity {}", capacity);
            }
        }
    }
}

#[test]
fn keeps_line_numbers_and_offsets_absolute_across_windows() {
    let mut config = make_config();
    config.fields = Field::bits(&[
        Field::LineNumbers,
        Field::ColumnNumbers,
        Field::ByteOffset,
        Field::LineHashes,
    ]);
    let reporting = Reporting::Print(config);
    let search = make_search(b"error");

    let (expected, ..) = search_whole(SEAM_CORPUS, &search, &reporting);
    for capacity in [1, 7, 13, 64] {
        let (streamed, ..) = search_streamed(SEAM_CORPUS, capacity, &search, &reporting);
        assert_eq!(streamed, expected, "capacity {}", capacity);
    }
    // The last line starts well past any of the tiny windows, so a window-relative
    // offset would report it near zero — and the hash is the same either way, since it
    // names the line's content rather than where the reader happened to be.
    let text = String::from_utf8(expected).unwrap();
    let last = text.lines().last().unwrap();
    let offset = SEAM_CORPUS.len() - b"zeta error last".len();
    let name = format_hash(content_hash(b"zeta error last"),
        DEFAULT_HASH_WIDTH,
    );
    assert_eq!(last, format!("8:6:{offset}:{name}:zeta error last"));
}

#[test]
fn opens_and_closes_one_json_record_per_streamed_file() {
    let mut config = make_config();
    config.output_format = OutputFormat::Json;
    let reporting = Reporting::Print(config);
    let search = make_search(b"error");

    let (streamed, ..) = search_streamed(SEAM_CORPUS, 7, &search, &reporting);
    let text = String::from_utf8(streamed).unwrap();
    assert_eq!(text.matches(r#""type":"begin""#).count(), 1);
    assert_eq!(text.matches(r#""type":"end""#).count(), 1);
}

#[test]
fn opens_and_closes_one_json_record_per_multiline_file() {
    // A JSON consumer reads one record shape, whether or not `--multiline` was given.
    let data = b"alpha\nbeta MATCH one\ngamma\ndelta MATCH two\n";
    let mut config = make_config();
    config.output_format = OutputFormat::Json;
    let reporting = Reporting::Print(config);
    let mut search = make_search(b"MATCH");

    let record_types = |printed: Vec<u8>| -> Vec<String> {
        String::from_utf8(printed)
            .unwrap()
            .lines()
            .map(|record| record.split('"').nth(3).unwrap().to_string())
            .collect()
    };
    let by_line = record_types(search_whole(data, &search, &reporting).0);
    search.multiline = true;
    let by_region = record_types(search_whole(data, &search, &reporting).0);

    assert_eq!(by_region, ["begin", "match", "match", "end"]);
    assert_eq!(by_region, by_line);
}

#[test]
fn names_the_file_once_per_multiline_run() {
    // `--heading` prints the path as a header rather than as a per-line prefix, and
    // multiline mode reads the same writer, so the header appears there too.
    let data = b"alpha\nbeta MATCH one\ngamma\ndelta MATCH two\n";
    let mut config = make_config();
    config.output_format = OutputFormat::Heading;
    let reporting = Reporting::Print(config);
    let mut search = make_search(b"MATCH");
    search.multiline = true;

    let (printed, ..) = search_whole(data, &search, &reporting);
    assert_eq!(printed, b"test.txt\nbeta MATCH one\ndelta MATCH two\n");
}

#[test]
fn names_a_line_the_same_under_both_newline_sets() {
    // `gamma error two` ends in CRLF. A name covers the line's terminator, and a line
    // spans to the start of the next one in either newline set, so both readings name
    // the same bytes — with no special case anywhere.
    let mut config = make_config();
    config.fields = Field::bits(&[Field::LineHashes]);
    let reporting = Reporting::Print(config);

    let mut lf = make_search(b"error");
    lf.newlines = Newlines::Lf;
    let mut unicode = make_search(b"error");
    unicode.newlines = Newlines::Unicode;

    let (under_lf, ..) = search_whole(SEAM_CORPUS, &lf, &reporting);
    let (under_unicode, ..) = search_whole(SEAM_CORPUS, &unicode, &reporting);

    let expected = {
        format_hash(content_hash(b"gamma error two\r\n"),
            DEFAULT_HASH_WIDTH,
        )
        .to_string()
    };
    for (mode, output) in [("lf", under_lf), ("unicode", under_unicode)] {
        let named: Vec<_> = printed_hashes(&output, 0);
        assert!(
            named.contains(&expected),
            "under {mode} the CRLF line was named {named:?}, not {expected}"
        );
    }
}

#[test]
fn prints_the_names_the_library_derives() {
    // What a search prints is all that an edit has to go on.
    let mut config = make_config();
    config.output_format = OutputFormat::Json;
    config.fields = Field::bits(&[Field::LineHashes, Field::FileHash]);
    let corpus = b"alpha\nbeta error\ngamma\n";

    let (output, ..) = search_whole(corpus, &make_search(b"error"), &Reporting::Print(config));
    let text = String::from_utf8(output).unwrap();

    // A line's name covers its terminator, so this is the whole line, not its text.
    let name = format_hash(content_hash(b"beta error\n"),
        DEFAULT_HASH_WIDTH,
    );
    assert!(text.contains(&format!(r#""line_hash":"{name}""#)), "{text}");
    let file = format_hash(content_hash(corpus), HASH_CHARS);
    assert!(text.contains(&format!(r#""file_hash":"{file}""#)), "{text}");
    // And both are in the form the consuming side parses.
    assert!(parse_hash_prefix(&name).is_ok());
    assert!(parse_content_hash(&file).is_ok());
}

#[test]
fn names_the_same_line_identically_wherever_it_sits() {
    // Content-derived, not position-derived: the two identical lines share a name and the
    // one between them does not, whatever their line numbers are.
    let mut config = make_config();
    config.fields = Field::bits(&[Field::LineHashes]);
    let reporting = Reporting::Print(config);
    let search = make_search(b"error");

    let corpus = b"dup error\nother error\ndup error\n";
    let (output, ..) = search_whole(corpus, &search, &reporting);
    let named = printed_hashes(&output, 0);

    assert_eq!(named.len(), 3);
    assert_eq!(named[0], named[2]);
    assert_ne!(named[0], named[1]);
}

#[test]
fn names_an_empty_line_and_a_context_line() {
    // Both are lines an agent may want to address, so neither may be skipped: an empty
    // line is nameable, and a context record carries a name as a match record does.
    let mut config = make_config();
    config.fields = Field::bits(&[Field::LineHashes]);
    let reporting = Reporting::PrintContext(
        config,
        Context {
            before: 1,
            after: 0,
        },
    );
    let search = make_search(b"beta");

    let (output, ..) = search_whole(b"alpha\n\nbeta error\n", &search, &reporting);
    let named = printed_hashes(&output, 0);

    assert_eq!(named.len(), 2, "a context line and its match");
    assert_eq!(
        named[0],
        format_hash(content_hash(b"\n"), DEFAULT_HASH_WIDTH)
    );
}

#[test]
fn names_the_line_rather_than_what_it_prints() {
    // The name refers to the bytes in the file, so trimming, highlighting or reducing the
    // record to its matches must not move it — the same rule the column already obeys.
    let search = make_search(b"error");
    let corpus = b"alpha error one\n";

    let mut plain = make_config();
    plain.fields = Field::bits(&[Field::LineHashes]);
    let (expected, ..) = search_whole(corpus, &search, &Reporting::Print(plain));
    let expected = printed_hashes(&expected, 0);

    let mut colored = plain;
    colored.colors = Colors::enabled();
    let mut trimmed = plain;
    trimmed.max_line_length = Some(4);
    let mut reduced = plain;
    reduced.show = Show::Matches;

    for (label, config) in [
        ("colored", colored),
        ("trimmed", trimmed),
        ("reduced", reduced),
    ] {
        let (output, ..) = search_whole(corpus, &search, &Reporting::Print(config));
        let text = String::from_utf8(output).unwrap();
        assert!(
            text.contains(&expected[0]),
            "{label} named the line {text:?}, not {expected:?}"
        );
    }
}

#[test]
fn carries_a_line_hash_in_every_json_record_kind() {
    // A consumer reads one schema, not one per record type, so a `--context` run must not
    // hand it records that sometimes carry the field and sometimes do not.
    let mut config = make_config();
    config.output_format = OutputFormat::Json;
    config.fields = Field::bits(&[Field::LineHashes]);
    let search = make_search(b"beta");

    let reporting = Reporting::PrintContext(
        config,
        Context {
            before: 1,
            after: 1,
        },
    );
    let (output, ..) = search_whole(b"alpha\nbeta error\ngamma\n", &search, &reporting);
    let text = String::from_utf8(output).unwrap();

    for kind in [r#""type":"match""#, r#""type":"context""#] {
        let carried = text
            .lines()
            .filter(|line| line.contains(kind))
            .all(|line| line.contains(r#""line_hash":""#));
        assert!(carried, "a {kind} record carried no line_hash:\n{text}");
    }

    // And the inverted form, whose records carry no submatches to hide behind.
    let mut inverted = make_search(b"beta");
    inverted.invert_match = true;
    let mut config = make_config();
    config.output_format = OutputFormat::Json;
    config.fields = Field::bits(&[Field::LineHashes]);
    let (output, ..) = search_whole(b"alpha\nbeta\n", &inverted, &Reporting::Print(config));
    let text = String::from_utf8(output).unwrap();
    assert!(text.contains(r#""line_hash":""#), "{text}");
    assert!(text.contains(r#""submatches":[]"#), "{text}");
}

#[test]
fn names_the_whole_file_once_beside_its_name() {
    let search = make_search(b"error");
    let corpus = b"alpha error one\nbeta error two\n";
    let expected = format_hash(content_hash(corpus), HASH_CHARS).to_string();

    let mut json = make_config();
    json.output_format = OutputFormat::Json;
    json.fields = Field::bits(&[Field::FileHash]);
    let (output, ..) = search_whole(corpus, &search, &Reporting::Print(json));
    let text = String::from_utf8(output).unwrap();
    assert_eq!(
        text.matches(&format!(r#""file_hash":"{expected}""#))
            .count(),
        1,
        "the file's hash belongs on the one record that names the file:\n{text}"
    );

    let mut heading = make_config();
    heading.output_format = OutputFormat::Heading;
    heading.fields = Field::bits(&[Field::FileHash]);
    let (output, ..) = search_whole(corpus, &search, &Reporting::Print(heading));
    let text = String::from_utf8(output).unwrap();
    assert_eq!(text.matches(&expected).count(), 1, "{text}");
    // The token it prints is the one `sz-replace --expect-hash` accepts.
    assert!(parse_content_hash(&expected).is_ok());
    assert_eq!(parse_expected_hash(&expected), Ok(content_hash(corpus)));
}

#[test]
fn streams_a_file_hash_that_a_closing_record_can_carry() {
    // JSON names the file again when it closes it, which a stream reaches; a heading
    // names it on the first match, which a stream has not read past yet.
    let search = make_search(b"error");

    let mut json = make_config();
    json.output_format = OutputFormat::Json;
    json.fields = Field::bits(&[Field::FileHash]);
    assert!(can_stream(&search, &Reporting::Print(json)));

    let mut heading = make_config();
    heading.output_format = OutputFormat::Heading;
    heading.fields = Field::bits(&[Field::FileHash]);
    assert!(!can_stream(&search, &Reporting::Print(heading)));
}

#[test]
fn counts_the_lines_it_searched_rather_than_the_windows_it_read() {
    // A run that asked for the file's hash keeps reading after the cap is reached. It
    // must not keep *counting*.
    let mut config = make_config();
    config.output_format = OutputFormat::Json;
    config.fields = Field::bits(&[Field::FileHash]);
    let mut search = make_search(b"error");
    search.max_matches = Some(1);
    let corpus = b"alpha error\nbeta\ngamma\ndelta\nepsilon\n";

    let (hashed, ..) = search_streamed(corpus, 7, &search, &Reporting::Print(config));
    let mut plain = make_config();
    plain.output_format = OutputFormat::Json;
    let (unhashed, ..) = search_streamed(corpus, 7, &search, &Reporting::Print(plain));

    let searched = |output: Vec<u8>| {
        String::from_utf8(output)
            .unwrap()
            .split(r#""lines_searched":"#)
            .nth(1)
            .and_then(|rest| rest.split('}').next())
            .expect("the closing record reports what was searched")
            .to_string()
    };
    assert_eq!(searched(hashed), searched(unhashed));
}

#[test]
fn opens_a_json_file_record_without_naming_it() {
    // The file's hash goes on the record that closes a file, which a stream reaches;
    // the one that opens it is written long before the bytes it would cover.
    let mut config = make_config();
    config.output_format = OutputFormat::Json;
    config.fields = Field::bits(&[Field::FileHash]);
    let (output, ..) = search_whole(
        b"alpha error\n",
        &make_search(b"error"),
        &Reporting::Print(config),
    );
    let text = String::from_utf8(output).unwrap();
    let begin = text.lines().next().unwrap();
    assert!(begin.contains(r#""type":"begin""#), "{text}");
    assert!(!begin.contains("file_hash"), "{begin}");
    assert!(text.lines().last().unwrap().contains("file_hash"), "{text}");
}

#[test]
fn names_the_whole_file_the_same_streamed_as_mapped() {
    // The hash a piped run reports has to be the hash of the file, not of the windows it
    // happened to be handed.
    let mut config = make_config();
    config.output_format = OutputFormat::Json;
    config.fields = Field::bits(&[Field::FileHash]);
    let reporting = Reporting::Print(config);
    let search = make_search(b"error");
    let file = format_hash(content_hash(SEAM_CORPUS), HASH_CHARS);
    let expected = format!(r#""file_hash":"{file}""#);

    let (whole, ..) = search_whole(SEAM_CORPUS, &search, &reporting);
    assert!(String::from_utf8(whole).unwrap().contains(&expected));

    for capacity in [1, 7, 13, 64] {
        let (streamed, ..) = search_streamed(SEAM_CORPUS, capacity, &search, &reporting);
        let text = String::from_utf8(streamed).unwrap();
        assert!(text.contains(&expected), "capacity {capacity}:\n{text}");
    }
}

#[test]
fn names_the_whole_file_even_when_the_search_stops_early() {
    // `--max-matches` leaves the rest of a pipe unread, and a hash of the prefix would
    // look exactly like a hash of the file. A run that asked for one reads to the end.
    let mut config = make_config();
    config.output_format = OutputFormat::Json;
    config.fields = Field::bits(&[Field::FileHash]);
    let mut search = make_search(b"error");
    search.max_matches = Some(1);

    let (streamed, ..) = search_streamed(SEAM_CORPUS, 7, &search, &Reporting::Print(config));
    let text = String::from_utf8(streamed).unwrap();
    let file = format_hash(content_hash(SEAM_CORPUS), HASH_CHARS);
    assert!(text.contains(&format!(r#""file_hash":"{file}""#)), "{text}");
    assert_eq!(text.matches(r#""type":"match""#).count(), 1);
}

#[test]
fn annotates_every_line_of_a_multiline_region() {
    // Asking only for hashes still has to divide the region into lines.
    let mut config = make_config();
    config.fields = Field::bits(&[Field::LineHashes]);
    let mut search = make_search(b"beta\ngamma");
    search.multiline = true;

    let (output, ..) = search_whole(
        b"alpha\nbeta\ngamma\ndelta\n",
        &search,
        &Reporting::Print(config),
    );
    let text = String::from_utf8(output).unwrap();

    for line in [&b"beta\n"[..], &b"gamma\n"[..]] {
        let name = format_hash(content_hash(line), DEFAULT_HASH_WIDTH);
        assert!(
            text.contains(&format!(
                "{name}:{}",
                String::from_utf8_lossy(line).trim_end()
            )),
            "the region printed without naming its lines:\n{text}"
        );
    }
}

#[test]
fn stops_reading_the_stream_at_the_first_match() {
    let data = b"error one\nerror two\nerror three\nerror four\n";
    let search = make_search(b"error");
    let reporting = Reporting::Tally {
        stop_at_first: true,
    };
    // A budget of one window proves nothing past it was ever requested.
    let (_, result) = search_budgeted(data, 10, 10, &search, &reporting);

    assert_eq!(result.match_count, 1);
    assert_eq!(result.lines_searched, 1);
    assert_eq!(result.flow, Some(Stop::FirstMatch));
}

#[test]
fn stops_reading_the_stream_at_the_max_count() {
    let data = b"error one\nerror two\nerror three\nerror four\n";
    let mut search = make_search(b"error");
    search.max_matches = Some(1);
    let reporting = Reporting::Print(make_config());
    // Two lines fit the budget: the second is where the max-count test fires.
    let (output, result) = search_budgeted(data, 20, 20, &search, &reporting);

    assert_eq!(result.match_count, 1);
    assert!(result.capped());
    assert_eq!(output, b"error one\n");
}

#[test]
fn reads_a_colour_choice() {
    assert_eq!(ColorChoice::parse("always"), Ok(ColorChoice::Always));
    assert_eq!(ColorChoice::parse("never"), Ok(ColorChoice::Never));
    assert_eq!(ColorChoice::parse("auto"), Ok(ColorChoice::Auto));
    assert!(ColorChoice::parse("sometimes").is_err());
}

#[test]
fn prints_whole_lines_around_a_region() {
    let data = b"a\nbb\nccc\ndd\ne\n";
    let around = |before: usize, after: usize| {
        let (start, end) = printed_region(data, 6, 7, Context { before, after });
        &data[start..end]
    };
    assert_eq!(around(0, 0), b"ccc");
    assert_eq!(around(1, 0), b"bb\nccc");
    assert_eq!(around(1, 1), b"bb\nccc\ndd");
    assert_eq!(around(9, 9), data);
}

#[test]
fn finds_every_match_of_a_line_and_its_text() {
    let matcher = Matcher {
        pattern: b"AB",
        ignore_case: true,
        whole_word: false,
        unicode: true,
    };
    let line = b"abcAB-aB";
    let mut found = matcher.matches(line);
    let mut texts = Vec::new();
    while let Some(one) = found.next() {
        texts.push((one.offset, one.text(line).to_vec()));
    }
    assert_eq!(
        texts,
        [
            (0, b"ab".to_vec()),
            (3, b"AB".to_vec()),
            (6, b"aB".to_vec())
        ]
    );
}

#[test]
fn skips_a_binary_input_unless_told_to_read_it() {
    let args = args("error");
    let mut session = Session::new(&args, Inputs::One, false);
    assert!(session.skips(b"error\0"));
    let (mut output, mut outcome) = (Vec::new(), Outcome::default());
    session.search_input(b"error\0", "a.bin", &mut output, &mut outcome);
    assert!(output.is_empty());
    session.binary = true;
    assert!(!session.skips(b"error\0"));
    session.search_input(b"error\0", "a.bin", &mut output, &mut outcome);
    assert_eq!(output, b"error\0\n");
}

#[test]
fn carries_nothing_but_the_last_match_over_a_cap() {
    let args = read(&["--max-matches", "1"], "error");
    let session = Session::new(&args, Inputs::One, false);
    let (mut output, mut outcome) = (Vec::new(), Outcome::default());
    session.search_input(b"error one\nerror two\n", "f", &mut output, &mut outcome);
    assert_eq!(output, b"error one\n");
    assert!(outcome.max_reached);
    assert_eq!(outcome.summary.matches_found, 1);
    assert_eq!(outcome.summary.files_matched, 1);
}
