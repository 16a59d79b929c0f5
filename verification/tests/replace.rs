//! Replacing substrings and named lines.

use sztools::destination::Destination;
use sztools::hashing::{
    content_hash, format_hash, DEFAULT_HASH_WIDTH, HASH_CHARS, HASH_CHARS_MIN,
};
use sztools::replace::named::{as_line, Occurrences};
use sztools::replace::run::{
    destination, parse_expected_hash, put_hex_hash, run, validate, Args, Format, Match,
};
use sztools::replace::substring::{count_matches, replace_to};
use sztools::status::{Failure, Status};

/// Replace every match into a buffer and return it.
fn replace_all(
    data: &[u8],
    pattern: &[u8],
    replacement: &[u8],
    ignore_case: bool,
) -> (Vec<u8>, usize) {
    replace_limited(data, pattern, replacement, ignore_case, usize::MAX)
}

/// The same, stopping after `limit` matches.
fn replace_limited(
    data: &[u8],
    pattern: &[u8],
    replacement: &[u8],
    ignore_case: bool,
    limit: usize,
) -> (Vec<u8>, usize) {
    let mut buf = Vec::new();
    let count = replace_to(data, pattern, replacement, ignore_case, limit, &mut buf);
    (buf, count)
}

/// Read a command line into the arguments of a run.
fn read(flags: &[&str]) -> Args {
    let mut args = Args {
        pattern: String::new(),
        replacement: String::new(),
        input: None,
        output: None,
        in_place: false,
        dry_run: false,
        expect_hash: None,
        match_kind: Match::Substring,
        after: false,
        before: false,
        utf8: false,
        occurrences: Occurrences::All,
        ignore_case: false,
        format: Format::Text,
        summary: false,
        quiet: false,
    };
    let mut positionals = Vec::new();
    let mut rest = flags.iter().copied();
    while let Some(flag) = rest.next() {
        match flag {
            "--output" => args.output = rest.next().map(str::to_string),
            "--in-place" => args.in_place = true,
            "--dry-run" => args.dry_run = true,
            "--expect-hash" => {
                let token = rest.next().expect("a token follows");
                args.expect_hash = Some(parse_expected_hash(token).expect("a whole token"));
            }
            "--match" => {
                args.match_kind = match rest.next() {
                    Some("line-hash") => Match::LineHash,
                    _ => Match::Substring,
                }
            }
            "--after" => args.after = true,
            "--before" => args.before = true,
            "--utf8" => args.utf8 = true,
            "--occurrences" => {
                args.occurrences = match rest.next() {
                    Some("first") => Occurrences::First,
                    Some("one") => Occurrences::One,
                    _ => Occurrences::All,
                }
            }
            "--ignore-case" => args.ignore_case = true,
            "--format" => {
                args.format = match rest.next() {
                    Some("json") => Format::Json,
                    _ => Format::Text,
                }
            }
            "--summary" => args.summary = true,
            "--quiet" => args.quiet = true,
            other => positionals.push(other.to_string()),
        }
    }
    let mut positionals = positionals.into_iter();
    args.pattern = positionals.next().unwrap_or_default();
    args.replacement = positionals.next().unwrap_or_default();
    args.input = positionals.next();
    args
}

/// Drive a whole run on a file of this content: how it ended, what it printed, and what it left
/// in the file and in the other file it may have named.
fn run_on(content: &[u8], flags: &[&str]) -> (Result<Status, Failure>, Vec<u8>, Vec<u8>) {
    let args = read(flags);
    validate(&args).expect("flags must fit together");
    let mut file = content.to_vec();
    let mut printed = Vec::new();
    let outcome = run(&args, content).map(|finished| {
        match destination(&args) {
            Destination::Discard => {}
            Destination::Stdout => printed.extend_from_slice(&finished.content),
            Destination::Creating(_) | Destination::Replacing(_) => file = finished.content,
        }
        printed.extend_from_slice(&finished.notes);
        finished.status
    });
    (outcome, printed, file)
}

/// The token `--expect-hash` accepts for these contents.
fn token_of(content: &[u8]) -> String {
    format!("{:016x}", content_hash(content))
}

fn accepts(flags: &[&str]) -> bool {
    accepts_pattern("a", flags)
}

/// The same, with a pattern the caller chooses: a line name has to be well formed before the flags
/// around it can be judged.
fn accepts_pattern(pattern: &str, flags: &[&str]) -> bool {
    let arguments: Vec<&str> = [pattern, "b", "f"]
        .into_iter()
        .chain(flags.iter().copied())
        .collect();
    validate(&read(&arguments)).is_ok()
}

/// The name of a whole line.
fn name_of(line: &[u8]) -> String {
    format_hash(content_hash(line), DEFAULT_HASH_WIDTH)
}

/// Apply a line-addressed edit to `content`, returning what it wrote.
fn line_edit(content: &[u8], name: &str, replacement: &str, flags: &[&str]) -> Vec<u8> {
    let mut argv = vec!["--match", "line-hash"];
    argv.extend_from_slice(flags);
    argv.extend_from_slice(&[name, replacement, "notes.txt"]);
    let (outcome, printed, _) = run_on(content, &argv);
    outcome.expect("the edit applies");
    printed
}

#[test]
fn replaces_all_occurrences() {
    let data = b"hello world hello";
    let (result, count) = replace_all(data, b"hello", b"hi", false);

    assert_eq!(count, 2);
    assert_eq!(result, b"hi world hi");
}

#[test]
fn leaves_text_unchanged_without_matches() {
    let data = b"hello world";
    let (result, count) = replace_all(data, b"foo", b"bar", false);

    assert_eq!(count, 0);
    assert_eq!(result, b"hello world");
}

#[test]
fn replaces_all_ignoring_case() {
    let data = b"Hello HELLO hello";
    let (result, count) = replace_all(data, b"hello", b"hi", true);

    assert_eq!(count, 3);
    assert_eq!(result, b"hi hi hi");
}

#[test]
fn ignores_empty_pattern() {
    let data = b"hello";
    let (result, count) = replace_all(data, b"", b"x", false);

    assert_eq!(count, 0);
    assert_eq!(result, b"hello");
}

#[test]
fn replaces_with_longer_string() {
    let data = b"a b a";
    let (result, count) = replace_all(data, b"a", b"foo", false);

    assert_eq!(count, 2);
    assert_eq!(result, b"foo b foo");
}

#[test]
fn replaces_with_shorter_string() {
    let data = b"hello hello";
    let (result, count) = replace_all(data, b"hello", b"hi", false);

    assert_eq!(count, 2);
    assert_eq!(result, b"hi hi");
}

#[test]
fn replaces_non_overlapping_matches() {
    let data = b"aaa";
    let (result, count) = replace_all(data, b"aa", b"b", false);

    // Should replace first match, then continue after it (non-overlapping)
    assert_eq!(count, 1);
    assert_eq!(result, b"ba");
}

#[test]
fn skips_overlapping_matches_in_repeating_pattern() {
    // Matching is leftmost-first and non-overlapping, as in `sed s///g`: the "ABA"
    // starting at offset 2 overlaps the one claimed at offset 0, so it is not a match.
    let data = b"ABABAB";
    let (result, count) = replace_all(data, b"ABA", b"-", false);

    assert_eq!(count, 1);
    assert_eq!(result, b"-BAB");
}

#[test]
fn skips_overlapping_matches_across_lines() {
    // The same rule with a newline inside the pattern — nothing about line
    // boundaries makes the second, overlapping "a\na" eligible.
    let data = b"a\na\na";
    let (result, count) = replace_all(data, b"a\na", b"X", false);

    assert_eq!(count, 1);
    assert_eq!(result, b"X\na");
}

#[test]
fn does_not_rescan_the_replacement() {
    // Output is written past the cursor and never re-examined, so a replacement
    // containing the pattern substitutes once rather than looping forever.
    let data = b"a b";
    let (result, count) = replace_all(data, b"a", b"aa", false);

    assert_eq!(count, 1);
    assert_eq!(result, b"aa b");
}

#[test]
fn replaces_only_the_leftmost_match_under_first() {
    let data = b"a b a b a";
    let (result, count) = replace_limited(data, b"a", b"X", false, 1);

    assert_eq!(count, 1);
    assert_eq!(result, b"X b a b a");
}

#[test]
fn counts_the_matches_it_would_rewrite() {
    // The count `--occurrences one` decides on has to be the same one the rewrite makes,
    // or a run refuses what it could have done or does what it should have refused.
    for (data, pattern, ignore_case) in [
        (&b"a b a b a"[..], &b"a"[..], false),
        (&b"aaa"[..], &b"aa"[..], false),
        (&b"ABABAB"[..], &b"ABA"[..], false),
        ("xẞẞy".as_bytes(), &b"ss"[..], true),
        (&b"nothing here"[..], &b"zzz"[..], false),
    ] {
        let (_, replaced) = replace_all(data, pattern, b".", ignore_case);
        assert_eq!(
            count_matches(data, pattern, ignore_case),
            replaced,
            "counting disagreed with rewriting on {:?}",
            String::from_utf8_lossy(data)
        );
    }
}

#[test]
fn replaces_multibyte_utf8_pattern() {
    let data = "héllo wörld héllo".as_bytes();
    let (result, count) = replace_all(data, "héllo".as_bytes(), "hi".as_bytes(), false);

    assert_eq!(count, 2);
    assert_eq!(result, "hi wörld hi".as_bytes());
}

#[test]
fn replaces_at_start_and_end() {
    // Pattern at start
    let data = b"hello world";
    let (result, count) = replace_all(data, b"hello", b"hi", false);
    assert_eq!(count, 1);
    assert_eq!(result, b"hi world");

    // Pattern at end
    let data = b"hello world";
    let (result, count) = replace_all(data, b"world", b"there", false);
    assert_eq!(count, 1);
    assert_eq!(result, b"hello there");
}

#[test]
fn replaces_whole_input() {
    let data = b"hello";
    let (result, count) = replace_all(data, b"hello", b"goodbye", false);

    assert_eq!(count, 1);
    assert_eq!(result, b"goodbye");
}

#[test]
fn deletes_pattern_with_empty_replacement() {
    let data = b"hello world hello";
    let (result, count) = replace_all(data, b"hello", b"", false);

    assert_eq!(count, 2);
    assert_eq!(result, b" world ");
}

#[test]
fn keeps_literal_replacement_when_ignoring_case() {
    // Case insensitive finds, but replacement is literal
    let data = b"HELLO hello HeLLo";
    let (result, count) = replace_all(data, b"hello", b"hi", true);

    assert_eq!(count, 3);
    assert_eq!(result, b"hi hi hi");
}

#[test]
fn replaces_single_character() {
    let data = b"a b a c a";
    let (result, count) = replace_all(data, b"a", b"x", false);

    assert_eq!(count, 3);
    assert_eq!(result, b"x b x c x");
}

#[test]
fn replaces_on_every_line_of_a_multi_line_input() {
    // A single-line pattern, matched independently on each line of the input.
    let data = b"line1\nline2\nline1\n";
    let (result, count) = replace_all(data, b"line1", b"first", false);

    assert_eq!(count, 2);
    assert_eq!(result, b"first\nline2\nfirst\n");
}

#[test]
fn replaces_pattern_spanning_lines() {
    // Replacement is a byte-level substitution with no line concept, so a newline
    // inside the pattern is matched like any other byte and the terminator it
    // straddles is consumed with it.
    let data = b"alpha\nbeta\ngamma\n";
    let (result, count) = replace_all(data, b"alpha\nbeta", b"X", false);

    assert_eq!(count, 1);
    assert_eq!(result, b"X\ngamma\n");
}

#[test]
fn replaces_every_occurrence_of_a_pattern_spanning_lines() {
    let data = b"a\nb\nc\na\nb\n";
    let (result, count) = replace_all(data, b"a\nb", b"X", false);

    assert_eq!(count, 2);
    assert_eq!(result, b"X\nc\nX\n");
}

#[test]
fn replaces_pattern_spanning_lines_ignoring_case() {
    let data = b"ALPHA\nBeta\n";
    let (result, count) = replace_all(data, b"alpha\nbeta", b"X", true);

    assert_eq!(count, 1);
    assert_eq!(result, b"X\n");
}

#[test]
fn expands_one_line_into_several() {
    // The replacement is written verbatim, so newlines in it split the line.
    let data = b"alpha\nbeta\n";
    let (result, count) = replace_all(data, b"beta", b"B1\nB2", false);

    assert_eq!(count, 1);
    assert_eq!(result, b"alpha\nB1\nB2\n");
}

#[test]
fn joins_several_lines_into_one() {
    let data = b"alpha\nbeta\n";
    let (result, count) = replace_all(data, b"\n", b" ", false);

    assert_eq!(count, 2);
    assert_eq!(result, b"alpha beta ");
}

#[test]
fn does_not_match_crlf_with_an_lf_pattern() {
    // Matching is literal, so a pattern written with LF does not span a CRLF
    // terminator. This is the behaviour, not an oversight — `\r` is a byte like
    // any other, and silently ignoring it would make the tool non-literal.
    let data = b"a\r\nb";
    let (result, count) = replace_all(data, b"a\nb", b"X", false);

    assert_eq!(count, 0);
    assert_eq!(result, b"a\r\nb");
}

#[test]
fn advances_by_the_folded_match_length_when_it_is_longer() {
    // Case folding makes the matched span longer than the pattern: "ss" folds
    // "ẞ" (U+1E9E, 3 bytes). Advancing by `pattern.len()` instead would leave the
    // trailing continuation byte of the first ẞ in the output and desynchronize
    // every later match, so this is what pins that line of `replace_all_to`.
    let data = "xẞẞy".as_bytes();
    let (result, count) = replace_all(data, b"ss", b".", true);

    assert_eq!(count, 2);
    assert_eq!(result, b"x..y");
}

#[test]
fn advances_by_the_folded_match_length_when_it_is_shorter() {
    // And the other direction: a 3-byte pattern matching a 2-byte span.
    let data = b"xssy";
    let (result, count) = replace_all(data, "ẞ".as_bytes(), b".", true);

    assert_eq!(count, 1);
    assert_eq!(result, b"x.y");
}

#[test]
fn folds_a_one_byte_pattern_onto_a_longer_match() {
    // Turkish dotted capital I (U+0130, 2 bytes) folds to "i" plus a combining dot,
    // so a one-byte pattern claims a two-byte span.
    let data = "xİİy".as_bytes();
    let (result, count) = replace_all(data, b"i", b".", true);

    assert_eq!(count, 2);
    assert_eq!(result, b"x..y");
}

#[test]
fn folds_a_ligature_onto_its_ascii_expansion() {
    let data = "xﬁy".as_bytes();
    let (result, count) = replace_all(data, b"fi", b".", true);

    assert_eq!(count, 1);
    assert_eq!(result, b"x.y");
}

#[test]
fn takes_no_utf8_flag_without_a_line_to_split() {
    // Substring replacement is byte-level, with no line or codepoint semantics to
    // switch, and `--ignore-case` already folds the full Unicode range — so the newline
    // set only means something once the pattern names a line.
    assert!(!accepts(&["--utf8"]));
    assert!(accepts_pattern(
        "6vzvxbws",
        &["--match", "line-hash", "--utf8"]
    ));
}

#[test]
fn sz_replace_declares_the_conflicts_that_used_to_pass_silently() {
    assert!(accepts(&["--dry-run"]));
    for flags in [
        vec!["--dry-run", "--output", "o"],
        vec!["--dry-run", "--in-place"],
        vec!["--in-place", "--output", "o"],
        vec!["--quiet", "--summary"],
        vec!["--quiet", "--in-place"],
        vec!["--dry-run", "--summary"],
    ] {
        assert!(!accepts(&flags), "expected {:?} to be rejected", flags);
    }
}

#[test]
fn keeps_the_json_summary_off_the_transformed_stream() {
    assert!(!accepts(&["--format", "json"]));
    assert!(!accepts(&["--format", "json", "--output", "-"]));
    assert!(accepts(&["--format", "json", "--dry-run"]));
    assert!(accepts(&["--format", "json", "--output", "o"]));
    assert!(
        accepts(&["--format", "json", "--output", "o", "--summary"]),
        "--summary names the record json already emits"
    );
}

#[test]
fn accepts_a_precondition_alongside_every_destination() {
    // Verifying a token is orthogonal to where the bytes go, and `--dry-run` verifying
    // one without writing is the cheapest probe an agent has.
    for flags in [
        vec!["--expect-hash", "0123456789abcdef"],
        vec!["--expect-hash", "0123456789abcdef", "--dry-run"],
        vec!["--expect-hash", "0123456789abcdef", "--quiet"],
        vec!["--expect-hash", "0123456789abcdef", "--in-place"],
        vec!["--expect-hash", "0123456789abcdef", "--output", "o"],
        vec!["--occurrences", "one"],
        vec!["--occurrences", "first", "--in-place"],
    ] {
        assert!(accepts(&flags), "expected {:?} to be accepted", flags);
    }
}

#[test]
fn rewrites_deletes_and_blanks_from_one_replacement_argument() {
    // Three operations, no flags: the terminator is part of what a name covers, so an
    // empty replacement leaves nothing to terminate and a bare newline leaves a line
    // holding nothing.
    let seed = b"alpha\nbeta\ngamma\n";
    let beta = name_of(b"beta\n");
    assert_eq!(line_edit(seed, &beta, "BETA", &[]), b"alpha\nBETA\ngamma\n");
    assert_eq!(line_edit(seed, &beta, "", &[]), b"alpha\ngamma\n");
    assert_eq!(line_edit(seed, &beta, "\n", &[]), b"alpha\n\ngamma\n");
}

#[test]
fn joins_an_inserted_multi_line_replacement_at_the_end_of_a_file() {
    // The anchor is the file's last line and carries no terminator, so one goes in
    // front of the text and none behind it — but the breaks *inside* the text still
    // have to survive, which asking for "no terminator" once erased.
    assert_eq!(
        line_edit(b"alpha\nbeta", &name_of(b"beta"), "X\nY", &["--after"]),
        b"alpha\nbeta\nX\nY"
    );
}

#[test]
fn borrows_the_terminator_the_file_ends_with() {
    // A file may mix terminators; the one an unterminated last line borrows is the one
    // nearest it, not the first the file happens to use.
    assert_eq!(
        line_edit(
            b"alpha\r\nbeta\ngamma",
            &name_of(b"gamma"),
            "NEW",
            &["--after"]
        ),
        b"alpha\r\nbeta\ngamma\nNEW"
    );
}

#[test]
fn places_a_new_line_on_the_side_it_was_asked_for() {
    let seed = b"alpha\nbeta\n";
    let alpha = name_of(b"alpha\n");
    assert_eq!(
        line_edit(seed, &alpha, "MIDDLE", &["--after"]),
        b"alpha\nMIDDLE\nbeta\n"
    );
    assert_eq!(
        line_edit(seed, &name_of(b"beta\n"), "MIDDLE", &["--before"]),
        b"alpha\nMIDDLE\nbeta\n"
    );
}

#[test]
fn keeps_the_terminator_the_line_already_had() {
    // Copied, never rebuilt, so an edited line in a CRLF file does not become the one
    // line in it ending with a bare LF — including when the replacement spans lines.
    let seed = b"alpha\r\nbeta\r\ngamma\r\n";
    let beta = name_of(b"beta\r\n");
    assert_eq!(
        line_edit(seed, &beta, "BETA", &[]),
        b"alpha\r\nBETA\r\ngamma\r\n"
    );
    assert_eq!(
        line_edit(seed, &beta, "B1\nB2", &[]),
        b"alpha\r\nB1\r\nB2\r\ngamma\r\n"
    );
    assert_eq!(line_edit(seed, &beta, "", &[]), b"alpha\r\ngamma\r\n");
}

#[test]
fn names_a_crlf_line_the_same_under_either_newline_set() {
    // The name covers the terminator, and a line spans to the start of the next one in
    // both sets, so a name issued by one reading resolves under the other.
    let seed = b"alpha\r\nbeta\r\n";
    let beta = name_of(b"beta\r\n");
    for flags in [&[][..], &["--utf8"][..]] {
        assert_eq!(
            line_edit(seed, &beta, "BETA", flags),
            b"alpha\r\nBETA\r\n",
            "under {flags:?}"
        );
    }
}

#[test]
fn leaves_a_file_without_a_final_newline_without_one() {
    let seed = b"alpha\nbeta";
    let beta = name_of(b"beta");
    assert_eq!(line_edit(seed, &beta, "BETA", &[]), b"alpha\nBETA");
    assert_eq!(line_edit(seed, &beta, "", &[]), b"alpha\n");
    // An insertion needs a terminator of its own, and borrows the file's; the file
    // still ends without one.
    assert_eq!(
        line_edit(seed, &beta, "gamma", &["--after"]),
        b"alpha\nbeta\ngamma"
    );
    assert_eq!(
        line_edit(seed, &beta, "mid", &["--before"]),
        b"alpha\nmid\nbeta"
    );
}

#[test]
fn names_the_same_content_wherever_it_sits() {
    // A name identifies content, so identical lines share one — and `--occurrences`
    // decides what happens to the set, exactly as it does for a substring.
    let seed = b"dup\nother\ndup\n";
    let dup = name_of(b"dup\n");
    assert_eq!(line_edit(seed, &dup, "X", &[]), b"X\nother\nX\n");
    assert_eq!(
        line_edit(seed, &dup, "X", &["--occurrences", "first"]),
        b"X\nother\ndup\n"
    );
}

#[test]
fn refuses_a_token_that_is_not_a_whole_hash() {
    // Zero-extending a truncated paste would compare against a different file.
    for token in ["", "deadbeef", "0123456789abcdef0", "0x123456789abcde"] {
        assert!(
            parse_expected_hash(token).is_err(),
            "`{token}` must not parse"
        );
    }
    assert!(parse_expected_hash("0123456789ABCDEF").is_ok());
    assert_eq!(parse_expected_hash("0123456789abcdef"), Ok(0x0123_4567_89ab_cdef));
    assert_eq!(
        parse_expected_hash("deadbeef"),
        Err(
            "`deadbeef` is not a content hash, which is 16 hexadecimal digits, as --summary prints \
             it, or 13 characters, as `sz-find --fields file-hash` prints it"
                .to_string()
        )
    );
    assert!(parse_expected_hash("0000006ynpze").is_err());
    assert!(parse_expected_hash("0000006ynpzez").is_err());
}

#[test]
fn expects_the_name_that_a_search_prints() {
    for content in [b"".as_slice(), b"alpha\nbeta\n", b"\xFF\x00"] {
        let hash = content_hash(content);
        let name = format_hash(hash, HASH_CHARS);
        assert_eq!(parse_expected_hash(&name), Ok(hash));
        assert_eq!(parse_expected_hash(&name.to_uppercase()), Ok(hash));
    }
}

#[test]
fn reads_back_every_hash_it_reports() {
    for hash in [0, 1, u64::MAX, 0x0123_4567_89ab_cdef, content_hash(b"x")] {
        let mut token = Vec::new();
        put_hex_hash(&mut token, hash);
        let token = String::from_utf8(token).unwrap();
        assert_eq!(token, format!("{hash:016x}"));
        assert_eq!(parse_expected_hash(&token), Ok(hash));
    }
}

#[test]
fn takes_the_pattern_literally() {
    // No escape processing: a backslash-n typed at the shell is two bytes.
    let (result, count) = replace_all(br"a\nb", br"a\nb", br"c\td", false);
    assert_eq!(count, 1);
    assert_eq!(result, br"c\td");
    let (_, count) = replace_all(b"a\nb", br"a\nb", br"c\td", false);
    assert_eq!(count, 0);
}

#[test]
fn refuses_an_insertion_with_nothing_to_insert() {
    for placement in ["--after", "--before"] {
        let refused = read(&["--match", "line-hash", placement, "6vzvxbws", "", "f"]);
        assert!(
            validate(&refused).is_err(),
            "{placement} with an empty replacement must be refused"
        );
        // The same argument without a placement is how a line is deleted.
        let accepted = read(&["--match", "line-hash", "6vzvxbws", "", "f"]);
        assert!(validate(&accepted).is_ok());
    }
}

#[test]
fn refuses_an_ambiguous_or_absent_name_without_writing() {
    let content = b"dup\nother\ndup\n";
    let (outcome, printed, file) = run_on(
        content,
        &[
            "--match",
            "line-hash",
            "--occurrences",
            "one",
            "--in-place",
            &name_of(b"dup\n"),
            "X",
            "notes.txt",
        ],
    );
    let Err(Failure::Ambiguous { matches, .. }) = outcome else {
        panic!("a name matching two lines must be refused under --occurrences one");
    };
    assert_eq!(matches, 2);
    assert!(printed.is_empty());
    assert_eq!(file, content);

    let (outcome, _, file) = run_on(
        content,
        &[
            "--match",
            "line-hash",
            "--occurrences",
            "one",
            "--in-place",
            "00000000",
            "X",
            "notes.txt",
        ],
    );
    assert!(matches!(outcome, Err(Failure::Unresolved { .. })));
    assert_eq!(file, b"dup\nother\ndup\n");
}

#[test]
fn a_short_name_can_only_refuse_never_mis_target() {
    // Every candidate is found before a byte is written, so a name too short to be unique refuses
    // rather than picking one.
    let four = &name_of(b"beta\n")[..HASH_CHARS_MIN];
    let (outcome, _, file) = run_on(
        b"alpha\nbeta\n",
        &[
            "--match",
            "line-hash",
            "--occurrences",
            "one",
            "--in-place",
            four,
            "BETA",
            "notes.txt",
        ],
    );
    match outcome {
        Ok(_) => assert_eq!(file, b"alpha\nBETA\n"),
        Err(_) => assert_eq!(file, b"alpha\nbeta\n"),
    }
}

#[test]
fn a_name_survives_an_edit_elsewhere_where_a_line_number_would_not() {
    // The property that justifies naming lines by content at all.
    let mut file = b"alpha\nbeta\ngamma\n".to_vec();
    let gamma = name_of(b"gamma\n");

    // Two insertions above it. Its line number is now 5; its name has not moved.
    for text in ["one", "two"] {
        let (outcome, _, written) = run_on(
            &file,
            &[
                "--in-place",
                "--match",
                "line-hash",
                "--after",
                &name_of(b"alpha\n"),
                text,
                "notes.txt",
            ],
        );
        outcome.unwrap();
        file = written;
    }
    let (outcome, _, written) = run_on(
        &file,
        &[
            "--in-place",
            "--match",
            "line-hash",
            "--occurrences",
            "one",
            &gamma,
            "GAMMA",
            "notes.txt",
        ],
    );
    outcome.unwrap();
    assert_eq!(written, b"alpha\ntwo\none\nbeta\nGAMMA\n");
}

#[test]
fn a_name_stops_resolving_once_its_line_has_changed() {
    // The name is its own precondition: nothing else has to guard the line it points at.
    let beta = name_of(b"beta\n");
    let edit = |content: &[u8], text: &str| {
        run_on(
            content,
            &[
                "--in-place",
                "--match",
                "line-hash",
                "--occurrences",
                "one",
                &beta,
                text,
                "notes.txt",
            ],
        )
    };
    let (outcome, _, file) = edit(b"alpha\nbeta\n", "done");
    outcome.unwrap();
    let (outcome, _, file) = edit(&file, "again");

    assert!(matches!(outcome, Err(Failure::Unresolved { .. })));
    assert_eq!(file, b"alpha\ndone\n");
}

#[test]
fn chains_two_edits_by_the_reported_hash() {
    // The token an edit hands back is the token the next one passes.
    let file = b"alpha\nbeta\ngamma\n";
    let first = token_of(file);
    let (outcome, printed, file) = run_on(
        file,
        &[
            "beta",
            "BETA",
            "notes.md",
            "--in-place",
            "--expect-hash",
            &first,
            "--format",
            "json",
        ],
    );
    assert_eq!(outcome.unwrap(), Status::Success);
    let second = String::from_utf8(printed)
        .unwrap()
        .split(r#""hash_after":""#)
        .nth(1)
        .and_then(|rest| rest.split('"').next())
        .expect("the record names the hash it wrote")
        .to_string();
    assert_eq!(second, token_of(&file), "the reported hash is the file's");

    // The chained token still holds, so the second edit lands without a re-read.
    let (outcome, _, file) = run_on(
        &file,
        &[
            "gamma",
            "GAMMA",
            "notes.md",
            "--in-place",
            "--expect-hash",
            &second,
        ],
    );
    assert_eq!(outcome.unwrap(), Status::Success);
    assert_eq!(file, b"alpha\nBETA\nGAMMA\n");

    // Replaying the first token now names a file that has moved on twice.
    let (outcome, _, file) = run_on(
        &file,
        &[
            "alpha",
            "ALPHA",
            "notes.md",
            "--in-place",
            "--expect-hash",
            &first,
        ],
    );
    assert!(matches!(outcome, Err(Failure::Stale { .. })));
    assert_eq!(file, b"alpha\nBETA\nGAMMA\n");
}

#[test]
fn refuses_every_destination_when_the_precondition_fails() {
    let stale = "0000000000000000";
    for flags in [
        vec![
            "alpha",
            "A",
            "notes.md",
            "--in-place",
            "--expect-hash",
            stale,
        ],
        vec![
            "alpha",
            "A",
            "notes.md",
            "--output",
            "out.md",
            "--expect-hash",
            stale,
        ],
        vec![
            "alpha",
            "A",
            "notes.md",
            "--dry-run",
            "--expect-hash",
            stale,
        ],
        vec!["alpha", "A", "notes.md", "--expect-hash", stale],
    ] {
        let (outcome, printed, file) = run_on(b"alpha\n", &flags);
        assert!(
            matches!(outcome, Err(Failure::Stale { .. })),
            "expected {flags:?} to be refused"
        );
        assert!(printed.is_empty(), "a refused run printed {printed:?}");
        assert_eq!(file, b"alpha\n");
    }
}

#[test]
fn refuses_an_ambiguous_target_without_writing() {
    let (outcome, _, file) = run_on(
        b"beta\ngamma\nbeta\n",
        &[
            "beta",
            "B",
            "notes.md",
            "--in-place",
            "--occurrences",
            "one",
        ],
    );
    let Err(Failure::Ambiguous { matches, .. }) = outcome else {
        panic!("two matches under --occurrences one must be refused");
    };
    assert_eq!(matches, 2);
    assert_eq!(file, b"beta\ngamma\nbeta\n");

    // One match is what the mode asserts, so it goes through.
    let (outcome, _, file) = run_on(
        &file,
        &[
            "gamma",
            "G",
            "notes.md",
            "--in-place",
            "--occurrences",
            "one",
        ],
    );
    assert_eq!(outcome.unwrap(), Status::Success);
    assert_eq!(file, b"beta\nG\nbeta\n");

    // And a pattern that matches nothing is not exactly one either.
    let (outcome, _, _) = run_on(
        &file,
        &[
            "delta",
            "D",
            "notes.md",
            "--in-place",
            "--occurrences",
            "one",
        ],
    );
    assert!(matches!(outcome, Err(Failure::Unresolved { .. })));
}

#[test]
fn acts_on_as_many_matches_as_the_mode_names() {
    let seed = b"beta\ngamma\nbeta\n";
    for (mode, expected) in [
        (None, &b"B\ngamma\nB\n"[..]),
        (Some("all"), &b"B\ngamma\nB\n"[..]),
        (Some("first"), &b"B\ngamma\nbeta\n"[..]),
    ] {
        let mut flags = vec!["beta", "B", "notes.md", "--in-place"];
        if let Some(mode) = mode {
            flags.extend_from_slice(&["--occurrences", mode]);
        }
        let (outcome, _, file) = run_on(seed, &flags);
        outcome.unwrap();
        // The default and `all` agree byte for byte.
        assert_eq!(file, expected, "under {mode:?}");
    }
}

#[test]
fn replaces_a_file_named_as_its_own_output() {
    let (outcome, _, file) = run_on(
        b"alpha\nbeta\n",
        &["beta", "BETA", "notes.md", "--output", "notes.md"],
    );
    outcome.unwrap();
    assert_eq!(file, b"alpha\nBETA\n");
}

#[test]
fn reports_the_hash_of_what_it_wrote() {
    let content = b"alpha\nbeta\n";
    let before = token_of(content);

    let (outcome, printed, file) = run_on(
        content,
        &["beta", "BETA", "notes.md", "--in-place", "--format", "json"],
    );
    outcome.unwrap();

    let record = String::from_utf8(printed).unwrap();
    assert!(
        record.contains(&format!(r#""hash_after":"{}""#, token_of(&file))),
        "{record}"
    );
    assert!(
        record.contains(&format!(r#""hash_before":"{before}""#)),
        "{record}"
    );
}

#[test]
fn reports_the_hash_a_dry_run_would_have_written() {
    let (outcome, printed, file) = run_on(
        b"alpha\nbeta\n",
        &["beta", "BETA", "notes.md", "--dry-run", "--format", "json"],
    );
    outcome.unwrap();

    // Untouched, but the record still names what the edit would have produced.
    assert_eq!(file, b"alpha\nbeta\n");
    let record = String::from_utf8(printed).unwrap();
    assert!(
        record.contains(&format!(
            r#""hash_after":"{:016x}""#,
            content_hash(b"alpha\nBETA\n")
        )),
        "{record}"
    );
}

#[test]
fn prints_the_summary_after_the_bytes_it_summarizes() {
    let (outcome, printed, _) = run_on(
        b"alpha\nbeta\n",
        &["beta", "BETA", "notes.md", "--summary"],
    );
    outcome.unwrap();

    let text = String::from_utf8(printed).unwrap();
    let (body, summary) = text.split_once("Replaced").expect("the summary is printed");
    assert_eq!(body, "alpha\nBETA\n");
    assert_eq!(
        summary.trim(),
        format!(
            "1 occurrence(s); content is {:016x}",
            content_hash(b"alpha\nBETA\n")
        )
    );
}

#[test]
fn leaves_the_unreported_run_unhashed() {
    let (outcome, printed, _) = run_on(b"alpha\nbeta\n", &["beta", "BETA", "notes.md"]);
    outcome.unwrap();
    assert_eq!(printed, b"alpha\nBETA\n");
}

#[test]
fn ends_a_replacement_line_the_way_it_was_asked_to() {
    assert_eq!(as_line("a\nb", b"\r\n"), b"a\r\nb\r\n");
    assert_eq!(as_line("a\n", b"\n"), b"a\n");
    assert_eq!(as_line("", b"\n"), b"");
}

#[test]
fn a_dry_run_says_what_it_would_have_done() {
    let (outcome, printed, file) = run_on(b"a b a", &["a", "X", "notes.md", "--dry-run"]);
    assert_eq!(outcome.unwrap(), Status::Success);
    assert_eq!(file, b"a b a");
    assert_eq!(
        String::from_utf8(printed).unwrap(),
        format!(
            "Would replace 2 occurrence(s); content would be {:016x}\n",
            content_hash(b"X b X")
        )
    );
    // One that found nothing to replace says so by its status.
    let (outcome, _, _) = run_on(b"a b a", &["z", "X", "notes.md", "--dry-run"]);
    assert_eq!(outcome.unwrap(), Status::NoResult);
}
