//! Counting lines, words, bytes and characters.

use sztools::count::render::{
    format_number, name_width, truncate_path, Format, NAME_WIDTH, TREE_GLYPH_WIDTH,
};
use sztools::count::report::{
    label_root, outcome, validate, write_counts_json, write_total_json, Args, Report, Row,
};
use sztools::count::stream::{CountStream, Need};
use sztools::count::tally::{trusted_size, Counter, Counts, Field, Fields, Plan};
use sztools::count::words::{count_words, count_words_resuming, Mode};
use sztools::cuts::CutAfter;
use sztools::status::Status;

/// Every selector set, in the order a table lists its columns.
fn fields_from_bits(bits: u8) -> Fields {
    Fields {
        lines: bits & 0b00001 != 0,
        words: bits & 0b00010 != 0,
        bytes: bits & 0b00100 != 0,
        chars: bits & 0b01000 != 0,
        max_line_length: bits & 0b10000 != 0,
    }
}

fn counted(data: &[u8], mode: Mode) -> Counts {
    Counter::new(mode, fields_from_bits(0b11111)).count_data(data)
}

/// Inputs whose newlines, whitespace, and terminators exercise every plan seam.
const EDGE_INPUTS: [&[u8]; 12] = [
    b"",
    b"\n",
    b"a\nb",
    b"abc",
    b"ab\nabcd\nabc\n",
    b"a\x0Bb\x0Cc\rd e\n",
    // Seven Unicode terminators, then a non-breaking space between two words.
    "a\u{0B}b\u{0C}c\rd\u{85}e\u{2028}f\u{2029}g\n".as_bytes(),
    "a\u{A0}b c".as_bytes(),
    // Words long enough that a small window lands inside one.
    b"alpha beta gamma delta epsilon\nzeta eta\n",
    // Two-, three-, and four-byte characters for a window to land inside.
    "\u{E9}\u{4E2D}\u{6587} \u{1F600}word\u{A0}tail\n".as_bytes(),
    // CRLF pairs for a window to land between.
    b"line one\r\nline two\r\n",
    b"  \t\n \n  ",
];

/// Count the same data through a window of `capacity` bytes, the way a pipe is counted.
fn streamed(data: &[u8], capacity: usize, mode: Mode, fields: Fields) -> Counts {
    let mut stream = CountStream::new(Counter::new(mode, fields), capacity);
    let mut rest = data;
    loop {
        match stream.advance() {
            Need::Read { room } => {
                let (front, back) = rest.split_at(room.min(rest.len()));
                stream.supply(front);
                rest = back;
            }
            Need::Done => return stream.finish(),
        }
    }
}

fn args() -> Args {
    Args {
        inputs: vec!["file.txt".to_string()],
        fields: vec![Field::Lines, Field::Words, Field::Bytes],
        utf8: false,
        posix: false,
        format: Format::Table,
        quiet: false,
    }
}

#[test]
fn counts_chars_over_the_whole_buffer() {
    // Whitespace and newlines are characters too, so this matches `wc -m`.
    let counts = counted("a b\né\n".as_bytes(), Mode::Unicode);
    assert_eq!(counts.chars, 6);
    assert_eq!(counts.bytes, 7);
}

#[test]
fn treats_vertical_tab_as_a_word_separator() {
    // Rust's `is_ascii_whitespace` omits `\v`; C's `isspace` includes it.
    assert_eq!(counted(b"a\x0Bb\x0Cc\rd e\n", Mode::Ascii).words, 5);
    assert_eq!(counted(b"a\x0Bb\x0Cc\rd e\n", Mode::Posix).words, 5);
}

#[test]
fn posix_lines_count_newline_bytes() {
    // `wc -l` counts terminators, so an unterminated final line does not count.
    assert_eq!(counted(b"a\nb", Mode::Posix).lines, 1);
    assert_eq!(counted(b"a\nb", Mode::Ascii).lines, 2);
    assert_eq!(counted(b"a\nb\n", Mode::Posix).lines, 2);
    assert_eq!(counted(b"abc", Mode::Posix).lines, 0);
    assert_eq!(counted(b"", Mode::Posix).lines, 0);
}

#[test]
fn posix_mode_ignores_unicode_newlines() {
    // Seven Unicode terminators: `--utf8` breaks on all of them, `--posix` on none.
    let data = "a\u{0B}b\u{0C}c\rd\u{85}e\u{2028}f\u{2029}g\n".as_bytes();
    assert_eq!(counted(data, Mode::Unicode).lines, 7);
    assert_eq!(counted(data, Mode::Posix).lines, 1);
}

#[test]
fn separates_words_by_unicode_whitespace() {
    // A non-breaking space separates words under `--utf8` but not in ASCII mode.
    let data = "a\u{A0}b c".as_bytes();
    assert_eq!(counted(data, Mode::Unicode).words, 3);
    assert_eq!(counted(data, Mode::Ascii).words, 2);
}

#[test]
fn reports_the_longest_line() {
    assert_eq!(counted(b"ab\nabcd\nabc\n", Mode::Ascii).max_line_length, 4);
    assert_eq!(counted(b"", Mode::Ascii).max_line_length, 0);
}

#[test]
fn skips_the_character_pass_when_unselected() {
    let fields = Fields {
        lines: true,
        words: false,
        bytes: false,
        chars: false,
        max_line_length: false,
    };
    let counter = Counter::new(Mode::Unicode, fields);
    assert_eq!(counter.count_data("é\n".as_bytes()).chars, 0);
}

#[test]
fn maps_selectors_onto_four_plans() {
    assert_eq!(Plan::of(fields_from_bits(0b00100)), Plan::Size);
    assert_eq!(Plan::of(fields_from_bits(0b01000)), Plan::Size);
    assert_eq!(Plan::of(fields_from_bits(0b00001)), Plan::LineExtents);
    assert_eq!(Plan::of(fields_from_bits(0b10000)), Plan::LineExtents);
    assert_eq!(Plan::of(fields_from_bits(0b00010)), Plan::WordsOnly);
    assert_eq!(Plan::of(fields_from_bits(0b00011)), Plan::LinesAndWords);
    assert_eq!(Plan::of(fields_from_bits(0b11111)), Plan::LinesAndWords);

    // Only bytes: the length answers it, so the content stays unread.
    assert!(!fields_from_bits(0b00100).reads_content());
    // Characters ride on `Plan::Size` but still need their own pass.
    assert!(fields_from_bits(0b01100).reads_content());
}

#[test]
fn every_newline_also_separates_words() {
    // `Plan::WordsOnly` skips line iteration, which is sound only while every
    // newline is itself a separator, so no word run can span a line break.
    for mode in [Mode::Posix, Mode::Ascii, Mode::Unicode] {
        assert!(mode.newlines_separate_words());
        assert_eq!(count_words(b"a\nb", mode), 2);
    }
    for newline in [
        '\n', '\u{0B}', '\u{0C}', '\r', '\u{85}', '\u{2028}', '\u{2029}',
    ] {
        let data = format!("a{}b", newline);
        assert_eq!(
            count_words(data.as_bytes(), Mode::Unicode),
            2,
            "U+{:04X} must separate words under --utf8",
            newline as u32
        );
    }
}

#[test]
fn subset_plans_agree_with_the_full_plan() {
    // Every field set lands on one of four plans, and each must report what the
    // all-fields plan reports for the fields it was asked for.
    for mode in [Mode::Posix, Mode::Ascii, Mode::Unicode] {
        for data in EDGE_INPUTS {
            let full = counted(data, mode);
            for bits in 1u8..0b100000 {
                let fields = fields_from_bits(bits);
                let subset = Counter::new(mode, fields).count_data(data);
                let context = format!("bits {:05b} over {:?}", bits, data);
                assert_eq!(subset.bytes, full.bytes, "bytes, {}", context);
                if fields.lines {
                    assert_eq!(subset.lines, full.lines, "lines, {}", context);
                }
                if fields.words {
                    assert_eq!(subset.words, full.words, "words, {}", context);
                }
                if fields.chars {
                    assert_eq!(subset.chars, full.chars, "chars, {}", context);
                }
                if fields.max_line_length {
                    assert_eq!(
                        subset.max_line_length, full.max_line_length,
                        "maxline, {}",
                        context
                    );
                }
            }
        }
    }
}

#[test]
fn streams_the_same_counts_as_a_whole_buffer() {
    // Every capacity puts the seam at a different byte, so one sweep covers a window
    // ending inside a word, inside a multi-byte character, and inside a CRLF pair.
    for mode in [Mode::Posix, Mode::Ascii, Mode::Unicode] {
        for data in EDGE_INPUTS {
            for bits in 1u8..0b100000 {
                let fields = fields_from_bits(bits);
                let whole = Counter::new(mode, fields).count_data(data);
                for capacity in 1..=data.len() + 2 {
                    assert_eq!(
                        streamed(data, capacity, mode, fields),
                        whole,
                        "bits {:05b} over {:?} at capacity {}",
                        bits,
                        data,
                        capacity
                    );
                }
            }
        }
    }
}

#[test]
fn streams_the_same_counts_at_tiny_capacities() {
    // Longer than one window in every mode, so the tallies have to survive many seams.
    let data = "one two\u{A0}three\u{2028}four five\r\nsix\u{1F600}seven eight\n".as_bytes();
    for mode in [Mode::Posix, Mode::Ascii, Mode::Unicode] {
        let fields = fields_from_bits(0b11111);
        let whole = Counter::new(mode, fields).count_data(data);
        for capacity in [7, 13] {
            assert_eq!(
                streamed(data, capacity, mode, fields),
                whole,
                "capacity {}",
                capacity
            );
        }
    }
}

#[test]
fn resumes_a_word_split_across_windows() {
    // The run "two" straddles the seam, and counting it in both windows would double it.
    for mode in [Mode::Posix, Mode::Ascii, Mode::Unicode] {
        let mut inside_word = false;
        let opening = count_words_resuming(b"one tw", mode, &mut inside_word);
        assert!(inside_word);
        let closing = count_words_resuming(b"o three ", mode, &mut inside_word);
        assert!(!inside_word);
        assert_eq!(opening + closing, 3);
    }
}

#[test]
fn constrains_the_cut_only_where_a_pass_decodes() {
    let cut_for = |bits, mode| Counter::new(mode, fields_from_bits(bits)).cut;
    // Words alone over bytes: nothing decodes, so the window carries nothing.
    assert_eq!(cut_for(0b00010, Mode::Ascii), CutAfter::Anywhere);
    assert_eq!(cut_for(0b00010, Mode::Posix), CutAfter::Anywhere);
    // The Unicode splitter and the character pass both decode.
    assert_eq!(cut_for(0b00010, Mode::Unicode), CutAfter::Characters);
    assert_eq!(cut_for(0b01000, Mode::Ascii), CutAfter::Characters);
    // Anything measuring lines has to see whole ones.
    assert_eq!(cut_for(0b00001, Mode::Ascii), CutAfter::LineFeed);
    assert_eq!(cut_for(0b10000, Mode::Unicode), CutAfter::LineTerminators);
    assert_eq!(cut_for(0b11111, Mode::Posix), CutAfter::LineFeed);
}

#[test]
fn selects_columns_in_table_order() {
    let counts = Counts {
        lines: 1,
        words: 2,
        bytes: 3,
        chars: 4,
        max_line_length: 5,
    };
    let fields = Fields {
        lines: true,
        words: false,
        bytes: true,
        chars: false,
        max_line_length: true,
    };
    let selected = counts.columns(fields);
    assert_eq!(selected, vec![("lines", 1), ("bytes", 3), ("maxline", 5)]);
}

#[test]
fn truncates_multibyte_paths_on_character_boundaries() {
    // The path is 60 non-ASCII characters.
    let path = "é".repeat(60);
    let truncated = truncate_path(&path, 40);
    assert!(truncated.starts_with("..."));
    assert_eq!(truncated.chars().count(), 40);
    assert_eq!(truncate_path("short.txt", 40), "short.txt");
    assert_eq!(truncate_path("short.txt", 5), "...xt");
    assert_eq!(truncate_path("short.txt", 3), "...");
    assert_eq!(truncate_path("short.txt", 2), "..");
    assert_eq!(truncate_path("short.txt", 0), "");
}

#[test]
fn sizes_the_name_column_to_the_names() {
    // Short names sit beside their counts rather than a column away from them.
    assert_eq!(name_width(&[("tiny.txt", 0)]), 8);
    // A tree entry's branch glyphs count toward the width its row occupies.
    assert_eq!(
        name_width(&[("tiny.txt", TREE_GLYPH_WIDTH)]),
        11
    );
    // The widest row sets the column, and truncation bounds it at `NAME_WIDTH`.
    let names = [("a.txt", 0), ("nested/directory/b.txt", 0)];
    assert_eq!(name_width(&names), 22);
    let long = "é".repeat(60);
    assert_eq!(name_width(&[(long.as_str(), 0)]), NAME_WIDTH);
    // Empty input renders a header alone, so the column collapses rather than pads.
    assert_eq!(name_width(&[]), 0);
}

#[test]
fn writes_json_with_untruncated_paths() {
    let counts = Counts {
        lines: 2,
        words: 3,
        bytes: 14,
        chars: 0,
        max_line_length: 7,
    };
    let fields = Fields {
        lines: true,
        words: true,
        bytes: true,
        chars: false,
        max_line_length: false,
    };
    let long_path = format!("{}/file.txt", "nested".repeat(10));
    let mut output = Vec::new();
    write_counts_json(&mut output, &long_path, &counts, fields);
    let text = String::from_utf8(output).unwrap();
    assert!(text.starts_with(r#"{"type":"count","#), "{}", text);
    assert!(text.contains(&long_path), "path must not be truncated");
    assert!(text.contains(r#""lines":2,"words":3,"bytes":14}}"#));
    assert!(!text.contains("chars"));
}

#[test]
fn sizes_a_file_without_reading_it() {
    assert_eq!(trusted_size(6, true, true), Some(6));
    // A zero-length file reports an untrusted size, so it falls through to a read.
    assert_eq!(trusted_size(0, true, false), None);
    let counter = Counter::new(Mode::Ascii, fields_from_bits(0b00100));
    assert_eq!(counter.count_data(b"a b\nc\n").bytes, 6);
    assert_eq!(counter.count_data(b"").bytes, 0);
}

#[test]
fn distrusts_the_size_synthetic_files_report() {
    // Some report zero bytes and some a whole page whose last byte does not read.
    assert_eq!(trusted_size(0, true, true), None);
    assert_eq!(trusted_size(4096, true, false), None);
    assert_eq!(trusted_size(4096, false, true), None);
}

#[test]
fn drains_a_stream_without_holding_it() {
    // Longer than one window, so the count has to survive across reads.
    let capacity = 4 << 10;
    let data = vec![b'x'; capacity * 2 + 7];
    let sizes = fields_from_bits(0b00100);
    assert_eq!(
        streamed(&data, capacity, Mode::Ascii, sizes).bytes,
        data.len()
    );
    assert_eq!(streamed(b"", capacity, Mode::Ascii, sizes).bytes, 0);
}

#[test]
fn defaults_to_the_wc_field_trio() {
    let fields = Fields::from_selection(&args().fields);
    assert_eq!(fields.selectors(), [true, true, true, false, false]);
}

#[test]
fn utf8_leaves_the_default_fields_alone() {
    let args = Args {
        utf8: true,
        ..args()
    };
    let fields = Fields::from_selection(&args.fields);
    assert_eq!(fields.selectors(), [true, true, true, false, false]);
    assert!(validate(&args).is_ok());
}

#[test]
fn reads_one_comma_separated_field_list() {
    let fields = Fields::from_selection(&[Field::Lines, Field::MaxLineLength]);
    assert_eq!(fields.selectors(), [true, false, false, false, true]);
}

#[test]
fn rejects_characters_under_posix() {
    // `--posix` promises byte-for-byte `wc`, which never counts code points.
    assert!(validate(&Args {
        posix: true,
        fields: vec![Field::Chars],
        ..args()
    })
    .is_err());
    assert!(validate(&Args {
        posix: true,
        ..args()
    })
    .is_ok());
}

fn row(path: &str, counts: Counts) -> Row {
    Row {
        path: path.to_string(),
        name: path.to_string(),
        counts,
        human: Vec::new(),
    }
}

#[test]
fn reports_the_exit_status_of_a_finished_run() {
    // An empty directory completed and found nothing.
    assert!(outcome(&Report::new(Some("d/".to_string())), 0) == Status::NoResult);

    // A readable file found something, however quiet the run.
    let counter = Counter::new(Mode::Ascii, Fields::from_selection(&args().fields));
    let mut report = Report::new(None);
    report.push(row("a.txt", counter.count_data(b"a b\n")));
    assert!(outcome(&report, 0) == Status::Success);

    // A missing input warns and still counts its neighbour, so only the run that read nothing at
    // all is incomplete.
    assert_eq!(report.rows.len(), 1);
    assert!(outcome(&report, 1) == Status::Success);
    assert!(outcome(&Report::new(None), 1) == Status::Error);
}

#[test]
fn sz_count_quiet_rejects_the_flags_it_would_ignore() {
    // Under `--quiet` the exit status is the whole output, so nothing that shapes a measurement or
    // a table can reach it.
    assert!(validate(&Args {
        quiet: true,
        format: Format::Json,
        ..args()
    })
    .is_err());
    assert!(validate(&Args {
        quiet: true,
        fields: vec![Field::Lines],
        ..args()
    })
    .is_err());

    // What the input is still steers the status.
    assert!(validate(&Args {
        quiet: true,
        utf8: true,
        ..args()
    })
    .is_ok());
    assert!(validate(&Args {
        quiet: true,
        posix: true,
        ..args()
    })
    .is_ok());
}

#[test]
fn refuses_two_readings_of_one_input() {
    assert!(validate(&Args {
        posix: true,
        utf8: true,
        ..args()
    })
    .is_err());
}

#[test]
fn adds_everything_up_but_the_longest_line() {
    let mut total = counted(b"ab\nabcd\n", Mode::Ascii);
    total.add(&counted(b"abc", Mode::Ascii));
    assert_eq!(
        total,
        Counts {
            lines: 3,
            words: 3,
            bytes: 11,
            chars: 11,
            max_line_length: 4
        }
    );
}

#[test]
fn renders_a_table_and_its_records() {
    let fields = fields_from_bits(0b00101);
    let mut report = Report::new(None);
    report.push(row("a.txt", counted(b"a\nb\n", Mode::Ascii)));
    report.push(row("bc.txt", counted(&[b'x'; 1234], Mode::Ascii)));

    let mut table = Vec::new();
    report.render(&mut table, fields, Format::Table);
    assert_eq!(
        String::from_utf8(table).unwrap(),
        "       lines bytes\n\
         a.txt      2     4\n\
         bc.txt     1 1,234\n\
        \x20      ───── ─────\n\
        \x20          3 1,238\n"
    );

    let mut records = Vec::new();
    report.render(&mut records, fields, Format::Json);
    assert_eq!(
        String::from_utf8(records).unwrap(),
        "{\"type\":\"count\",\"data\":{\"path\":{\"text\":\"a.txt\"},\"lines\":2,\"bytes\":4}}\n\
         {\"type\":\"count\",\"data\":{\"path\":{\"text\":\"bc.txt\"},\"lines\":1,\"bytes\":1234}}\n\
         {\"type\":\"total\",\"data\":{\"files\":2,\"lines\":3,\"bytes\":1238}}\n"
    );
}

#[test]
fn writes_the_total_of_a_run() {
    let mut output = Vec::new();
    write_total_json(
        &mut output,
        3,
        &Counts {
            lines: 7,
            ..Counts::default()
        },
        fields_from_bits(0b00001),
    );
    assert_eq!(
        output,
        b"{\"type\":\"total\",\"data\":{\"files\":3,\"lines\":7}}\n"
    );
}

#[test]
fn renders_a_number_the_way_its_table_asks() {
    assert_eq!(format_number(1_234_567, Format::Table, ""), "1,234,567");
    assert_eq!(format_number(1_234_567, Format::Plain, ""), "1234567");
    assert_eq!(format_number(1_234_567, Format::Human, "1.2M"), "1.2M");
}

#[test]
fn labels_a_directory_with_one_slash() {
    assert_eq!(label_root("src"), "src/");
    assert_eq!(label_root("src/"), "src/");
}

#[test]
fn asks_a_count_for_as_many_bytes_as_its_window_has_room_for() {
    let mut stream = CountStream::new(Counter::new(Mode::Posix, fields_from_bits(0b00001)), 4);
    assert_eq!(stream.advance(), Need::Read { room: 4 });
    stream.supply(b"a\nb");
    assert_eq!(stream.advance(), Need::Read { room: 1 });
    stream.supply(b"c");
    assert_eq!(stream.advance(), Need::Read { room: 2 });
    stream.supply(b"");
    assert_eq!(stream.advance(), Need::Done);
    assert_eq!(stream.finish().lines, 1);
}

#[test]
fn counts_the_characters_of_a_stream_that_is_no_text() {
    let data = b"a\xFF\x80b \xC3\xA9\n\xE2\x82";
    let whole = counted(data, Mode::Unicode);
    for capacity in 1..=8 {
        let some = streamed(data, capacity, Mode::Unicode, fields_from_bits(0b11101));
        assert_eq!(some.chars, whole.chars);
        assert_eq!(some.lines, whole.lines);
        assert_eq!(some.bytes, whole.bytes);
        assert_eq!(some.max_line_length, whole.max_line_length);
    }
}
