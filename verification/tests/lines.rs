//! Lines, names of lines, and where a window may be cut.

use sztools::cuts::{last_cut, truncate_at_character, CutAfter};
use sztools::hashing::content_hash;
use sztools::lines::{named_lines, LineIter, LineSpans, NamedLine, Newlines, Span};

fn lines(data: &[u8], utf8: bool) -> Vec<&[u8]> {
    let mut all = Vec::new();
    let mut iter = LineIter::new(data, Newlines::from_utf8(utf8));
    while let Some(line) = iter.next() {
        all.push(line);
    }
    all
}

fn names(data: &[u8], newlines: Newlines) -> Vec<NamedLine<'_>> {
    let mut all = Vec::new();
    let mut iter = named_lines(data, newlines);
    while let Some(line) = iter.next() {
        all.push(line);
    }
    all
}

#[test]
fn splits_lines_on_lf() {
    assert_eq!(lines(b"a\nb\nc\n", false), vec![&b"a"[..], b"b", b"c"]);
}

#[test]
fn splits_lf_lines_without_trailing_newline() {
    assert_eq!(lines(b"a\nb\nc", false), vec![&b"a"[..], b"b", b"c"]);
}

#[test]
fn splits_lines_on_all_unicode_newlines() {
    // LF, CR, CRLF, NEL, LINE/PARAGRAPH SEPARATOR, with CRLF counted as one break.
    let data = "a\nb\r\nc\u{0085}d\u{2028}e\u{2029}".as_bytes();
    assert_eq!(lines(data, true), vec![&b"a"[..], b"b", b"c", b"d", b"e"]);
}

#[test]
fn splits_unicode_lines_without_trailing_newline() {
    assert_eq!(lines(b"a\r\nb\r\nc", true), vec![&b"a"[..], b"b", b"c"]);
}

#[test]
fn preserves_interior_blank_lines() {
    // A trailing newline drops only the final empty line; interior blank lines are kept.
    assert_eq!(lines(b"a\n\nb\n", false), vec![&b"a"[..], b"", b"b"]);
    assert_eq!(lines(b"a\r\n\r\nb\r\n", true), vec![&b"a"[..], b"", b"b"]);
}

#[test]
fn yields_no_lines_on_empty_input() {
    assert!(lines(b"", false).is_empty());
    assert!(lines(b"", true).is_empty());
}

#[test]
fn breaks_on_a_vertical_tab_and_a_form_feed_only_under_unicode() {
    assert_eq!(lines(b"a\x0Bb\x0Cc\rd", true), vec![&b"a"[..], b"b", b"c", b"d"]);
    assert_eq!(lines(b"a\x0Bb\x0Cc\rd", false), vec![&b"a\x0Bb\x0Cc\rd"[..]]);
}

#[test]
fn splits_every_line_where_its_name_was_taken() {
    // `whole` is what is hashed, it is exactly the body plus the terminator, and concatenating it
    // over every line reproduces the input.
    for input in [
        &b"alpha\nbeta\ngamma\n"[..],
        &b"alpha\r\nbeta\r\n"[..],
        &b"alpha\nbeta"[..],
        &b"\n\n\n"[..],
        &b""[..],
        "α\nβ\u{2028}γ\n".as_bytes(),
    ] {
        for newlines in [Newlines::Lf, Newlines::Unicode] {
            let mut rebuilt = Vec::new();
            for line in names(input, newlines) {
                assert_eq!(
                    line.body().len() + line.terminator().len(),
                    line.whole.len()
                );
                assert_eq!(line.hash(), content_hash(line.whole));
                rebuilt.extend_from_slice(line.whole);
            }
            assert_eq!(rebuilt, input, "{input:?} under {newlines:?}");
        }
    }
}

#[test]
fn splits_a_crlf_line_the_same_under_both_newline_sets() {
    let input = b"alpha\r\nbeta\r\n";
    let cut = |newlines| {
        names(input, newlines)
            .iter()
            .map(|line| {
                (
                    line.body().to_vec(),
                    line.terminator().to_vec(),
                    line.hash(),
                )
            })
            .collect::<Vec<_>>()
    };
    assert_eq!(cut(Newlines::Lf), cut(Newlines::Unicode));
    let first = &cut(Newlines::Lf)[0];
    assert_eq!(
        (first.0.as_slice(), first.1.as_slice()),
        (&b"alpha"[..], &b"\r\n"[..])
    );
}

#[test]
fn leaves_a_final_line_without_a_terminator_without_one() {
    let lines = names(b"alpha\nbeta", Newlines::Lf);
    assert_eq!(lines.len(), 2);
    assert!(lines[1].terminator().is_empty());
    assert_eq!(lines[1].end(), 10);
    // Adding a final newline renames the last line: those are different bytes.
    let terminated = names(b"alpha\nbeta\n", Newlines::Lf);
    assert_ne!(lines[1].hash(), terminated[1].hash());
}

#[test]
fn names_a_crlf_line_the_same_however_it_was_read() {
    let named = |newlines| {
        names(b"alpha\r\nbeta\r\n", newlines)
            .iter()
            .map(|line| line.hash())
            .collect::<Vec<_>>()
    };
    assert_eq!(named(Newlines::Lf), named(Newlines::Unicode));
}

#[test]
fn line_spans_reproduce_the_input() {
    // LF is one byte, CRLF two, LS three.
    let data = "a\r\nb\u{2028}c\nd".as_bytes();
    let mut iter = LineSpans::new(data, Newlines::Unicode);
    let mut spans: Vec<Span> = Vec::new();
    while let Some(span) = iter.next() {
        spans.push(span);
    }
    let joined: Vec<u8> = spans
        .iter()
        .flat_map(|span| &data[span.offset..span.offset + span.length])
        .copied()
        .collect();
    assert_eq!(joined, data);
    assert_eq!(
        spans.iter().map(|span| span.length).collect::<Vec<_>>(),
        [3, 4, 2, 1]
    );
}

#[test]
fn reports_offsets_of_borrowed_segments() {
    // CRLF and the Unicode separators are not one byte wide.
    let data = "a\r\nb\u{2028}hello\n".as_bytes();
    let offsets: Vec<usize> = names(data, Newlines::Unicode)
        .iter()
        .map(|line| line.offset)
        .collect();
    assert_eq!(offsets, vec![0, 3, 7]);
    assert_eq!(&data[offsets[2]..offsets[2] + 5], b"hello");
}

#[test]
fn truncates_without_splitting_characters() {
    // "héllo" is 6 bytes; cutting at 2 must not split the 2-byte "é".
    let line = "héllo".as_bytes();
    assert_eq!(truncate_at_character(line, 2), ("h".as_bytes(), true));
    assert_eq!(truncate_at_character(line, 3), ("hé".as_bytes(), true));
    assert_eq!(truncate_at_character(line, 6), (line, false));
    assert_eq!(truncate_at_character(line, 99), (line, false));
    assert_eq!(truncate_at_character(b"", 4), (&b""[..], false));
}

#[test]
fn reports_the_cut_past_the_last_terminator() {
    assert_eq!(last_cut(b"a\nb\n", CutAfter::LineFeed), Some(4));
    assert_eq!(last_cut(b"a\nb", CutAfter::LineFeed), Some(2));
    assert_eq!(last_cut(b"abc", CutAfter::LineFeed), None);
    assert_eq!(last_cut(b"", CutAfter::LineFeed), None);
    // The cut lands past a whole CRLF, which the Unicode set treats as one break.
    assert_eq!(last_cut(b"a\r\nb", CutAfter::LineTerminators), Some(3));
    assert_eq!(last_cut(b"a\rb", CutAfter::LineTerminators), Some(2));
    assert_eq!(
        last_cut("a\u{2028}b".as_bytes(), CutAfter::LineTerminators),
        Some(4)
    );
    assert_eq!(
        last_cut("a\u{0085}b".as_bytes(), CutAfter::LineTerminators),
        Some(3)
    );
}

#[test]
fn refuses_to_cut_inside_a_terminator() {
    // A trailing CR may be the head of a CRLF whose LF is in the next window.
    assert_eq!(last_cut(b"a\nbc\r", CutAfter::LineTerminators), Some(2));
    assert_eq!(last_cut(b"abc\r", CutAfter::LineTerminators), None);
    // A truncated LINE SEPARATOR is not a terminator; the earlier one is.
    let truncated = "a\u{2028}b\u{2028}".as_bytes();
    assert_eq!(
        last_cut(&truncated[..7], CutAfter::LineTerminators),
        Some(4)
    );
    // `2005` ends in `85` and `00A8` ends in `A8`, yet neither is a newline.
    assert_eq!(
        last_cut("a\u{2005}b\u{00A8}c".as_bytes(), CutAfter::LineTerminators),
        None
    );
}

#[test]
fn maps_every_newline_set_onto_its_cut_set() {
    assert_eq!(CutAfter::from(Newlines::Lf), CutAfter::LineFeed);
    assert_eq!(CutAfter::from(Newlines::Unicode), CutAfter::LineTerminators);
}

#[test]
fn skips_vertical_tab_and_form_feed_for_paragraph_separators() {
    // A sentence runs through VT and FF, so the paragraph set walks back to the separator before.
    assert_eq!(last_cut(b"a\nb\x0Bc", CutAfter::LineTerminators), Some(4));
    assert_eq!(
        last_cut(b"a\nb\x0Bc", CutAfter::ParagraphSeparators),
        Some(2)
    );
    assert_eq!(last_cut(b"a\nb\x0Cc", CutAfter::LineTerminators), Some(4));
    assert_eq!(
        last_cut(b"a\nb\x0Cc", CutAfter::ParagraphSeparators),
        Some(2)
    );
    assert_eq!(last_cut(b"a\x0Bb", CutAfter::ParagraphSeparators), None);
    // LF, CRLF, NEL, LS and PS stay cut points for both sets.
    assert_eq!(last_cut(b"a\r\nb", CutAfter::ParagraphSeparators), Some(3));
    assert_eq!(
        last_cut("a\u{0085}b".as_bytes(), CutAfter::ParagraphSeparators),
        Some(3)
    );
    assert_eq!(
        last_cut("a\u{2028}b".as_bytes(), CutAfter::ParagraphSeparators),
        Some(4)
    );
    assert_eq!(
        last_cut("a\u{2029}b".as_bytes(), CutAfter::ParagraphSeparators),
        Some(4)
    );
    // The bare-CR deferral and the look-alike rejection hold for both sets.
    assert_eq!(last_cut(b"abc\r", CutAfter::ParagraphSeparators), None);
    assert_eq!(
        last_cut(
            "a\u{2005}b\u{00A8}c".as_bytes(),
            CutAfter::ParagraphSeparators
        ),
        None
    );
}

#[test]
fn joins_lf_lines_back_with_line_feeds() {
    for (data, count) in [
        (&b""[..], 0),
        (b"\n", 1),
        (b"a", 1),
        (b"a\nb\r\n\nc", 4),
        (b"a\nb\r\n\nc\n", 4),
        (b"a\n\n", 2),
    ] {
        let all = lines(data, false);
        let feeds = data.iter().filter(|byte| **byte == b'\n').count();
        let open = !data.is_empty() && data.last() != Some(&b'\n');
        assert_eq!(all.len(), count);
        assert_eq!(all.len(), feeds + open as usize);
        assert!(all.iter().all(|line| !line.contains(&b'\n')));
        assert_eq!(all.join(&b'\n'), data.strip_suffix(b"\n").unwrap_or(data));
    }
}
