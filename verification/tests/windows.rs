//! Reading an input through one reused window.

use sztools::cuts::{last_cut, CutAfter};
use sztools::hashing::content_hash;
use sztools::lines::{LineIter, Newlines};
use sztools::windows::{Next, Offer, Refill, Windows};

/// A stream, read no more than a few bytes at a time.
struct Source<'a> {
    data: &'a [u8],
    step: usize,
}

impl<'a> Source<'a> {
    fn new(data: &'a [u8]) -> Self {
        Source { data, step: 5 }
    }

    fn read(&mut self, room: usize) -> &'a [u8] {
        let count = room.min(self.step).min(self.data.len());
        let (front, rest) = self.data.split_at(count);
        self.data = rest;
        front
    }
}

/// Fill the window, or reach the end of the input.
fn fill(refill: &mut Refill, source: &mut Source<'_>) {
    while !refill.at_eof() && refill.room() > 0 {
        let room = refill.room();
        refill.supply(source.read(room));
    }
}

/// Drop what was consumed, fill the window again, and say whether anything is in it.
fn advance(refill: &mut Refill, source: &mut Source<'_>, consumed: usize) -> bool {
    refill.advance(consumed);
    fill(refill, source);
    !refill.filled().is_empty()
}

/// Hand every window of a stream to `body`.
fn for_each_window(
    refill: &mut Refill,
    source: &mut Source<'_>,
    cut: CutAfter,
    mut body: impl FnMut(&[u8]),
) {
    loop {
        match refill.offer(cut) {
            Offer::Fill { room } => refill.supply(source.read(room)),
            Offer::Widen { .. } => {}
            Offer::Window { end } => {
                body(&refill.filled()[..end]);
                refill.advance(end);
            }
            Offer::End => return,
        }
    }
}

/// The next window of a walk, and where it starts.
fn next(
    windows: &mut Windows<'_>,
    source: &mut Source<'_>,
    cut: CutAfter,
    consumed: usize,
) -> Option<(Vec<u8>, usize)> {
    let mut answer = windows.next(cut, consumed);
    loop {
        match answer {
            Next::Read { room } => {
                windows.supply(source.read(room));
                answer = windows.resume(cut);
            }
            Next::Window { start, end } => {
                return Some((windows.filled()[..end].to_vec(), start));
            }
            Next::End => return None,
        }
    }
}

fn streamed_lines(data: &[u8], capacity: usize, newlines: Newlines) -> Vec<Vec<u8>> {
    let mut refill = Refill::new(capacity);
    let mut collected = Vec::new();
    for_each_window(
        &mut refill,
        &mut Source::new(data),
        newlines.into(),
        |window| {
            let mut lines = LineIter::new(window, newlines);
            while let Some(line) = lines.next() {
                collected.push(line.to_vec());
            }
        },
    );
    collected
}

fn driven_windows(data: &[u8], capacity: usize, cut: CutAfter) -> Vec<Vec<u8>> {
    let mut refill = Refill::new(capacity);
    let mut windows: Vec<Vec<u8>> = Vec::new();
    for_each_window(&mut refill, &mut Source::new(data), cut, |window| {
        assert!(windows.len() < 64, "the driver stopped making progress");
        windows.push(window.to_vec());
    });
    windows
}

fn whole_lines(data: &[u8], newlines: Newlines) -> Vec<Vec<u8>> {
    let mut collected = Vec::new();
    let mut lines = LineIter::new(data, newlines);
    while let Some(line) = lines.next() {
        collected.push(line.to_vec());
    }
    collected
}

#[test]
fn walks_a_whole_input_as_one_window() {
    let mut windows = Windows::over(b"alpha\nbeta\n");
    let mut nothing = Source::new(b"");
    assert_eq!(windows.whole(), Some(&b"alpha\nbeta\n"[..]));
    let (window, base) = next(&mut windows, &mut nothing, CutAfter::LineFeed, 0).unwrap();
    assert_eq!(window, b"alpha\nbeta\n");
    assert_eq!(base, 0);
    let length = window.len();
    assert!(next(&mut windows, &mut nothing, CutAfter::LineFeed, length).is_none());
}

#[test]
fn offers_a_whole_slice_for_every_source_but_a_pipe() {
    assert_eq!(Windows::over(b"abc").whole(), Some(&b"abc"[..]));
    assert_eq!(Windows::streaming(1).whole(), None);
}

#[test]
fn takes_a_prefix_from_a_whole_input_and_leaves_the_rest() {
    let mut windows = Windows::over(b"head\nbody\ntail\n");
    let mut nothing = Source::new(b"");
    let (first, base) = next(&mut windows, &mut nothing, CutAfter::LineFeed, 0).unwrap();
    assert_eq!(first, b"head\nbody\ntail\n");
    assert_eq!(base, 0);

    let (rest, base) = next(&mut windows, &mut nothing, CutAfter::LineFeed, 5).unwrap();
    assert_eq!(rest, b"body\ntail\n");
    assert_eq!(base, 5);

    let length = rest.len();
    assert!(next(&mut windows, &mut nothing, CutAfter::LineFeed, length).is_none());
}

#[test]
fn ends_a_whole_walk_rather_than_repeating_a_window_it_cannot_widen() {
    let mut windows = Windows::over(b"only\n");
    let mut nothing = Source::new(b"");
    assert!(next(&mut windows, &mut nothing, CutAfter::LineFeed, 0).is_some());
    assert!(next(&mut windows, &mut nothing, CutAfter::LineFeed, 0).is_none());
}

#[test]
fn walks_a_stream_in_windows_that_report_their_offsets() {
    // Every window cuts on a line, and the bases tile the input without a gap or an overlap.
    let data: Vec<u8> = (0..4000)
        .flat_map(|n| format!("line {n}\n").into_bytes())
        .collect();
    let mut source = Source {
        data: &data,
        step: 700,
    };
    let mut windows = Windows::streaming(1024);

    let mut seen = Vec::new();
    let mut consumed = 0;
    while let Some((window, base)) = next(&mut windows, &mut source, CutAfter::LineFeed, consumed) {
        assert_eq!(base, seen.len(), "windows must tile the input");
        assert!(window.ends_with(b"\n"), "a window must cut on a line");
        seen.extend_from_slice(&window);
        consumed = window.len();
    }
    assert_eq!(seen, data);
}

#[test]
fn keeps_a_partial_record_in_view_when_less_than_a_window_is_consumed() {
    let data: Vec<u8> = (0..2000)
        .flat_map(|n| format!("line {n}\n").into_bytes())
        .collect();
    let mut source = Source {
        data: &data,
        step: 700,
    };
    let mut windows = Windows::streaming(512);

    let (first, _) = next(&mut windows, &mut source, CutAfter::LineFeed, 0).unwrap();
    let held_back = 20.min(first.len());
    let tail: Vec<u8> = first[first.len() - held_back..].to_vec();
    let consumed = first.len() - held_back;

    let (second, base) = next(&mut windows, &mut source, CutAfter::LineFeed, consumed).unwrap();
    assert!(
        second.starts_with(&tail),
        "the unconsumed tail must lead the next window"
    );
    assert_eq!(
        base, consumed,
        "the base advances by what was consumed, not by what was seen"
    );
}

#[test]
fn grows_a_window_for_a_record_that_never_cuts() {
    let long = vec![b'x'; 5000];
    let mut source = Source {
        data: &long,
        step: 700,
    };
    let mut windows = Windows::streaming(256);
    let (window, _) = next(&mut windows, &mut source, CutAfter::LineFeed, 0).unwrap();
    assert_eq!(
        window.len(),
        long.len(),
        "an unterminated record grows the window"
    );
}

#[test]
fn hashes_a_windowed_read_as_one_slice() {
    let input = b"alpha\nbeta\n\ngamma delta epsilon zeta\nend";
    for capacity in [1, 2, 7, 13, 64, 4096] {
        let mut refill = Refill::new(capacity);
        refill.hash_stream();
        for_each_window(
            &mut refill,
            &mut Source::new(input),
            CutAfter::LineFeed,
            |_| {},
        );
        assert_eq!(
            refill.digest(),
            Some(content_hash(input)),
            "capacity {capacity}"
        );
    }
}

#[test]
fn hashes_only_what_a_stopped_read_took() {
    let input = b"alpha\nbeta\ngamma\n";
    let mut source = Source {
        data: input,
        step: 6,
    };
    let mut walk = Windows::streaming(6);
    walk.hash_stream();
    // One window, and then the caller stops asking, which is how an early stop is spelled.
    next(&mut walk, &mut source, CutAfter::LineFeed, 0).unwrap();
    let stopped = walk.digest().unwrap();
    assert_ne!(stopped, content_hash(input));
    assert_eq!(stopped, content_hash(b"alpha\n"));
}

#[test]
fn hashes_nothing_when_it_was_not_asked_to() {
    let mut refill = Refill::new(8);
    for_each_window(
        &mut refill,
        &mut Source::new(b"alpha\n"),
        CutAfter::LineFeed,
        |_| {},
    );
    assert_eq!(refill.digest(), None);
}

#[test]
fn leaves_the_window_untouched_on_a_zero_consume() {
    let mut source = Source::new(b"abcdefgh");
    let mut refill = Refill::new(4);
    assert!(advance(&mut refill, &mut source, 0));
    assert_eq!(refill.filled(), b"abcd");
    // Retaining everything re-reads nothing and slides nothing.
    assert!(advance(&mut refill, &mut source, 0));
    assert_eq!(refill.filled(), b"abcd");
}

#[test]
fn tiles_the_input_when_nothing_is_retained() {
    let mut source = Source::new(b"abcdefghij");
    let mut refill = Refill::new(4);
    let mut windows = Vec::new();
    let mut consumed = 0;
    while advance(&mut refill, &mut source, consumed) {
        windows.push(refill.filled().to_vec());
        consumed = refill.filled().len();
    }
    assert_eq!(
        windows,
        vec![b"abcd".to_vec(), b"efgh".to_vec(), b"ij".to_vec()]
    );
    assert!(refill.at_eof());
}

#[test]
fn grows_the_window_for_a_record_wider_than_it() {
    let data = b"short\nthis single record is far wider than the starting window\ntail\n";
    let mut source = Source::new(data);
    let mut refill = Refill::new(8);
    assert!(advance(&mut refill, &mut source, 0));
    // "short\n" fits, so the first cut needs no growth.
    assert_eq!(last_cut(refill.filled(), CutAfter::LineFeed), Some(6));
    assert!(advance(&mut refill, &mut source, 6));
    assert_eq!(last_cut(refill.filled(), CutAfter::LineFeed), None);
    refill.grow();
    assert_eq!(refill.capacity(), 16);
    assert_eq!(
        streamed_lines(data, 8, Newlines::Lf),
        whole_lines(data, Newlines::Lf)
    );
}

#[test]
fn grows_the_window_until_the_record_fits() {
    // A megabyte line out of a four-byte window arrives whole.
    let mut data = vec![b'x'; 1 << 20];
    data.push(b'\n');
    let mut source = Source {
        data: &data,
        step: 1 << 16,
    };
    let mut refill = Refill::new(4);
    let cut = CutAfter::LineFeed;
    while advance(&mut refill, &mut source, 0) && last_cut(refill.filled(), cut).is_none() {
        refill.grow();
    }
    assert!(refill.capacity() >= data.len());
    assert_eq!(
        streamed_lines(&data, 4, Newlines::Lf),
        whole_lines(&data, Newlines::Lf)
    );
}

#[test]
fn streams_a_partial_trailing_record_at_eof() {
    let data = b"alpha\nbeta\ngamma";
    assert_eq!(
        streamed_lines(data, 4, Newlines::Lf),
        vec![b"alpha".to_vec(), b"beta".to_vec(), b"gamma".to_vec()]
    );
    assert_eq!(streamed_lines(b"", 4, Newlines::Lf), Vec::<Vec<u8>>::new());
    assert_eq!(streamed_lines(b"\n", 4, Newlines::Lf), vec![b"".to_vec()]);
}

#[test]
fn streams_the_same_lines_at_tiny_capacities() {
    let line_feed = b"alpha\nbeta\n\ngamma delta\nepsilon";
    let unicode = "alpha\r\nbeta\u{2028}\u{2029}gamma\u{0085}delta\u{000B}omega".as_bytes();
    for capacity in [7, 13] {
        assert_eq!(
            streamed_lines(line_feed, capacity, Newlines::Lf),
            whole_lines(line_feed, Newlines::Lf)
        );
        assert_eq!(
            streamed_lines(unicode, capacity, Newlines::Unicode),
            whole_lines(unicode, Newlines::Unicode)
        );
    }
}

#[test]
fn keeps_a_crlf_whole_across_a_seam() {
    // A window of 5 ends on the CR of "bc\r\n". Cutting there would leave a bare LF to open the
    // next window, yielding one extra line.
    let data = b"a\nbc\r\nd\n";
    assert_eq!(
        streamed_lines(data, 5, Newlines::Unicode),
        vec![b"a".to_vec(), b"bc".to_vec(), b"d".to_vec()]
    );
}

#[test]
fn cuts_anywhere_when_nothing_carries() {
    assert_eq!(last_cut(b"abc", CutAfter::Anywhere), Some(3));
    assert_eq!(last_cut(b"", CutAfter::Anywhere), None);
    // Nothing is retained, so the windows are the successive capacity-sized chunks.
    assert_eq!(
        driven_windows(b"abcdefghij", 4, CutAfter::Anywhere),
        vec![b"abcd".to_vec(), b"efgh".to_vec(), b"ij".to_vec()]
    );
}

#[test]
fn cuts_between_characters_rather_than_inside_one() {
    // "é" is two bytes, so a cut at byte 2 would part them.
    let two_byte = "aé".as_bytes();
    assert_eq!(last_cut(two_byte, CutAfter::Characters), Some(1));
    assert_eq!(last_cut(&two_byte[..2], CutAfter::Characters), Some(1));
    assert_eq!(last_cut(b"ab", CutAfter::Characters), Some(1));
    assert_eq!(last_cut(b"a", CutAfter::Characters), None);
    assert_eq!(last_cut(b"", CutAfter::Characters), None);

    // Two-, three- and four-byte characters, at every capacity a seam can land in: the windows
    // tile the input and each one decodes on its own.
    let data = "aé\u{4E2D}\u{1F600}b".as_bytes();
    for capacity in 1..=data.len() + 2 {
        let windows = driven_windows(data, capacity, CutAfter::Characters);
        assert_eq!(windows.concat(), data, "capacity {}", capacity);
        for window in &windows {
            assert!(
                std::str::from_utf8(window).is_ok(),
                "capacity {} split a character",
                capacity
            );
        }
    }
}

#[test]
fn takes_the_last_window_whole_however_it_ends() {
    let truncated = &b"caf\xC3"[..];
    assert_eq!(last_cut(truncated, CutAfter::Characters), Some(3));
    assert_eq!(
        driven_windows(truncated, 64, CutAfter::Characters),
        vec![truncated.to_vec()]
    );
    // The same holds for a final line that never got its terminator.
    assert_eq!(
        driven_windows(b"a\nbc", 64, CutAfter::LineFeed),
        vec![b"a\nbc".to_vec()]
    );
}

#[test]
fn stops_the_run_where_the_caller_stops_asking() {
    let mut source = Source::new(b"a\nb\nc\nd\n");
    let mut walk = Windows::streaming(4);
    let (first, base) = next(&mut walk, &mut source, CutAfter::LineFeed, 0).unwrap();
    assert_eq!(first, b"a\nb\n");
    assert_eq!(base, 0);
    assert_eq!(source.data, b"c\nd\n", "nothing more was read");
}

#[test]
fn agrees_with_the_whole_buffer_at_every_capacity() {
    // One sweep covers a cut inside a CRLF, inside each multi-byte terminator, and inside a
    // look-alike codepoint.
    let inputs: [&[u8]; 6] = [
        b"a\nbc\r\nd\n",
        b"\r\n\r\na\r\n",
        "\u{2028}a\u{2029}b\u{0085}\u{000B}c".as_bytes(),
        "a\u{2005}b\u{00A8}c\u{2028}d".as_bytes(),
        b"no terminator anywhere in this record",
        b"",
    ];
    for input in inputs {
        for capacity in 1..=input.len() + 2 {
            for newlines in [Newlines::Lf, Newlines::Unicode] {
                assert_eq!(
                    streamed_lines(input, capacity, newlines),
                    whole_lines(input, newlines),
                    "capacity {}",
                    capacity
                );
            }
        }
    }
}
