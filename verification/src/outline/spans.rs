//! The spans of a Markdown outline: in order, and never overlapping.

use vstd::prelude::*;

use crate::lines::{lemma_lines_step, line_at, Newlines};
use crate::outline::element::{pushed, Entry, Outlined};
use crate::outline::markdown::{closed, fresh_scan, markdown_outline, scanned, scanned_from, Scan};

verus! {

/// Every element of an outline in the order a reader meets it: each one and then the blocks under
/// it.
pub open spec fn recorded(elements: Seq<Outlined>) -> Seq<Entry>
    decreases elements.len(),
{
    if elements.len() == 0 {
        Seq::empty()
    } else {
        recorded(elements.drop_last()).push(elements.last().head) + elements.last().children
    }
}

/// Whether these elements stand one behind the other, each ending, by byte and by line, before the
/// next begins.
pub open spec fn apart(entries: Seq<Entry>) -> bool {
    forall|i: int, j: int|
        #![trigger entries[i], entries[j]]
        0 <= i < j < entries.len() ==> entries[i].end() <= entries[j].byte_offset
            && entries[i].next_line() <= entries[j].line_number
}

/// Whether these elements all end before byte `offset` and line `line`.
pub open spec fn before(entries: Seq<Entry>, offset: int, line: int) -> bool {
    forall|i: int|
        0 <= i < entries.len() ==> (#[trigger] entries[i]).end() <= offset
            && entries[i].next_line() <= line
}

/// Where the next element a scan records may begin.
spec fn frontier(scan: Scan, at: int) -> (int, int) {
    match (scan.block, scan.code) {
        (Some(open), _) => (open.offset, open.line),
        (None, Some(code)) => (code.offset, code.line),
        (None, None) => (at, scan.number + 1),
    }
}

spec fn sound(scan: Scan, at: int) -> bool {
    &&& apart(recorded(scan.elements))
    &&& before(recorded(scan.elements), frontier(scan, at).0, frontier(scan, at).1)
    &&& scan.section matches Some(index) ==> index == scan.elements.len() - 1 && 0 <= index
    &&& scan.block matches Some(open) ==> open.offset <= at && 1 <= open.line <= scan.number
        && scan.code is None
    &&& scan.code matches Some(code) ==> code.offset <= at && 1 <= code.line <= scan.number
    &&& 0 <= scan.number
}

proof fn lemma_pushed(elements: Seq<Outlined>, section: Option<int>, entry: Entry)
    requires
        section matches Some(index) ==> index == elements.len() - 1 && 0 <= index,
    ensures
        recorded(pushed(elements, section, entry)) == recorded(elements).push(entry),
        pushed(elements, section, entry).len() == elements.len() + if section is Some {
            0int
        } else {
            1int
        },
{
    let after = pushed(elements, section, entry);
    match section {
        Some(index) => {
            assert(after.drop_last() =~= elements.drop_last());
            assert(recorded(after) =~= recorded(elements).push(entry));
        },
        None => {
            assert(after.drop_last() =~= elements);
            assert(recorded(after) =~= recorded(elements).push(entry));
        },
    }
}

proof fn lemma_one_more(entries: Seq<Entry>, entry: Entry, offset: int, line: int)
    requires
        apart(entries),
        before(entries, entry.byte_offset, entry.line_number),
        entry.end() <= offset,
        entry.next_line() <= line,
        entry.byte_length >= 0,
        entry.line_count >= 0,
    ensures
        apart(entries.push(entry)),
        before(entries.push(entry), offset, line),
{
    let after = entries.push(entry);
    assert forall|i: int, j: int|
        #![trigger after[i], after[j]]
        0 <= i < j < after.len() implies after[i].end() <= after[j].byte_offset
        && after[i].next_line() <= after[j].line_number by {
        assert(after[i] == entries[i]);
        if j < entries.len() {
            assert(after[j] == entries[j]);
        }
    }
    assert forall|i: int| 0 <= i < after.len() implies (#[trigger] after[i]).end() <= offset
        && after[i].next_line() <= line by {
        if i < entries.len() {
            assert(after[i] == entries[i]);
        }
    }
}

/// Closing the open block keeps every element apart, and before the point it was closed at.
proof fn lemma_closed(scan: Scan, at: int, line: int, offset: int)
    requires
        sound(scan, at),
        at <= offset,
        scan.code is None,
        scan.number <= line,
    ensures
        ({
            let after = closed(scan.elements, scan.block, scan.section, line, offset);
            &&& apart(recorded(after))
            &&& before(recorded(after), offset, line + 1)
            &&& scan.section is Some ==> after.len() == scan.elements.len()
        }),
{
    match scan.block {
        None => {
            assert forall|i: int| 0 <= i < recorded(scan.elements).len() implies (
            #[trigger] recorded(scan.elements)[i]).end() <= offset && recorded(
                scan.elements,
            )[i].next_line() <= line + 1 by {}
        },
        Some(open) => {
            let entry = Entry {
                kind: open.block.as_kind(),
                name: open.block.as_label(),
                line_number: open.line,
                byte_offset: open.offset,
                byte_length: if offset > open.offset {
                    offset - open.offset
                } else {
                    0
                },
                line_count: line - open.line + 1,
            };
            lemma_pushed(scan.elements, scan.section, entry);
            lemma_one_more(recorded(scan.elements), entry, offset, line + 1);
        },
    }
}

proof fn lemma_scanned(scan: Scan, line: Seq<u8>, at: int, end: int)
    requires
        sound(scan, at),
        0 <= at,
        at + line.len() <= end,
    ensures
        sound(scanned(scan, line, at), end),
{
    let after = scanned(scan, line, at);
    let number = scan.number + 1;
    if scan.code is None {
        lemma_closed(scan, at, scan.number, at);
    }
    let interrupted = closed(scan.elements, scan.block, scan.section, number - 1, at);
    match (crate::outline::markdown::fence_of(line), scan.code) {
        (Some((marker, language)), Some(code)) => {
            if code.marker == marker {
                let entry = Entry {
                    kind: crate::outline::element::Kind::CodeBlock { language: code.language },
                    name: crate::bytes::lit("code"),
                    line_number: code.line,
                    byte_offset: code.offset,
                    byte_length: at + line.len() - code.offset,
                    line_count: number - code.line + 1,
                };
                lemma_pushed(scan.elements, scan.section, entry);
                lemma_one_more(recorded(scan.elements), entry, end, number + 1);
            }
        },
        (Some((marker, language)), None) => {},
        (None, Some(code)) => {},
        (None, None) => {
            let text = crate::outline::markdown::unindented(line, 3);
            match (
                crate::outline::markdown::heading_of(text),
                crate::outline::markdown::image_of(line),
            ) {
                (Some((level, name)), _) => {
                    let head = after.elements.last().head;
                    lemma_pushed(interrupted, None, head);
                    assert(after.elements =~= pushed(interrupted, None, head));
                    lemma_one_more(recorded(interrupted), head, end, number + 1);
                },
                (None, Some(alt)) => {
                    let entry = Entry {
                        kind: crate::outline::element::Kind::Image { alt },
                        name: alt,
                        line_number: number,
                        byte_offset: at,
                        byte_length: line.len() as int,
                        line_count: 1,
                    };
                    lemma_pushed(interrupted, scan.section, entry);
                    lemma_one_more(recorded(interrupted), entry, end, number + 1);
                },
                (None, None) => {},
            }
        },
    }
}

proof fn lemma_scanned_from(data: Seq<u8>, newlines: Newlines, at: int, scan: Scan)
    requires
        sound(scan, at),
        0 <= at <= data.len(),
    ensures
        sound(scanned_from(data, newlines, at, scan), data.len() as int),
    decreases data.len() - at,
{
    if at < data.len() {
        lemma_lines_step(data, at, newlines);
        let line = line_at(data, at, newlines);
        lemma_scanned(scan, line.as_cut(data), at, line.end);
        lemma_scanned_from(data, newlines, line.end, scanned(scan, line.as_cut(data), at));
    }
}

/// The elements of a Markdown outline stand one behind the other: no two share a byte or a line,
/// and none reaches past the end of the text.
pub proof fn markdown_spans_never_overlap(data: Seq<u8>, newlines: Newlines)
    ensures
        apart(recorded(markdown_outline(data, newlines))),
        forall|i: int|
            0 <= i < recorded(markdown_outline(data, newlines)).len() ==> (#[trigger] recorded(
                markdown_outline(data, newlines),
            )[i]).end() <= data.len(),
{
    lemma_scanned_from(data, newlines, 0, fresh_scan());
    let scan = scanned_from(data, newlines, 0, fresh_scan());
    if scan.code is None {
        lemma_closed(scan, data.len() as int, scan.number, data.len() as int);
    }
}

} // verus!
