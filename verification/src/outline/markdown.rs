//! Outlining Markdown: headings, code blocks, tables, blockquotes, images and paragraphs.

use vstd::prelude::*;

use crate::bytes::{
    byte_position, lit, put_str, trim_ascii, trim_ascii_end, trimmed, trimmed_end, SPACE, TAB,
};
use crate::lines::{lemma_lines_step, line_at, LineIter, Newlines};
use crate::outline::element::{
    all_wf, outlined, push_element, pushed, section_of, ElementKind, Entry, Kind, OutlineElement,
    Outlined,
};
use crate::sz::{find, find_byte, index_of, lemma_index_of};

verus! {

/// How many bytes of `data` from `from` on are `byte`, before the first that is not.
pub open spec fn byte_run(data: Seq<u8>, byte: u8, from: int) -> int
    decreases data.len() - from,
{
    if from < 0 || from >= data.len() || data[from] != byte {
        0
    } else {
        1 + byte_run(data, byte, from + 1)
    }
}

/// How many bytes of `data` from `from` on are blanks, before the first that is not.
pub open spec fn blank_run(data: Seq<u8>, from: int) -> int
    decreases data.len() - from,
{
    if from < 0 || from >= data.len() || (data[from] != 0x20 && data[from] != 0x09) {
        0
    } else {
        1 + blank_run(data, from + 1)
    }
}

/// `data` without its leading blanks, at most `max` of them.
pub open spec fn unindented(data: Seq<u8>, max: int) -> Seq<u8> {
    let indent = blank_run(data, 0);
    data.subrange(
        if indent < max {
            indent
        } else {
            max
        },
        data.len() as int,
    )
}

/// `data` without the run of `byte` at its end.
pub open spec fn without_tail(data: Seq<u8>, byte: u8) -> Seq<u8>
    decreases data.len(),
{
    if data.len() > 0 && data.last() == byte {
        without_tail(data.drop_last(), byte)
    } else {
        data
    }
}

fn count_run(data: &[u8], byte: u8) -> (count: usize)
    ensures
        count == byte_run(data@, byte, 0),
        count <= data@.len(),
        count > 0 <==> data@.len() > 0 && data@[0] == byte,
{
    let mut count: usize = 0;
    while count < data.len() && data[count] == byte
        invariant
            count <= data@.len(),
            byte_run(data@, byte, 0) == count + byte_run(data@, byte, count as int),
        decreases data@.len() - count,
    {
        count += 1;
    }
    count
}

/// Trim leading spaces and tabs, at most `max_indent` of them — Markdown treats a fourth leading
/// space as indented code rather than as indentation.
pub fn trim_start(data: &[u8], max_indent: usize) -> (rest: &[u8])
    ensures
        rest@ == unindented(data@, max_indent as int),
        rest@.len() <= data@.len(),
{
    let mut indent: usize = 0;
    while indent < data.len() && (data[indent] == SPACE || data[indent] == TAB) && indent
        < max_indent
        invariant
            indent <= data@.len(),
            indent <= max_indent,
            blank_run(data@, 0) == indent + blank_run(data@, indent as int),
        decreases data@.len() - indent,
    {
        indent += 1;
    }
    proof {
        lemma_blank_run(data@, indent as int);
    }
    &data[indent..data.len()]
}

proof fn lemma_blank_run(data: Seq<u8>, from: int)
    requires
        0 <= from <= data.len(),
    ensures
        0 <= blank_run(data, from) <= data.len() - from,
    decreases data.len() - from,
{
    if from < data.len() && (data[from] == 0x20 || data[from] == 0x09) {
        lemma_blank_run(data, from + 1);
    }
}

/// A heading's text: without the ASCII whitespace at its end, without the optional closing run of
/// `#` and the space before it.
pub open spec fn heading_text(data: Seq<u8>) -> Seq<u8> {
    trimmed_end(without_tail(trimmed_end(data), 0x23))
}

/// Remove a heading's optional closing run of `#` characters and the space before it.
pub fn trim_trailing_hashes(data: &[u8]) -> (text: &[u8])
    ensures
        text@ == heading_text(data@),
        text@.len() <= data@.len(),
{
    let text: &[u8] = trim_ascii_end(data);
    let mut end: usize = text.len();
    assert(text@.subrange(0, text@.len() as int) =~= text@);
    while end > 0 && text[end - 1] == 0x23
        invariant
            end <= text@.len(),
            without_tail(text@, 0x23) == without_tail(text@.subrange(0, end as int), 0x23),
        decreases end,
    {
        proof {
            assert(text@.subrange(0, end as int).drop_last() =~= text@.subrange(0, end - 1));
        }
        end -= 1;
    }
    trim_ascii_end(&text[0..end])
}

/// A code fence line: the fence character and its info string.
#[derive(Debug)]
pub struct Fence {
    pub marker: u8,
    pub language: Option<Vec<u8>>,
}

/// The language an info string names, where there is one.
pub open spec fn language_of(language: Option<Vec<u8>>) -> Option<Seq<u8>> {
    match language {
        Some(language) => Some(language@),
        None => None,
    }
}

/// The fence character and the info string of a code fence line: three or more backticks or
/// tildes behind at most three blanks.
pub open spec fn fence_of(line: Seq<u8>) -> Option<(u8, Option<Seq<u8>>)> {
    let text = unindented(line, 3);
    if text.len() == 0 || (text[0] != 0x60 && text[0] != 0x7E) || byte_run(text, text[0], 0) < 3 {
        None
    } else {
        let info = trimmed(text.subrange(byte_run(text, text[0], 0), text.len() as int));
        Some(
            (
                text[0],
                if info.len() == 0 {
                    None
                } else {
                    Some(info)
                },
            ),
        )
    }
}

/// Read a code fence line — three or more backticks or tildes, plus an info string.
pub fn is_code_fence(line: &[u8]) -> (fence: Option<Fence>)
    ensures
        match fence {
            Some(fence) => fence_of(line@) == Some((fence.marker, language_of(fence.language))),
            None => fence_of(line@) is None,
        },
{
    let text: &[u8] = trim_start(line, 3);
    if text.len() == 0 {
        return None;
    }
    let marker: u8 = text[0];
    if marker != 0x60 && marker != 0x7E {
        return None;
    }
    let width: usize = count_run(text, marker);
    if width < 3 {
        return None;
    }
    let info: &[u8] = trim_ascii(&text[width..text.len()]);
    let language = if info.len() == 0 {
        None
    } else {
        Some(vstd::slice::slice_to_vec(info))
    };
    Some(Fence { marker, language })
}

/// The level and the text of an ATX heading: one to six `#`, then a blank or the end of the line.
pub open spec fn heading_of(line: Seq<u8>) -> Option<(int, Seq<u8>)> {
    let level = byte_run(line, 0x23, 0);
    if level == 0 || level > 6 || (line.len() > level && line[level] != 0x20 && line[level]
        != 0x09) {
        None
    } else {
        let start = if level + 1 < line.len() {
            level + 1
        } else {
            line.len() as int
        };
        Some((level, heading_text(trimmed(line.subrange(start, line.len() as int)))))
    }
}

/// Parse a heading from a line (ATX style).
pub fn parse_heading(line: &[u8]) -> (heading: Option<(u8, &[u8])>)
    ensures
        match heading {
            Some((level, text)) => heading_of(line@) == Some((level as int, text@)) && 1 <= level
                <= 6,
            None => heading_of(line@) is None,
        },
{
    let level: usize = count_run(line, 0x23);
    if level == 0 || level > 6 {
        return None;
    }
    // Must be followed by a blank or the end of the line.
    if line.len() > level && line[level] != SPACE && line[level] != TAB {
        return None;
    }
    let start: usize = if level + 1 < line.len() {
        level + 1
    } else {
        line.len()
    };
    let text: &[u8] = trim_trailing_hashes(trim_ascii(&line[start..line.len()]));
    Some((level as u8, text))
}

/// The alternative text of the first image in a line, `![alt](url)`.
pub open spec fn image_of(line: Seq<u8>) -> Option<Seq<u8>> {
    match index_of(line, seq![0x21u8, 0x5Bu8], 0) {
        None => None,
        Some(at) => {
            let after = line.subrange(at + 2, line.len() as int);
            let close = byte_position(after, 0x5D, 0);
            if close < after.len() {
                Some(after.subrange(0, close))
            } else {
                None
            }
        },
    }
}

/// Parse an image from a line, `![alt](url)`, into its alternative text.
pub fn parse_image(line: &[u8]) -> (alt: Option<&[u8]>)
    ensures
        match alt {
            Some(alt) => image_of(line@) == Some(alt@),
            None => image_of(line@) is None,
        },
{
    let opening: [u8; 2] = [0x21, 0x5B];
    let found = find(line, opening.as_slice());
    proof {
        assert(opening@ =~= seq![0x21u8, 0x5Bu8]);
        lemma_index_of(line@, opening@, 0);
    }
    match found {
        None => None,
        Some(at) => {
            assert(at + 2 <= line.len());
            let after: &[u8] = &line[at + 2..line.len()];
            match find_byte(after, 0x5D) {
                Some(close) => Some(&after[0..close]),
                None => None,
            }
        },
    }
}

/// A Markdown block that accumulates consecutive lines of one kind.
#[derive(Clone, Copy, PartialEq, Eq, Structural, Debug)]
pub enum Block {
    Paragraph,
    Blockquote,
    Table,
}

impl Block {
    pub open spec fn as_kind(self) -> Kind {
        match self {
            Block::Paragraph => Kind::Paragraph,
            Block::Blockquote => Kind::Blockquote,
            Block::Table => Kind::Table,
        }
    }

    pub open spec fn as_label(self) -> Seq<u8> {
        match self {
            Block::Paragraph => lit("paragraph"),
            Block::Blockquote => lit("blockquote"),
            Block::Table => lit("table"),
        }
    }

    /// The element kind this block becomes once closed.
    pub fn kind(self) -> (kind: ElementKind)
        ensures
            kind@ == self.as_kind(),
    {
        match self {
            Block::Paragraph => ElementKind::Paragraph,
            Block::Blockquote => ElementKind::Blockquote,
            Block::Table => ElementKind::Table,
        }
    }

    /// The element name this block becomes once closed.
    pub fn label(self) -> (label: &'static str)
        ensures
            vstd::utf8::encode_utf8(label@) == self.as_label(),
    {
        match self {
            Block::Paragraph => "paragraph",
            Block::Blockquote => "blockquote",
            Block::Table => "table",
        }
    }
}

/// Line number and byte offset of one point in the input.
#[derive(Clone, Copy, Debug)]
pub struct Position {
    pub line: usize,
    pub offset: usize,
}

/// The one block currently accumulating lines. At most one is open at a time, so block spans
/// cannot overlap.
#[derive(Clone, Copy, Debug)]
pub struct OpenBlock {
    pub block: Block,
    pub start: Position,
}

/// A fenced code block being scanned: the fence character that closes it, its info string, and
/// where it opened.
#[derive(Debug)]
pub struct OpenCodeBlock {
    pub marker: u8,
    pub language: Option<Vec<u8>>,
    pub start: Position,
}

/// The block currently accumulating lines, and where it started.
pub ghost struct Open {
    pub block: Block,
    pub line: int,
    pub offset: int,
}

/// The code block being scanned, and where it opened.
pub ghost struct OpenCode {
    pub marker: u8,
    pub language: Option<Seq<u8>>,
    pub line: int,
    pub offset: int,
}

/// What a scan has recorded and what it has open after some of the lines.
pub ghost struct Scan {
    pub elements: Seq<Outlined>,
    /// The heading that blocks are recorded under.
    pub section: Option<int>,
    pub code: Option<OpenCode>,
    pub block: Option<Open>,
    /// How many lines have been scanned.
    pub number: int,
}

pub open spec fn open_of(open: Option<OpenBlock>) -> Option<Open> {
    match open {
        Some(open) => Some(
            Open {
                block: open.block,
                line: open.start.line as int,
                offset: open.start.offset as int,
            },
        ),
        None => None,
    }
}

pub open spec fn code_of(open: Option<OpenCodeBlock>) -> Option<OpenCode> {
    match open {
        Some(open) => Some(
            OpenCode {
                marker: open.marker,
                language: language_of(open.language),
                line: open.start.line as int,
                offset: open.start.offset as int,
            },
        ),
        None => None,
    }
}

/// The elements once the open block, if any, is recorded as ending at line `line`, before byte
/// `offset`.
pub open spec fn closed(
    elements: Seq<Outlined>,
    open: Option<Open>,
    section: Option<int>,
    line: int,
    offset: int,
) -> Seq<Outlined> {
    match open {
        None => elements,
        Some(open) => pushed(
            elements,
            section,
            Entry {
                kind: open.block.as_kind(),
                name: open.block.as_label(),
                line_number: open.line,
                byte_offset: open.offset,
                byte_length: if offset > open.offset {
                    offset - open.offset
                } else {
                    0
                },
                line_count: line - open.line + 1,
            },
        ),
    }
}

/// The scan once a line of a block of this kind is read: the open block goes on where it is that
/// kind, and otherwise ends on the line before and a fresh one opens.
pub open spec fn extended(scan: Scan, block: Block, number: int, start: int) -> Scan {
    match scan.block {
        Some(open) if open.block == block => Scan { number, ..scan },
        _ => Scan {
            elements: closed(scan.elements, scan.block, scan.section, number - 1, start),
            block: Some(Open { block, line: number, offset: start }),
            number,
            ..scan
        },
    }
}

/// The scan once the line at byte `start` is read.
pub open spec fn scanned(scan: Scan, line: Seq<u8>, start: int) -> Scan {
    let number = scan.number + 1;
    // A block interrupted by this line ends on the previous line, at this line's byte.
    let interrupted = closed(scan.elements, scan.block, scan.section, number - 1, start);
    match (fence_of(line), scan.code) {
        // The same fence character closes what it opened, and a different one is content.
        (Some((marker, language)), Some(code)) => if code.marker == marker {
            Scan {
                elements: pushed(
                    scan.elements,
                    scan.section,
                    Entry {
                        kind: Kind::CodeBlock { language: code.language },
                        name: lit("code"),
                        line_number: code.line,
                        byte_offset: code.offset,
                        byte_length: start + line.len() - code.offset,
                        line_count: number - code.line + 1,
                    },
                ),
                code: None,
                number,
                ..scan
            }
        } else {
            Scan { number, ..scan }
        },
        (Some((marker, language)), None) => Scan {
            elements: interrupted,
            block: None,
            code: Some(OpenCode { marker, language, line: number, offset: start }),
            number,
            ..scan
        },
        (None, Some(code)) => Scan { number, ..scan },
        (None, None) => {
            let text = unindented(line, 3);
            match (heading_of(text), image_of(line)) {
                (Some((level, name)), _) => Scan {
                    elements: interrupted.push(
                        Outlined {
                            head: Entry {
                                kind: Kind::Heading { level },
                                name,
                                line_number: number,
                                byte_offset: start,
                                byte_length: line.len() as int,
                                line_count: 1,
                            },
                            children: Seq::empty(),
                        },
                    ),
                    section: Some(interrupted.len() as int),
                    block: None,
                    number,
                    ..scan
                },
                (None, Some(alt)) => Scan {
                    elements: pushed(
                        interrupted,
                        scan.section,
                        Entry {
                            kind: Kind::Image { alt },
                            name: alt,
                            line_number: number,
                            byte_offset: start,
                            byte_length: line.len() as int,
                            line_count: 1,
                        },
                    ),
                    block: None,
                    number,
                    ..scan
                },
                (None, None) => if text.len() == 0 {
                    Scan { elements: interrupted, block: None, number, ..scan }
                } else if text[0] == 0x3E {
                    extended(scan, Block::Blockquote, number, start)
                } else if byte_position(text, 0x7C, 0) < text.len() {
                    extended(scan, Block::Table, number, start)
                } else {
                    extended(scan, Block::Paragraph, number, start)
                },
            }
        },
    }
}

/// The scan once every line from byte `at` on is read.
pub open spec fn scanned_from(data: Seq<u8>, newlines: Newlines, at: int, scan: Scan) -> Scan
    decreases data.len() - at,
{
    if at < 0 || at >= data.len() {
        scan
    } else {
        let line = line_at(data, at, newlines);
        proof {
            lemma_lines_step(data, at, newlines);
        }
        if line.end <= at {
            scan
        } else {
            scanned_from(data, newlines, line.end, scanned(scan, line.as_cut(data), at))
        }
    }
}

/// A scan before its first line.
pub open spec fn fresh_scan() -> Scan {
    Scan { elements: Seq::empty(), section: None, code: None, block: None, number: 0 }
}

/// The outline of a Markdown text. A block still open at the end ends there, whether or not the
/// text ends with a newline.
pub open spec fn markdown_outline(data: Seq<u8>, newlines: Newlines) -> Seq<Outlined> {
    let scan = scanned_from(data, newlines, 0, fresh_scan());
    closed(scan.elements, scan.block, scan.section, scan.number, data.len() as int)
}

/// Close the open block, if any, recording it as ending at `end`.
pub fn close_block(
    elements: &mut Vec<OutlineElement>,
    open: &mut Option<OpenBlock>,
    section: Option<usize>,
    end: Position,
)
    requires
        section matches Some(index) ==> index < old(elements)@.len(),
        all_wf(old(elements)@),
        *old(open) matches Some(open) ==> 1 <= open.start.line <= end.line,
    ensures
        outlined(final(elements)@) == closed(
            outlined(old(elements)@),
            open_of(*old(open)),
            section_of(section),
            end.line as int,
            end.offset as int,
        ),
        *final(open) is None,
        all_wf(final(elements)@),
        final(elements)@.len() >= old(elements)@.len(),
{
    let taken = open.take();
    if let Some(OpenBlock { block, start }) = taken {
        let mut name: Vec<u8> = Vec::new();
        put_str(&mut name, block.label());
        assert(name@ =~= block.as_label());
        let length: usize = if end.offset > start.offset {
            end.offset - start.offset
        } else {
            0
        };
        let element = OutlineElement::new(block.kind(), name, start.line, start.offset).with_length(
            length,
            end.line - start.line + 1,
        );
        push_element(elements, section, element);
    }
}

/// Keep accumulating into the open block when it is already `block`, otherwise close it — ending
/// on the previous line — and open a fresh one at `start`.
pub fn open_or_extend(
    elements: &mut Vec<OutlineElement>,
    open: &mut Option<OpenBlock>,
    section: Option<usize>,
    block: Block,
    start: Position,
)
    requires
        section matches Some(index) ==> index < old(elements)@.len(),
        all_wf(old(elements)@),
        1 <= start.line,
        *old(open) matches Some(open) ==> 1 <= open.start.line < start.line,
    ensures
        ({
            let goes_on = *old(open) matches Some(open) && open.block == block;
            &&& goes_on ==> final(elements)@ == old(elements)@ && *final(open) == *old(open)
            &&& !goes_on ==> outlined(final(elements)@) == closed(
                outlined(old(elements)@),
                open_of(*old(open)),
                section_of(section),
                start.line - 1,
                start.offset as int,
            ) && *final(open) == Some(OpenBlock { block, start })
        }),
        all_wf(final(elements)@),
        final(elements)@.len() >= old(elements)@.len(),
{
    let goes_on = match open {
        Some(current) => current.block == block,
        None => false,
    };
    if goes_on {
        return;
    }
    let interrupted = Position { line: start.line - 1, offset: start.offset };
    close_block(elements, open, section, interrupted);
    *open = Some(OpenBlock { block, start });
}

/// Parse a Markdown text and extract its outline elements.
pub fn parse_markdown(data: &[u8], newlines: Newlines) -> (elements: Vec<OutlineElement>)
    ensures
        outlined(elements@) == markdown_outline(data@, newlines),
        all_wf(elements@),
{
    let mut elements: Vec<OutlineElement> = Vec::new();
    let mut line_number: usize = 0;
    let mut current_section: Option<usize> = None;
    let mut open_code_block: Option<OpenCodeBlock> = None;
    let mut open_block: Option<OpenBlock> = None;
    let mut iter = LineIter::new(data, newlines);
    assert(outlined(elements@) =~= Seq::empty());
    loop
        invariant
            iter.wf(),
            iter.input() == data@,
            iter.newlines() == newlines,
            line_number <= iter.at() <= data@.len(),
            all_wf(elements@),
            current_section matches Some(index) ==> index < elements@.len(),
            open_block matches Some(open) ==> 1 <= open.start.line <= line_number,
            open_code_block matches Some(open) ==> 1 <= open.start.line <= line_number
                && open.start.offset <= iter.at(),
            scanned_from(data@, newlines, 0, fresh_scan()) == scanned_from(
                data@,
                newlines,
                iter.at(),
                Scan {
                    elements: outlined(elements@),
                    section: section_of(current_section),
                    code: code_of(open_code_block),
                    block: open_of(open_block),
                    number: line_number as int,
                },
            ),
        ensures
            iter.at() == data@.len(),
        decreases data@.len() - iter.at(),
    {
        let ghost before = Scan {
            elements: outlined(elements@),
            section: section_of(current_section),
            code: code_of(open_code_block),
            block: open_of(open_block),
            number: line_number as int,
        };
        let ghost at = iter.at();
        let cut = match iter.next_cut() {
            Some(cut) => cut,
            None => {
                break;
            },
        };
        let line: &[u8] = &data[cut.start..cut.cut];
        line_number += 1;
        let start = Position { line: line_number, offset: cut.start };
        // A block interrupted by this line ends on the previous line, at this line's byte.
        let interrupted = Position { line: line_number - 1, offset: cut.start };
        let ghost after = scanned(before, line@, at);
        proof {
            lemma_lines_step(data@, at, newlines);
            assert(line@ == line_at(data@, at, newlines).as_cut(data@));
        }
        if let Some(fence) = is_code_fence(line) {
            // The same fence character closes what it opened, and a different one inside the
            // block is content.
            let closes = match &open_code_block {
                Some(open) => open.marker == fence.marker,
                None => false,
            };
            if closes {
                if let Some(closing) = open_code_block.take() {
                    let mut name: Vec<u8> = Vec::new();
                    put_str(&mut name, "code");
                    assert(name@ =~= lit("code"));
                    let element = OutlineElement::new(
                        ElementKind::CodeBlock { language: closing.language },
                        name,
                        closing.start.line,
                        closing.start.offset,
                    ).with_length(
                        cut.cut - closing.start.offset,
                        line_number - closing.start.line + 1,
                    );
                    push_element(&mut elements, current_section, element);
                }
            } else if open_code_block.is_none() {
                close_block(&mut elements, &mut open_block, current_section, interrupted);
                open_code_block = Some(
                    OpenCodeBlock { marker: fence.marker, language: fence.language, start },
                );
            }
        } else if open_code_block.is_some() {
        } else {
            let text: &[u8] = trim_start(line, 3);
            if let Some((level, name)) = parse_heading(text) {
                close_block(&mut elements, &mut open_block, current_section, interrupted);
                let element = OutlineElement::new(
                    ElementKind::Heading { level },
                    vstd::slice::slice_to_vec(name),
                    line_number,
                    cut.start,
                ).with_length(line.len(), 1);
                let ghost recorded = outlined(elements@);
                let index: usize = elements.len();
                proof {
                    assert(element.children@.map_values(|child: OutlineElement| child.entry())
                        =~= Seq::empty());
                }
                elements.push(element);
                proof {
                    assert(outlined(elements@) =~= recorded.push(element@));
                }
                current_section = Some(index);
            } else if let Some(alt) = parse_image(line) {
                close_block(&mut elements, &mut open_block, current_section, interrupted);
                let element = OutlineElement::new(
                    ElementKind::Image { alt: vstd::slice::slice_to_vec(alt) },
                    vstd::slice::slice_to_vec(alt),
                    line_number,
                    cut.start,
                ).with_length(line.len(), 1);
                push_element(&mut elements, current_section, element);
            } else if text.len() > 0 && text[0] == 0x3E {
                open_or_extend(
                    &mut elements,
                    &mut open_block,
                    current_section,
                    Block::Blockquote,
                    start,
                );
            } else if text.len() > 0 && find_byte(text, 0x7C).is_some() {
                open_or_extend(
                    &mut elements,
                    &mut open_block,
                    current_section,
                    Block::Table,
                    start,
                );
            } else if text.len() == 0 {
                // A blank line ends the open block.
                close_block(&mut elements, &mut open_block, current_section, interrupted);
            } else {
                // Anything else is paragraph text.
                open_or_extend(
                    &mut elements,
                    &mut open_block,
                    current_section,
                    Block::Paragraph,
                    start,
                );
            }
        }
        assert(after == (Scan {
            elements: outlined(elements@),
            section: section_of(current_section),
            code: code_of(open_code_block),
            block: open_of(open_block),
            number: line_number as int,
        }));
    }
    // A block still open at the end of the input ends there, whether or not it ends with a
    // newline.
    let end_of_input = Position { line: line_number, offset: data.len() };
    close_block(&mut elements, &mut open_block, current_section, end_of_input);
    elements
}

} // verus!
