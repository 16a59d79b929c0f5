//! How single lines are read: what makes a heading, a fence, a directive or a comment.

use vstd::prelude::*;

use crate::bytes::{
    ascii_space, byte_position, lemma_ascii_bytes, lemma_byte_position, lit, trimmed, trimmed_end,
    trimmed_start,
};
use crate::sz::{index_of, lemma_index_of, occurs_at};

use super::c_source::{
    c_scanned, control_flow, effective, ends_with_word, function_line, holds, identifier_tail,
    inclusion, last_identifier, CScan, FunctionLine,
};
use super::element::{pushed, Entry, Kind, Outlined};
use super::markdown::{
    blank_run, byte_run, extended, fence_of, heading_of, image_of, scanned, unindented,
    without_tail, Block, Scan,
};
use super::render::{selected, Detail};

verus! {

/// Whether the first `count` bytes of a line are all `byte`.
pub open spec fn led_by(line: Seq<u8>, byte: u8, count: int) -> bool {
    &&& 0 <= count <= line.len()
    &&& forall|at: int| 0 <= at < count ==> #[trigger] line[at] == byte
}

proof fn lemma_byte_run(line: Seq<u8>, byte: u8, from: int)
    requires
        0 <= from <= line.len(),
    ensures
        0 <= byte_run(line, byte, from) <= line.len() - from,
        forall|at: int|
            from <= at < from + byte_run(line, byte, from) ==> #[trigger] line[at] == byte,
        from + byte_run(line, byte, from) < line.len() ==> line[from + byte_run(line, byte, from)]
            != byte,
    decreases line.len() - from,
{
    if from < line.len() && line[from] == byte {
        lemma_byte_run(line, byte, from + 1);
    }
}

/// A line is a heading exactly where it begins with one to six `#` and then a space, a tab or its end,
/// and its level is how many there are.
pub proof fn hashes_make_a_heading(line: Seq<u8>, level: int)
    ensures
        (heading_of(line) matches Some((found, text)) && found == level) <==> 1 <= level <= 6
            && led_by(line, '#' as u8, level) && (line.len() == level || line[level] == ' ' as u8
            || line[level] == '\t' as u8),
        heading_of(line) matches Some((found, text)) ==> 1 <= found <= 6,
{
    lemma_byte_run(line, 0x23, 0);
    let run = byte_run(line, 0x23, 0);
    if 1 <= level <= 6 && led_by(line, '#' as u8, level) && (line.len() == level || line[level]
        == ' ' as u8 || line[level] == '\t' as u8) {
        if run < level {
            assert(line[run] == '#' as u8);
        }
        if run > level {
            assert(line[level] == 0x23);
        }
    }
}

proof fn lemma_untrimmed(text: Seq<u8>)
    requires
        text.len() > 0,
        !ascii_space(text[0]),
        !ascii_space(text.last()),
    ensures
        trimmed(text) == text,
        trimmed_start(text) == text,
        trimmed_end(text) == text,
{
}

/// A heading's text is what stands behind its `#` and one blank, without the whitespace around it.
pub proof fn a_heading_keeps_its_text(level: int, text: Seq<u8>)
    requires
        1 <= level <= 6,
        text.len() > 0,
        !ascii_space(text[0]),
        !ascii_space(text.last()),
        text.last() != '#' as u8,
    ensures
        heading_of(Seq::new(level as nat, |i: int| '#' as u8).push(' ' as u8) + text) == Some(
            (level, text),
        ),
{
    let line = Seq::new(level as nat, |i: int| '#' as u8).push(' ' as u8) + text;
    hashes_make_a_heading(line, level);
    assert(led_by(line, '#' as u8, level));
    assert(line[level] == ' ' as u8);
    assert(line.subrange(level + 1, line.len() as int) =~= text);
    lemma_untrimmed(text);
    assert(without_tail(text, 0x23) == text);
    lemma_byte_run(line, 0x23, 0);
}

proof fn lemma_blank_run(line: Seq<u8>, from: int)
    requires
        0 <= from <= line.len(),
    ensures
        0 <= blank_run(line, from) <= line.len() - from,
        forall|at: int|
            from <= at < from + blank_run(line, from) ==> #[trigger] line[at] == 0x20 || line[at]
                == 0x09,
        from + blank_run(line, from) < line.len() ==> line[from + blank_run(line, from)] != 0x20
            && line[from + blank_run(line, from)] != 0x09,
    decreases line.len() - from,
{
    if from < line.len() && (line[from] == 0x20 || line[from] == 0x09) {
        lemma_blank_run(line, from + 1);
    }
}

/// Whether `marker` stands three times or more behind `indent` blanks, of which there are at most three
/// and, where fewer, no more.
pub open spec fn fenced_by(line: Seq<u8>, marker: u8, indent: int) -> bool {
    &&& 0 <= indent <= 3
    &&& indent + 3 <= line.len()
    &&& forall|at: int| 0 <= at < indent ==> #[trigger] line[at] == ' ' as u8 || line[at]
        == '\t' as u8
    &&& forall|at: int| indent <= at < indent + 3 ==> #[trigger] line[at] == marker
}

/// A line is a fence exactly where three or more backticks, or three or more tildes, stand behind at
/// most three blanks.
pub proof fn three_marks_make_a_fence(line: Seq<u8>)
    ensures
        fence_of(line) matches Some((marker, info)) ==> (marker == '`' as u8 || marker
            == '~' as u8) && exists|indent: int| #[trigger] fenced_by(line, marker, indent),
        fence_of(line) is None ==> forall|indent: int|
            !#[trigger] fenced_by(line, '`' as u8, indent) && !fenced_by(line, '~' as u8, indent),
{
    lemma_blank_run(line, 0);
    let run = blank_run(line, 0);
    let skip = if run < 3 {
        run
    } else {
        3
    };
    let text = unindented(line, 3);
    assert(text == line.subrange(skip, line.len() as int));
    if text.len() > 0 {
        lemma_byte_run(text, text[0], 0);
        let count = byte_run(text, text[0], 0);
        if fence_of(line) is Some {
            let marker = text[0];
            assert forall|at: int| skip <= at < skip + 3 implies #[trigger] line[at] == marker by {
                assert(text[at - skip] == marker);
            }
            assert(fenced_by(line, marker, skip));
        }
    }
    if fence_of(line) is None {
        assert forall|indent: int|
            !#[trigger] fenced_by(line, '`' as u8, indent) && !fenced_by(
                line,
                '~' as u8,
                indent,
            ) by {
            if fenced_by(line, '`' as u8, indent) || fenced_by(line, '~' as u8, indent) {
                let mark = line[indent];
                assert(mark == '`' as u8 || mark == '~' as u8);
                if run < indent {
                    assert(line[run] == 0x20 || line[run] == 0x09);
                }
                if indent < run {
                    assert(line[indent] == 0x20 || line[indent] == 0x09);
                }
                assert(skip == indent);
                assert(text[0] == mark);
                lemma_byte_run(text, text[0], 0);
                let count = byte_run(text, text[0], 0);
                if count < 3 {
                    assert(text[count] == line[indent + count]);
                }
            }
        }
    }
}

/// Inside a code block nothing is outlined: until a fence of the mark that opened it, every line
/// belongs to it.
pub proof fn nothing_inside_a_code_block_is_outlined(scan: Scan, line: Seq<u8>, start: int)
    requires
        scan.code is Some,
        forall|indent: int| !#[trigger] fenced_by(line, scan.code->0.marker, indent),
    ensures
        scanned(scan, line, start) == (Scan { number: scan.number + 1, ..scan }),
{
    three_marks_make_a_fence(line);
}

/// Outside code blocks a line that is no fence, no heading and holds no image is blank where nothing
/// stands behind its first three blanks, a blockquote where a `>` does, a table where a `|` stands in
/// it, and otherwise a paragraph; it goes on with the block it is in where that is of its kind.
pub proof fn a_plain_line_is_read_by_its_marks(scan: Scan, line: Seq<u8>, start: int)
    requires
        scan.code is None,
        fence_of(line) is None,
        heading_of(unindented(line, 3)) is None,
        image_of(line) is None,
    ensures
        ({
            let text = unindented(line, 3);
            let after = scanned(scan, line, start);
            let kind = if text[0] == '>' as u8 {
                Block::Blockquote
            } else if text.contains('|' as u8) {
                Block::Table
            } else {
                Block::Paragraph
            };
            &&& after.code is None
            &&& after.section == scan.section
            &&& text.len() == 0 ==> after.block is None
            &&& text.len() > 0 ==> after.block is Some && after.block->0.block == kind && if scan.block
                is Some && scan.block->0.block == kind {
                after.block == scan.block && after.elements == scan.elements
            } else {
                after.block->0.line == scan.number + 1 && after.block->0.offset == start
            }
        }),
{
    let text = unindented(line, 3);
    lemma_byte_position(text, 0x7C, 0);
    if text.contains('|' as u8) {
        let i = choose|i: int| 0 <= i < text.len() && text[i] == '|' as u8;
        assert(text[i] == 0x7C);
    }
    if byte_position(text, 0x7C, 0) < text.len() {
        assert(text.contains(text[byte_position(text, 0x7C, 0)]));
    }
}

/// Behind two slashes the rest of a line is no code.
pub proof fn two_slashes_end_the_code(code: Seq<u8>, comment: Seq<u8>)
    requires
        forall|at: int|
            0 <= at < code.len() ==> !(#[trigger] code[at] == '/' as u8 && (at + 1 == code.len()
                || code[at + 1] == '/' as u8)),
    ensures
        effective(code + seq!['/' as u8, '/' as u8] + comment) == code,
        effective(code) == code,
{
    let slashes = seq![0x2Fu8, 0x2Fu8];
    let line = code + seq!['/' as u8, '/' as u8] + comment;
    lemma_index_of(line, slashes, 0);
    lemma_index_of(code, slashes, 0);
    let at = code.len() as int;
    assert(line.subrange(at, at + 2) =~= slashes);
    assert(occurs_at(line, slashes, at));
    match index_of(line, slashes, 0) {
        Some(found) => {
            if found < at {
                let here = line.subrange(found, found + 2);
                assert(here[0] == line[found] && here[1] == line[found + 1]);
                assert(code[found] == 0x2F);
                if found + 1 < at {
                    assert(line[found + 1] == code[found + 1]);
                }
            }
            assert(line.subrange(0, at) =~= code);
        },
        None => {},
    }
    match index_of(code, slashes, 0) {
        Some(found) => {
            let here = code.subrange(found, found + 2);
            assert(here[0] == code[found] && here[1] == code[found + 1]);
            assert(code[found] == 0x2F);
        },
        None => {},
    }
}

/// Whether these two bytes stand next to each other in a line.
pub open spec fn pair_in(line: Seq<u8>, first: u8, second: u8) -> bool {
    exists|at: int|
        #![trigger line[at]]
        0 <= at < line.len() - 1 && line[at] == first && line[at + 1] == second
}

proof fn lemma_holds_pair(line: Seq<u8>, first: u8, second: u8)
    ensures
        holds(line, seq![first, second]) == pair_in(line, first, second),
{
    let pair = seq![first, second];
    lemma_index_of(line, pair, 0);
    match index_of(line, pair, 0) {
        Some(at) => {
            let here = line.subrange(at, at + 2);
            assert(here[0] == line[at] && here[1] == line[at + 1]);
        },
        None => {
            if pair_in(line, first, second) {
                let at = choose|at: int|
                    #![trigger line[at]]
                    0 <= at < line.len() - 1 && line[at] == first && line[at + 1] == second;
                assert(line.subrange(at, at + 2) =~= pair);
                assert(occurs_at(line, pair, at));
            }
        },
    }
}

/// A comment that opens on a line and does not close on it reaches to the first line with its end:
/// nothing of those lines is read.
pub proof fn nothing_inside_a_comment_is_read(scan: CScan, line: Seq<u8>, start: int)
    ensures
        scan.in_comment ==> c_scanned(scan, line, start) == (CScan {
            in_comment: !pair_in(line, '*' as u8, '/' as u8),
            number: scan.number + 1,
            ..scan
        }),
        !scan.in_comment && pair_in(line, '/' as u8, '*' as u8) && !pair_in(
            line,
            '*' as u8,
            '/' as u8,
        ) ==> c_scanned(scan, line, start) == (CScan {
            in_comment: true,
            number: scan.number + 1,
            ..scan
        }),
        !scan.in_comment && !(pair_in(line, '/' as u8, '*' as u8) && !pair_in(
            line,
            '*' as u8,
            '/' as u8,
        )) ==> !c_scanned(scan, line, start).in_comment,
{
    lemma_holds_pair(line, 0x2F, 0x2A);
    lemma_holds_pair(line, 0x2A, 0x2F);
}

/// An inclusion names what stands between its brackets, a system header, or between its quotes, a
/// header of the project.
pub proof fn an_inclusion_names_its_path(path: Seq<u8>, behind: Seq<u8>)
    ensures
        !path.contains('>' as u8) ==> inclusion(
            lit("#include") + seq![' ' as u8, '<' as u8] + path + seq!['>' as u8] + behind,
        ) == Some((path, true)),
        !path.contains('"' as u8) ==> inclusion(
            lit("#include") + seq![' ' as u8, '"' as u8] + path + seq!['"' as u8] + behind,
        ) == Some((path, false)),
{
    lemma_inclusion(path, behind, '<' as u8, '>' as u8);
    lemma_inclusion(path, behind, '"' as u8, '"' as u8);
}

proof fn lemma_inclusion(path: Seq<u8>, behind: Seq<u8>, opening: u8, closing: u8)
    requires
        opening == 0x3C && closing == 0x3E || opening == 0x22 && closing == 0x22,
    ensures
        !path.contains(closing) ==> inclusion(
            lit("#include") + seq![' ' as u8, opening] + path + seq![closing] + behind,
        ) == Some((path, opening == 0x3C)),
{
    let keyword = lit("#include");
    let line = keyword + seq![' ' as u8, opening] + path + seq![closing] + behind;
    let tail = seq![opening] + path + seq![closing] + behind;
    assert(line.subrange(0, keyword.len() as int) =~= keyword);
    let rest = line.subrange(keyword.len() as int, line.len() as int);
    assert(rest =~= seq![' ' as u8] + tail);
    reveal_with_fuel(trimmed_start, 3);
    assert(rest.subrange(1, rest.len() as int) =~= tail);
    assert(trimmed_start(rest) == tail);
    let text = tail.subrange(1, tail.len() as int);
    assert(text =~= path + seq![closing] + behind);
    lemma_byte_position(text, closing, 0);
    let end = byte_position(text, closing, 0);
    assert(text[path.len() as int] == closing);
    if !path.contains(closing) {
        if end < path.len() {
            assert(path.contains(text[end]));
        }
        assert(text.subrange(0, end) =~= path);
    }
}

proof fn lemma_trimmed_front(front: Seq<u8>, word: Seq<u8>)
    requires
        word.len() > 0,
        !ascii_space(word[0]),
        !ascii_space(word.last()),
    ensures
        trimmed(front + word) == trimmed_start(front) + word,
    decreases front.len(),
{
    if front.len() > 0 && ascii_space(front[0]) {
        let rest = front.subrange(1, front.len() as int);
        assert((front + word).subrange(1, (front + word).len() as int) =~= rest + word);
        lemma_trimmed_front(rest, word);
    } else {
        assert((front + word).last() == word.last());
        if front.len() == 0 {
            assert(front + word =~= word);
        }
    }
}

proof fn lemma_start_tail(front: Seq<u8>)
    ensures
        trimmed_start(front).len() <= front.len(),
        trimmed_start(front).len() > 0 ==> front.len() > 0 && trimmed_start(front).last()
            == front.last(),
    decreases front.len(),
{
    if front.len() > 0 && ascii_space(front[0]) {
        lemma_start_tail(front.subrange(1, front.len() as int));
    }
}

/// Whether these bytes are a keyword of C in front of whose parenthesis no function's name stands.
pub open spec fn statement_keyword(word: Seq<u8>) -> bool {
    ||| word == lit("if")
    ||| word == lit("while")
    ||| word == lit("for")
    ||| word == lit("switch")
    ||| word == lit("catch")
    ||| word == lit("return")
}

/// A statement is no function: where a keyword of one stands as a word in front of the first
/// parenthesis of a line, the line is none.
pub proof fn a_statement_is_no_function(front: Seq<u8>, word: Seq<u8>, behind: Seq<u8>)
    requires
        statement_keyword(word),
        word.len() > 0,
        !ascii_space(word[0]),
        !ascii_space(word.last()),
        !front.contains('(' as u8),
        !word.contains('(' as u8),
        front.len() > 0 ==> !('a' as u8 <= front.last() <= 'z' as u8 || 'A' as u8 <= front.last()
            <= 'Z' as u8 || '0' as u8 <= front.last() <= '9' as u8 || front.last() == '_' as u8),
    ensures
        function_line(front + word + seq!['(' as u8] + behind) is None,
{
    let line = front + word + seq!['(' as u8] + behind;
    let open = (front + word).len() as int;
    lemma_byte_position(line, 0x28, 0);
    let found = byte_position(line, 0x28, 0);
    assert(line[open] == 0x28);
    if found < front.len() {
        assert(front.contains(line[found]));
    } else if found < open {
        assert(word.contains(line[found]));
    }
    assert(found == open);
    let before = line.subrange(0, open);
    assert(before =~= front + word);
    lemma_trimmed_front(front, word);
    lemma_start_tail(front);
    let text = trimmed(before);
    let start = text.len() - word.len();
    assert(text.subrange(start, text.len() as int) =~= word);
    if start > 0 {
        assert(text[start - 1] == trimmed_start(front).last());
    }
    assert(ends_with_word(before, word));
    assert(control_flow(before));
}

/// A line that is a function is a declaration where a semicolon stands behind its parameters, a
/// definition where none does and a brace opens, and otherwise goes on on the next line.
pub proof fn a_function_is_told_by_what_follows(front: Seq<u8>, behind: Seq<u8>)
    requires
        front.len() > 0,
        front.last() == ')' as u8,
        front.contains('(' as u8),
        !front.drop_last().contains(')' as u8),
        function_line(front + behind) is Some,
    ensures
        match function_line(front + behind)->0 {
            FunctionLine::Declaration(_) => behind.contains(';' as u8),
            FunctionLine::Definition(_) => !behind.contains(';' as u8) && (front
                + behind).contains('{' as u8),
            FunctionLine::Incomplete(kept) => kept == front + behind && !behind.contains(';' as u8)
                && !(front + behind).contains('{' as u8),
        },
{
    let line = front + behind;
    lemma_byte_position(line, 0x28, 0);
    let open = byte_position(line, 0x28, 0);
    let rest = line.subrange(open, line.len() as int);
    lemma_byte_position(rest, 0x29, 0);
    lemma_byte_position(line, 0x7B, 0);
    if line.contains('{' as u8) {
        let i = choose|i: int| 0 <= i < line.len() && line[i] == '{' as u8;
        assert(line[i] == 0x7B);
    }
    if byte_position(line, 0x7B, 0) < line.len() {
        assert(line.contains(line[byte_position(line, 0x7B, 0)]));
    }
    let size = front.len() as int;
    if open < size {
        assert(line[open] == front[open]);
        assert(front.contains(front[open]));
        let close = byte_position(rest, 0x29, 0);
        assert(rest[size - 1 - open] == 0x29);
        if close < size - 1 - open {
            assert(rest[close] == front.drop_last()[open + close]);
            assert(front.drop_last().contains(front.drop_last()[open + close]));
        }
        assert(open + close + 1 == size);
        let after = line.subrange(size, line.len() as int);
        assert(after =~= behind);
        lemma_byte_position(after, 0x3B, 0);
        if behind.contains(';' as u8) {
            let i = choose|i: int| 0 <= i < behind.len() && behind[i] == ';' as u8;
            assert(after[i] == 0x3B);
        }
        if byte_position(after, 0x3B, 0) < after.len() {
            assert(behind.contains(after[byte_position(after, 0x3B, 0)]));
        }
    } else {
        let i = choose|i: int| 0 <= i < front.len() && front[i] == '(' as u8;
        assert(line[i] == 0x28);
    }
}

/// Below the finest detail the headings, the inclusions and the functions are printed and no blocks
/// are; at the finest everything is.
pub proof fn only_structure_is_printed_below_blocks(kind: Kind, detail: Detail)
    ensures
        detail == Detail::Blocks ==> selected(kind, detail),
        detail != Detail::Blocks ==> (selected(kind, detail) <==> !(kind is CodeBlock
            || kind is Blockquote || kind is Table || kind is Image || kind is Paragraph)),
{
}

/// What is recorded in a section goes behind the blocks that the section has, and moves nothing else;
/// in front of the first section it stands by itself.
pub proof fn a_block_goes_under_its_section(elements: Seq<Outlined>, section: int, entry: Entry)
    requires
        0 <= section < elements.len(),
    ensures
        ({
            let under = pushed(elements, Some(section), entry);
            &&& under.len() == elements.len()
            &&& under[section].head == elements[section].head
            &&& under[section].children == elements[section].children.push(entry)
            &&& forall|i: int|
                0 <= i < elements.len() && i != section ==> #[trigger] under[i] == elements[i]
        }),
        ({
            let alone = pushed(elements, None, entry);
            &&& alone.len() == elements.len() + 1
            &&& alone.last().head == entry
            &&& alone.last().children.len() == 0
            &&& alone.drop_last() == elements
        }),
{
    assert(pushed(elements, None, entry).drop_last() =~= elements);
}

/// Lines of one kind in a row are one block; a line of another kind ends it on the line before and in
/// front of its own bytes, and begins the next.
pub proof fn a_block_ends_where_another_begins(scan: Scan, block: Block, number: int, start: int)
    ensures
        ({
            let next = extended(scan, block, number, start);
            let goes_on = scan.block is Some && scan.block->0.block == block;
            &&& next.number == number
            &&& goes_on ==> next.elements == scan.elements && next.block == scan.block
            &&& !goes_on ==> next.block is Some && next.block->0.block == block
                && next.block->0.line == number && next.block->0.offset == start
            &&& scan.block is None ==> next.elements == scan.elements
            &&& !goes_on && scan.block is Some && scan.section is None ==> next.elements.len()
                == scan.elements.len() + 1 && next.elements.last().head.line_number
                == scan.block->0.line && next.elements.last().head.line_number
                + next.elements.last().head.line_count == number
                && next.elements.last().head.byte_offset == scan.block->0.offset && (start
                >= scan.block->0.offset ==> next.elements.last().head.byte_offset
                + next.elements.last().head.byte_length == start)
        }),
{
}

/// Whether a byte may stand in an identifier of C.
pub open spec fn names_with(byte: u8) -> bool {
    'a' as u8 <= byte <= 'z' as u8 || 'A' as u8 <= byte <= 'Z' as u8 || '0' as u8 <= byte
        <= '9' as u8 || byte == '_' as u8
}

/// Whether a byte is blank: a space, a tab, a line feed, a form feed or a carriage return.
pub open spec fn leaves_blank(byte: u8) -> bool {
    byte == ' ' as u8 || byte == '\t' as u8 || byte == '\n' as u8 || byte == 0x0C || byte
        == '\r' as u8
}

proof fn lemma_gap(text: Seq<u8>, gap: Seq<u8>)
    requires
        text.len() > 0,
        !ascii_space(text.last()),
        forall|i: int| 0 <= i < gap.len() ==> leaves_blank(#[trigger] gap[i]),
    ensures
        trimmed_end(text + gap) == text,
    decreases gap.len(),
{
    let whole = text + gap;
    if gap.len() > 0 {
        let less = gap.drop_last();
        assert forall|i: int| 0 <= i < less.len() implies leaves_blank(#[trigger] less[i]) by {
            assert(less[i] == gap[i]);
        }
        lemma_gap(text, less);
        assert(gap[gap.len() - 1] == whole.last());
        assert(whole.drop_last() =~= text + less);
    } else {
        assert(whole =~= text);
    }
}

proof fn lemma_front(front: Seq<u8>, rest: Seq<u8>)
    requires
        rest.len() > 0,
        !ascii_space(rest[0]),
    ensures
        trimmed_start(front + rest) == trimmed_start(front) + rest,
    decreases front.len(),
{
    let whole = front + rest;
    if front.len() > 0 && ascii_space(front[0]) {
        lemma_front(front.subrange(1, front.len() as int), rest);
        assert(whole[0] == front[0]);
        assert(whole.subrange(1, whole.len() as int) =~= front.subrange(1, front.len() as int)
            + rest);
    } else {
        if front.len() > 0 {
            assert(whole[0] == front[0]);
        } else {
            assert(whole =~= rest);
        }
    }
}

proof fn lemma_tail(front: Seq<u8>, name: Seq<u8>)
    requires
        forall|i: int| 0 <= i < name.len() ==> names_with(#[trigger] name[i]),
        front.len() > 0 ==> !names_with(front.last()),
    ensures
        identifier_tail(front + name) == name.len(),
    decreases name.len(),
{
    let whole = front + name;
    if name.len() > 0 {
        let less = name.drop_last();
        assert forall|i: int| 0 <= i < less.len() implies names_with(#[trigger] less[i]) by {
            assert(less[i] == name[i]);
        }
        lemma_tail(front, less);
        assert(whole.drop_last() =~= front + less);
        assert(whole.last() == name[name.len() - 1]);
    } else {
        assert(whole =~= front);
    }
}

proof fn lemma_word(front: Seq<u8>, name: Seq<u8>, before: Seq<u8>, word: Seq<u8>)
    requires
        name.len() > 0,
        word.len() > 0,
        trimmed(before) == front + name,
        forall|i: int| 0 <= i < name.len() ==> names_with(#[trigger] name[i]),
        forall|i: int| 0 <= i < word.len() ==> names_with(#[trigger] word[i]),
        front.len() > 0 ==> !names_with(front.last()),
    ensures
        ends_with_word(before, word) <==> name == word,
{
    let text = front + name;
    let start = text.len() - word.len();
    if name == word {
        assert(text.subrange(start, text.len() as int) =~= word);
        if start > 0 {
            assert(text[start - 1] == front.last());
        }
    }
    if ends_with_word(before, word) {
        let found = text.subrange(start, text.len() as int);
        assert(found == word);
        if word.len() > name.len() {
            let at = front.len() - 1 - start;
            assert(found[at] == text[front.len() - 1]);
            assert(text[front.len() - 1] == front.last());
            assert(names_with(word[at]));
        } else if word.len() < name.len() {
            assert(text[start - 1] == name[start - 1 - front.len()]);
        } else {
            assert(found =~= name);
        }
    }
}

proof fn lemma_keyword(front: Seq<u8>, name: Seq<u8>, before: Seq<u8>)
    requires
        name.len() > 0,
        trimmed(before) == front + name,
        forall|i: int| 0 <= i < name.len() ==> names_with(#[trigger] name[i]),
        front.len() > 0 ==> !names_with(front.last()),
    ensures
        control_flow(before) <==> statement_keyword(name),
{
    reveal_strlit("if");
    reveal_strlit("while");
    reveal_strlit("for");
    reveal_strlit("switch");
    reveal_strlit("catch");
    reveal_strlit("return");
    lemma_ascii_bytes("if"@);
    lemma_ascii_bytes("while"@);
    lemma_ascii_bytes("for"@);
    lemma_ascii_bytes("switch"@);
    lemma_ascii_bytes("catch"@);
    lemma_ascii_bytes("return"@);
    lemma_word(front, name, before, lit("if"));
    lemma_word(front, name, before, lit("while"));
    lemma_word(front, name, before, lit("for"));
    lemma_word(front, name, before, lit("switch"));
    lemma_word(front, name, before, lit("catch"));
    lemma_word(front, name, before, lit("return"));
}

/// A name in front of the first parenthesis of a line makes it a function, unless it is the keyword of
/// a statement or, being longer than one letter, is written in capitals and underscores alone. What
/// blanks stand between the two does not matter.
pub proof fn a_name_before_a_parenthesis_is_a_function(
    front: Seq<u8>,
    name: Seq<u8>,
    gap: Seq<u8>,
    behind: Seq<u8>,
)
    requires
        name.len() > 0,
        forall|i: int| 0 <= i < name.len() ==> names_with(#[trigger] name[i]),
        forall|i: int| 0 <= i < gap.len() ==> leaves_blank(#[trigger] gap[i]),
        front.len() > 0 ==> !names_with(front.last()),
        !front.contains('(' as u8),
    ensures
        function_line(front + name + gap + seq!['(' as u8] + behind) is Some <==> !(
        statement_keyword(name) || name.len() > 1 && forall|i: int|
            0 <= i < name.len() ==> 'A' as u8 <= #[trigger] name[i] <= 'Z' as u8 || name[i]
                == '_' as u8),
{
    let line = front + name + gap + seq!['(' as u8] + behind;
    let open = (front + name + gap).len() as int;
    lemma_byte_position(line, 0x28, 0);
    let found = byte_position(line, 0x28, 0);
    assert(line[open] == 0x28);
    if found < open {
        if found < front.len() {
            assert(front.contains(line[found]));
        } else if found < (front + name).len() {
            assert(line[found] == name[found - front.len()]);
        } else {
            assert(line[found] == gap[found - (front + name).len()]);
        }
    }
    assert(found == open);
    let before = line.subrange(0, open);
    assert(before =~= front + (name + gap));
    assert(names_with(name[0]));
    assert(names_with(name[name.len() - 1]));
    assert((name + gap)[0] == name[0]);
    lemma_front(front, name + gap);
    let kept = trimmed_start(front);
    assert(kept + (name + gap) =~= (kept + name) + gap);
    assert((kept + name).last() == name[name.len() - 1]);
    lemma_gap(kept + name, gap);
    assert(trimmed(before) == kept + name);
    lemma_start_tail(front);
    lemma_tail(kept, name);
    assert((kept + name).subrange(kept.len() as int, (kept + name).len() as int) =~= name);
    assert(last_identifier(before) == Some(name));
    lemma_keyword(kept, name, before);
}

/// Where no name stands in front of the first parenthesis of a line, or the line has none, it is no
/// function.
pub proof fn a_parenthesis_without_a_name_is_no_function(
    front: Seq<u8>,
    gap: Seq<u8>,
    behind: Seq<u8>,
)
    requires
        front.len() > 0 ==> !names_with(front.last()) && !leaves_blank(front.last()),
        forall|i: int| 0 <= i < gap.len() ==> leaves_blank(#[trigger] gap[i]),
        !front.contains('(' as u8),
    ensures
        function_line(front + gap + seq!['(' as u8] + behind) is None,
        function_line(front + gap) is None,
{
    let line = front + gap + seq!['(' as u8] + behind;
    let open = (front + gap).len() as int;
    lemma_byte_position(line, 0x28, 0);
    let found = byte_position(line, 0x28, 0);
    assert(line[open] == 0x28);
    if found < open {
        if found < front.len() {
            assert(front.contains(line[found]));
        } else {
            assert(line[found] == gap[found - front.len()]);
        }
    }
    let short = front + gap;
    lemma_byte_position(short, 0x28, 0);
    let none = byte_position(short, 0x28, 0);
    if none < short.len() {
        if none < front.len() {
            assert(front.contains(short[none]));
        } else {
            assert(short[none] == gap[none - front.len()]);
        }
    }
    let before = line.subrange(0, open);
    assert(before =~= front + gap);
    lemma_nameless(front, gap);
}

proof fn lemma_nameless(front: Seq<u8>, gap: Seq<u8>)
    requires
        front.len() > 0 ==> !names_with(front.last()) && !leaves_blank(front.last()),
        forall|i: int| 0 <= i < gap.len() ==> leaves_blank(#[trigger] gap[i]),
    ensures
        last_identifier(front + gap) is None,
    decreases front.len() + gap.len(),
{
    let whole = front + gap;
    if front.len() == 0 {
        assert(whole =~= gap);
        if gap.len() > 0 {
            let less = gap.subrange(1, gap.len() as int);
            assert forall|i: int| 0 <= i < less.len() implies leaves_blank(#[trigger] less[i]) by {
                assert(less[i] == gap[i + 1]);
            }
            lemma_nameless(front, less);
            assert(front + less =~= less);
            assert(leaves_blank(gap[0]));
            assert(trimmed(gap) == trimmed(less));
        }
    } else if ascii_space(front[0]) {
        let less = front.subrange(1, front.len() as int);
        assert(less.len() > 0) by {
            if less.len() == 0 {
                assert(front[0] == front.last());
            }
        }
        lemma_nameless(less, gap);
        assert(whole[0] == front[0]);
        assert(whole.subrange(1, whole.len() as int) =~= less + gap);
        assert(trimmed(whole) == trimmed(less + gap));
    } else {
        assert(whole[0] == front[0]);
        lemma_gap(front, gap);
        assert(trimmed(whole) == front);
    }
}

/// An image is what the first `![` of a line opens, and its text reaches to the next `]`; a line
/// without either holds none.
pub proof fn an_image_keeps_its_text(front: Seq<u8>, text: Seq<u8>, behind: Seq<u8>)
    requires
        forall|at: int| 0 <= at < front.len() - 1 ==> !(#[trigger] front[at] == '!' as u8
            && front[at + 1] == '[' as u8),
        !text.contains(']' as u8),
    ensures
        image_of(front + seq!['!' as u8, '[' as u8] + text + seq![']' as u8] + behind) == Some(
            text,
        ),
        image_of(front + seq!['!' as u8, '[' as u8] + text) is None,
        image_of(front) is None,
{
    let mark = seq![0x21u8, 0x5Bu8];
    let whole = front + seq!['!' as u8, '[' as u8] + text + seq![']' as u8] + behind;
    let unclosed = front + seq!['!' as u8, '[' as u8] + text;
    lemma_first_mark(front, seq!['!' as u8, '[' as u8] + text + seq![']' as u8] + behind);
    lemma_first_mark(front, seq!['!' as u8, '[' as u8] + text);
    assert(whole =~= front + (seq!['!' as u8, '[' as u8] + text + seq![']' as u8] + behind));
    assert(unclosed =~= front + (seq!['!' as u8, '[' as u8] + text));
    let at = front.len() as int;
    let after = whole.subrange(at + 2, whole.len() as int);
    assert(after =~= text + seq![']' as u8] + behind);
    lemma_byte_position(after, 0x5D, 0);
    let close = byte_position(after, 0x5D, 0);
    assert(after[text.len() as int] == 0x5D);
    if close < text.len() {
        assert(text.contains(after[close]));
    }
    assert(after.subrange(0, close) =~= text);
    let open = unclosed.subrange(at + 2, unclosed.len() as int);
    assert(open =~= text);
    lemma_byte_position(open, 0x5D, 0);
    if byte_position(open, 0x5D, 0) < open.len() {
        assert(text.contains(open[byte_position(open, 0x5D, 0)]));
    }
    lemma_index_of(front, mark, 0);
    match index_of(front, mark, 0) {
        None => {},
        Some(found) => {
            let pair = front.subrange(found, found + 2);
            assert(pair[0] == front[found] && pair[1] == front[found + 1]);
            assert(mark[0] == 0x21 && mark[1] == 0x5B);
        },
    }
}

proof fn lemma_first_mark(front: Seq<u8>, rest: Seq<u8>)
    requires
        forall|at: int| 0 <= at < front.len() - 1 ==> !(#[trigger] front[at] == '!' as u8
            && front[at + 1] == '[' as u8),
        rest.len() >= 2,
        rest[0] == '!' as u8,
        rest[1] == '[' as u8,
    ensures
        index_of(front + rest, seq![0x21u8, 0x5Bu8], 0) == Some(front.len() as int),
{
    let mark = seq![0x21u8, 0x5Bu8];
    let whole = front + rest;
    let here = front.len() as int;
    assert(mark[0] == 0x21 && mark[1] == 0x5B);
    assert(whole[here] == 0x21 && whole[here + 1] == 0x5B);
    assert(whole.subrange(here, here + 2) =~= mark);
    assert(occurs_at(whole, mark, here));
    lemma_index_of(whole, mark, 0);
    let found = index_of(whole, mark, 0)->0;
    if found < here {
        let pair = whole.subrange(found, found + 2);
        assert(pair == mark);
        assert(pair[0] == whole[found] && pair[1] == whole[found + 1]);
        assert(whole[found] == front[found]);
        if found + 1 < here {
            assert(whole[found + 1] == front[found + 1]);
        }
    }
}

/// A fence outside a code block opens one, with the language that its info names; the next fence of the
/// same mark closes it, and the block reaches from the one line to the other.
pub proof fn a_fence_opens_and_closes_a_code_block(scan: Scan, line: Seq<u8>, start: int)
    requires
        fence_of(line) is Some,
    ensures
        ({
            let after = scanned(scan, line, start);
            let (mark, language) = fence_of(line)->0;
            &&& scan.code is None ==> after.code is Some && after.code->0.marker == mark
                && after.code->0.language == language && after.code->0.line == scan.number + 1
                && after.code->0.offset == start && after.block is None
            &&& scan.code is Some && scan.code->0.marker == mark ==> after.code is None
            &&& scan.code is Some && scan.code->0.marker == mark && scan.section is None ==> {
                let block = after.elements.last().head;
                &&& after.elements.drop_last() == scan.elements
                &&& block.kind == Kind::CodeBlock { language: scan.code->0.language }
                &&& block.line_number == scan.code->0.line
                &&& block.line_number + block.line_count == after.number + 1
                &&& block.byte_offset == scan.code->0.offset
                &&& block.byte_offset + block.byte_length == start + line.len()
            }
            &&& after.number == scan.number + 1
            &&& after.section == scan.section
        }),
{
    let after = scanned(scan, line, start);
    let (mark, language) = fence_of(line)->0;
    if scan.code is Some && scan.section is None && scan.code->0.marker == mark {
        assert(after.elements.drop_last() =~= scan.elements);
    }
}

/// A heading outside a code block begins a section on its line, of its level and with its text, and
/// ends the block before it.
pub proof fn a_heading_begins_a_section(scan: Scan, line: Seq<u8>, start: int)
    requires
        scan.code is None,
        fence_of(line) is None,
        heading_of(unindented(line, 3)) is Some,
    ensures
        ({
            let after = scanned(scan, line, start);
            let (level, name) = heading_of(unindented(line, 3))->0;
            let head = after.elements.last().head;
            &&& after.elements.len() > 0
            &&& after.section == Some(after.elements.len() - 1)
            &&& after.elements.last().children.len() == 0
            &&& head.kind == Kind::Heading { level }
            &&& head.name == name
            &&& head.line_number == scan.number + 1
            &&& head.line_count == 1
            &&& head.byte_offset == start
            &&& head.byte_length == line.len()
            &&& after.block is None
            &&& after.code is None
            &&& after.number == scan.number + 1
        }),
{
}

} // verus!
