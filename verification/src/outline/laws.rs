//! What an outline of C is for: where a function ends, and that nothing inside one is listed.

use vstd::prelude::*;

use crate::bytes::{
    ascii_space, byte_position, lemma_byte_position, trimmed, trimmed_end, trimmed_start,
};
use crate::lines::{
    lemma_line_at, lemma_lines_chain, lemma_lines_step, lemma_next_break, line_at, lines, Line,
    Newlines,
};
use crate::sz::{
    byte_count, index_of, lemma_byte_count_joins, lemma_index_of, lemma_none_counted, occurs_at,
};

use super::c_source::{
    brace_change, braces, c_outline, c_scanned, c_scanned_from, effective, fresh_c_scan, holds,
    CScan,
};
use super::element::{Entry, Outlined};

verus! {

/// Whether a text holds no quotes, no backslashes and no slashes, so that every brace in it counts.
pub open spec fn plain_code(data: Seq<u8>) -> bool {
    forall|at: int|
        0 <= at < data.len() ==> #[trigger] data[at] != '"' as u8 && data[at] != '\'' as u8
            && data[at] != '\\' as u8 && data[at] != '/' as u8
}

/// How many braces were opened and not closed again in `data[start..end]`.
pub open spec fn open_braces(data: Seq<u8>, start: int, end: int) -> int {
    byte_count(data.subrange(start, end), '{' as u8) - byte_count(
        data.subrange(start, end),
        '}' as u8,
    )
}

/// Whether a closing parenthesis stands behind an opening one.
pub open spec fn parenthesized(data: Seq<u8>) -> bool {
    exists|i: int, j: int|
        #![trigger data[i], data[j]]
        0 <= i < j < data.len() && data[i] == '(' as u8 && data[j] == ')' as u8
}

/// Whether a text holds a function's parameters and a brace that opens its body.
pub open spec fn opens_body(data: Seq<u8>) -> bool {
    parenthesized(data) && data.contains('{' as u8)
}

/// Whether a definition ends where its braces close: it begins where a line does and ends where one
/// does, its body was opened, at its end no more braces are open than closed, and at every earlier
/// line end behind the opening of the body some brace is open.
pub open spec fn ends_with_its_braces(data: Seq<u8>, all: Seq<Line>, entry: Entry) -> bool {
    let first = entry.line_number - 1;
    let last = entry.line_number + entry.line_count - 2;
    let start = entry.byte_offset;
    let end = entry.byte_offset + entry.byte_length;
    &&& 0 <= first <= last < all.len()
    &&& start == all[first].start
    &&& end == all[last].cut
    &&& opens_body(data.subrange(start, end))
    &&& open_braces(data, start, end) <= 0
    &&& forall|line: int|
        #![trigger all[line]]
        first <= line < last && opens_body(data.subrange(start, all[line].cut)) ==> open_braces(
            data,
            start,
            all[line].cut,
        ) > 0
}

/// What of a text decides where a function ends.
#[verifier::opaque]
spec fn alike(one: Seq<u8>, two: Seq<u8>) -> bool {
    &&& byte_count(one, 0x7B) == byte_count(two, 0x7B)
    &&& byte_count(one, 0x7D) == byte_count(two, 0x7D)
    &&& one.contains(0x7B) == two.contains(0x7B)
    &&& one.contains(0x28) == two.contains(0x28)
    &&& one.contains(0x29) == two.contains(0x29)
    &&& parenthesized(one) == parenthesized(two)
}

/// Whether a text holds no brace and no parenthesis.
spec fn blank(data: Seq<u8>) -> bool {
    forall|at: int|
        0 <= at < data.len() ==> #[trigger] data[at] != 0x7B && data[at] != 0x7D && data[at] != 0x28
            && data[at] != 0x29
}

proof fn lemma_contains_join(one: Seq<u8>, two: Seq<u8>, byte: u8)
    ensures
        (one + two).contains(byte) == (one.contains(byte) || two.contains(byte)),
{
    if one.contains(byte) {
        let i = choose|i: int| 0 <= i < one.len() && one[i] == byte;
        assert((one + two)[i] == byte);
    }
    if two.contains(byte) {
        let i = choose|i: int| 0 <= i < two.len() && two[i] == byte;
        assert((one + two)[one.len() + i] == byte);
    }
}

proof fn lemma_parenthesized_join(one: Seq<u8>, two: Seq<u8>)
    ensures
        parenthesized(one + two) == (parenthesized(one) || parenthesized(two) || (one.contains(0x28)
            && two.contains(0x29))),
{
    let whole = one + two;
    if parenthesized(one) {
        let (i, j) = choose|i: int, j: int|
            #![trigger one[i], one[j]]
            0 <= i < j < one.len() && one[i] == 0x28 && one[j] == 0x29;
        assert(whole[i] == 0x28 && whole[j] == 0x29);
    }
    if parenthesized(two) {
        let (i, j) = choose|i: int, j: int|
            #![trigger two[i], two[j]]
            0 <= i < j < two.len() && two[i] == 0x28 && two[j] == 0x29;
        assert(whole[one.len() + i] == 0x28 && whole[one.len() + j] == 0x29);
    }
    if one.contains(0x28) && two.contains(0x29) {
        let i = choose|i: int| 0 <= i < one.len() && one[i] == 0x28;
        let j = choose|j: int| 0 <= j < two.len() && two[j] == 0x29;
        assert(whole[i] == 0x28 && whole[one.len() + j] == 0x29);
    }
    if parenthesized(whole) {
        let (i, j) = choose|i: int, j: int|
            #![trigger whole[i], whole[j]]
            0 <= i < j < whole.len() && whole[i] == 0x28 && whole[j] == 0x29;
        if j < one.len() {
            assert(one[i] == 0x28 && one[j] == 0x29);
        } else if i >= one.len() {
            assert(two[i - one.len()] == 0x28 && two[j - one.len()] == 0x29);
        } else {
            assert(one[i] == 0x28 && two[j - one.len()] == 0x29);
        }
    }
}

proof fn lemma_alike_join(one: Seq<u8>, two: Seq<u8>, three: Seq<u8>, four: Seq<u8>)
    requires
        alike(one, two),
        alike(three, four),
    ensures
        alike(one + three, two + four),
{
    reveal(alike);
    lemma_byte_count_joins(one, three, 0x7B);
    lemma_byte_count_joins(one, three, 0x7D);
    lemma_byte_count_joins(two, four, 0x7B);
    lemma_byte_count_joins(two, four, 0x7D);
    lemma_contains_join(one, three, 0x7B);
    lemma_contains_join(one, three, 0x28);
    lemma_contains_join(one, three, 0x29);
    lemma_contains_join(two, four, 0x7B);
    lemma_contains_join(two, four, 0x28);
    lemma_contains_join(two, four, 0x29);
    lemma_parenthesized_join(one, three);
    lemma_parenthesized_join(two, four);
}

proof fn lemma_alike_blank(one: Seq<u8>, two: Seq<u8>)
    requires
        blank(one),
        blank(two),
    ensures
        alike(one, two),
{
    reveal(alike);
    lemma_none_counted(one, 0x7B);
    lemma_none_counted(one, 0x7D);
    lemma_none_counted(two, 0x7B);
    lemma_none_counted(two, 0x7D);
}

/// Trimming takes nothing but blanks.
proof fn lemma_trimmed_alike(data: Seq<u8>)
    requires
        plain_code(data),
    ensures
        alike(trimmed(data), data),
        plain_code(trimmed(data)),
{
    lemma_trimmed_start_alike(data);
    lemma_trimmed_end_alike(trimmed_start(data));
    reveal(alike);
}

proof fn lemma_trimmed_start_alike(data: Seq<u8>)
    requires
        plain_code(data),
    ensures
        alike(trimmed_start(data), data),
        plain_code(trimmed_start(data)),
    decreases data.len(),
{
    if data.len() > 0 && ascii_space(data[0]) {
        let front = data.subrange(0, 1);
        let rest = data.subrange(1, data.len() as int);
        lemma_trimmed_start_alike(rest);
        lemma_alike_blank(Seq::empty(), front);
        lemma_alike_join(Seq::empty(), front, trimmed_start(rest), rest);
        assert(Seq::<u8>::empty() + trimmed_start(rest) =~= trimmed_start(data));
        assert(front + rest =~= data);
    } else {
        reveal(alike);
    }
}

proof fn lemma_trimmed_end_alike(data: Seq<u8>)
    requires
        plain_code(data),
    ensures
        alike(trimmed_end(data), data),
        plain_code(trimmed_end(data)),
    decreases data.len(),
{
    if data.len() > 0 && ascii_space(data.last()) {
        let tail = data.subrange(data.len() - 1, data.len() as int);
        let rest = data.drop_last();
        lemma_trimmed_end_alike(rest);
        lemma_alike_blank(Seq::empty(), tail);
        lemma_alike_join(trimmed_end(rest), rest, Seq::empty(), tail);
        assert(trimmed_end(rest) + Seq::<u8>::empty() =~= trimmed_end(data));
        assert(rest + tail =~= data);
    } else {
        reveal(alike);
    }
}

proof fn lemma_brace_change_plain(line: Seq<u8>, from: int)
    requires
        plain_code(line),
        0 <= from <= line.len(),
    ensures
        brace_change(line, from, false, false, false) == open_braces(
            line,
            from,
            line.len() as int,
        ),
    decreases line.len() - from,
{
    let rest = line.subrange(from, line.len() as int);
    if from < line.len() {
        let later = line.subrange(from + 1, line.len() as int);
        let first = seq![line[from]];
        lemma_brace_change_plain(line, from + 1);
        assert(rest =~= first + later);
        lemma_byte_count_joins(first, later, 0x7B);
        lemma_byte_count_joins(first, later, 0x7D);
        assert(first.drop_last() =~= Seq::empty());
        reveal_with_fuel(byte_count, 2);
    } else {
        assert(rest =~= Seq::empty());
    }
}

/// Where nothing is quoted, escaped or commented out, the net brace change of a line is its opening
/// braces less its closing ones.
pub proof fn plain_braces_all_count(line: Seq<u8>)
    requires
        plain_code(line),
    ensures
        braces(line) == byte_count(line, '{' as u8) - byte_count(line, '}' as u8),
{
    lemma_brace_change_plain(line, 0);
    assert(line.subrange(0, line.len() as int) =~= line);
}

/// Without slashes there are no comments.
proof fn lemma_no_comments(line: Seq<u8>)
    requires
        plain_code(line),
    ensures
        !holds(line, seq![0x2Fu8, 0x2Au8]),
        effective(line) == line,
{
    lemma_index_of(line, seq![0x2Fu8, 0x2Au8], 0);
    lemma_index_of(line, seq![0x2Fu8, 0x2Fu8], 0);
    match index_of(line, seq![0x2Fu8, 0x2Au8], 0) {
        Some(at) => {
            let found = line.subrange(at, at + 2);
            assert(found[0] == line[at]);
            assert(occurs_at(line, seq![0x2Fu8, 0x2Au8], at));
        },
        None => {},
    }
    match index_of(line, seq![0x2Fu8, 0x2Fu8], 0) {
        Some(at) => {
            let found = line.subrange(at, at + 2);
            assert(found[0] == line[at]);
            assert(occurs_at(line, seq![0x2Fu8, 0x2Fu8], at));
        },
        None => {},
    }
}

/// A parenthesis closes behind the first that opens, or none closes behind any.
proof fn lemma_parenthesized(data: Seq<u8>)
    ensures
        ({
            let open = byte_position(data, 0x28, 0);
            let behind = data.subrange(open, data.len() as int);
            parenthesized(data) <==> open < data.len() && byte_position(behind, 0x29, 0)
                < behind.len()
        }),
{
    lemma_byte_position(data, 0x28, 0);
    let open = byte_position(data, 0x28, 0);
    let behind = data.subrange(open, data.len() as int);
    lemma_byte_position(behind, 0x29, 0);
    let close = byte_position(behind, 0x29, 0);
    if open < data.len() && close < behind.len() {
        assert(data[open] == 0x28 && data[open + close] == 0x29);
        assert(close > 0);
    }
    if parenthesized(data) {
        let (i, j) = choose|i: int, j: int|
            #![trigger data[i], data[j]]
            0 <= i < j < data.len() && data[i] == 0x28 && data[j] == 0x29;
        assert(open <= i);
        assert(behind[j - open] == 0x29);
    }
}

proof fn lemma_contains_position(data: Seq<u8>, byte: u8)
    ensures
        data.contains(byte) <==> byte_position(data, byte, 0) < data.len(),
{
    lemma_byte_position(data, byte, 0);
    if data.contains(byte) {
        let i = choose|i: int| 0 <= i < data.len() && data[i] == byte;
        assert(data[i] == byte);
    }
    if byte_position(data, byte, 0) < data.len() {
        assert(data[byte_position(data, byte, 0)] == byte);
    }
}

/// What a terminator adds to a text decides nothing.
proof fn lemma_line_ends_blank(data: Seq<u8>, start: int, at: int, newlines: Newlines)
    requires
        0 <= start <= at < data.len(),
    ensures
        ({
            let line = line_at(data, at, newlines);
            &&& at <= line.cut <= line.end <= data.len()
            &&& alike(data.subrange(start, line.cut), data.subrange(start, line.end))
        }),
{
    let line = line_at(data, at, newlines);
    lemma_line_at(data, at, newlines);
    lemma_next_break(data, at, newlines);
    let ending = data.subrange(line.cut, line.end);
    assert(blank(ending)) by {
        assert forall|i: int| 0 <= i < ending.len() implies #[trigger] ending[i] != 0x7B
            && ending[i] != 0x7D && ending[i] != 0x28 && ending[i] != 0x29 by {
            assert(ending[i] == data[line.cut + i]);
        }
    }
    lemma_alike_blank(Seq::empty(), ending);
    reveal(alike);
    let front = data.subrange(start, line.cut);
    assert(alike(front, front));
    lemma_alike_join(front, front, Seq::empty(), ending);
    assert(front + Seq::<u8>::empty() =~= front);
    assert(front + ending =~= data.subrange(start, line.end));
}

/// Whether a function that was followed from `first` on is still open: at every line end behind the
/// opening of its body some brace is.
#[verifier::opaque]
spec fn still_open(data: Seq<u8>, all: Seq<Line>, first: int, end: int) -> bool {
    forall|line: int|
        #![trigger all[line]]
        first <= line < end && opens_body(data.subrange(all[first].start, all[line].cut))
            ==> open_braces(data, all[first].start, all[line].cut) > 0
}

/// Whether no line from `first` on has opened a body.
#[verifier::opaque]
spec fn unopened(data: Seq<u8>, all: Seq<Line>, first: int, end: int) -> bool {
    forall|line: int|
        #![trigger all[line]]
        first <= line < end ==> !opens_body(data.subrange(all[first].start, all[line].cut))
}

/// Whether every definition listed so far ends where its braces close.
#[verifier::opaque]
spec fn listed_right(data: Seq<u8>, all: Seq<Line>, elements: Seq<Outlined>) -> bool {
    forall|i: int|
        #![trigger elements[i]]
        0 <= i < elements.len() && elements[i].head.kind is FunctionDefinition
            ==> ends_with_its_braces(data, all, elements[i].head)
}

/// Where a scan of plain code stands once the lines before byte `at` are read.
spec fn stands(data: Seq<u8>, newlines: Newlines, at: int, scan: CScan) -> bool {
    let all = lines(data, 0, newlines);
    &&& 0 <= at <= data.len()
    &&& 0 <= scan.number <= all.len()
    &&& lines(data, at, newlines) == all.skip(scan.number)
    &&& !scan.in_comment
    &&& listed_right(data, all, scan.elements)
    &&& scan.pending matches Some(pending) ==> {
        &&& !scan.in_body
        &&& 1 <= pending.line <= scan.number
        &&& all[pending.line - 1].start == pending.offset
        &&& 0 <= pending.offset <= at
        &&& plain_code(pending.text)
        &&& alike(pending.text, data.subrange(pending.offset, at))
        &&& unopened(data, all, pending.line - 1, scan.number)
    }
    &&& scan.in_body ==> {
        &&& scan.function matches Some(function) && {
            &&& 1 <= function.line <= scan.number
            &&& all[function.line - 1].start == function.offset
            &&& 0 <= function.offset <= at
            &&& opens_body(data.subrange(function.offset, at))
            &&& scan.depth == open_braces(data, function.offset, at)
            &&& scan.depth > 0
            &&& still_open(data, all, function.line - 1, scan.number)
        }
    }
}

proof fn lemma_alike_opens(one: Seq<u8>, two: Seq<u8>)
    requires
        alike(one, two),
    ensures
        opens_body(one) == opens_body(two),
        byte_count(one, 0x7B) - byte_count(one, 0x7D) == byte_count(two, 0x7B) - byte_count(
            two,
            0x7D,
        ),
{
    reveal(alike);
}

/// Reading on: a text that was alike up to a line is alike behind it once the line is added.
proof fn lemma_alike_line(
    data: Seq<u8>,
    newlines: Newlines,
    start: int,
    at: int,
    text: Seq<u8>,
    extended: Seq<u8>,
)
    requires
        plain_code(data),
        0 <= start <= at < data.len(),
        alike(text, data.subrange(start, at)),
        plain_code(text),
        ({
            let line = line_at(data, at, newlines).as_cut(data);
            extended == text.push(0x20) + trimmed(line) || (text.len() == 0 && extended == trimmed(
                line,
            )) || extended == text + line
        }),
    ensures
        ({
            let line = line_at(data, at, newlines);
            &&& alike(extended, data.subrange(start, line.end))
            &&& alike(extended, data.subrange(start, line.cut))
            &&& plain_code(extended)
        }),
{
    let line = line_at(data, at, newlines);
    let read = line.as_cut(data);
    lemma_line_at(data, at, newlines);
    lemma_line_ends_blank(data, start, at, newlines);
    assert(plain_code(read));
    lemma_trimmed_alike(read);
    let before = data.subrange(start, at);
    assert(before + read =~= data.subrange(start, line.cut));
    if extended == text.push(0x20) + trimmed(read) {
        lemma_alike_blank(seq![0x20u8], Seq::empty());
        lemma_alike_join(text, before, seq![0x20u8], Seq::empty());
        assert(text + seq![0x20u8] =~= text.push(0x20));
        assert(before + Seq::<u8>::empty() =~= before);
        lemma_alike_join(text.push(0x20), before, trimmed(read), read);
    } else if text.len() == 0 && extended == trimmed(read) {
        assert(text + trimmed(read) =~= trimmed(read));
        lemma_alike_join(text, before, trimmed(read), read);
    } else {
        reveal(alike);
        lemma_alike_join(text, before, read, read);
    }
    reveal(alike);
}

/// One line of plain code.
#[verifier::rlimit(60)]
proof fn lemma_stands_step(data: Seq<u8>, newlines: Newlines, at: int, scan: CScan)
    requires
        plain_code(data),
        stands(data, newlines, at, scan),
        at < data.len(),
    ensures
        ({
            let line = line_at(data, at, newlines);
            stands(data, newlines, line.end, c_scanned(scan, line.as_cut(data), at))
        }),
{
    let all = lines(data, 0, newlines);
    let line = line_at(data, at, newlines);
    let read = line.as_cut(data);
    lemma_lines_step(data, at, newlines);
    lemma_lines_chain(data, 0, newlines);
    let next = scan.number + 1;
    assert(all.skip(scan.number).len() > 0);
    assert(all[scan.number] == all.skip(scan.number)[0]);
    assert(all[scan.number] == line);
    assert(all.skip(next) =~= all.skip(scan.number).drop_first());
    assert(plain_code(read));
    lemma_no_comments(read);
    let after = c_scanned(scan, read, at);
    match scan.pending {
        Some(pending) => {
            let text = pending.text.push(0x20) + trimmed(read);
            lemma_alike_line(data, newlines, pending.offset, at, pending.text, text);
            lemma_alike_opens(text, data.subrange(pending.offset, line.cut));
            lemma_alike_opens(text, data.subrange(pending.offset, line.end));
            lemma_parenthesized(text);
            lemma_contains_position(text, 0x7B);
            lemma_contains_position(text, 0x3B);
            plain_braces_all_count(text);
            lemma_listed(data, all, scan.elements, after.elements);
            if after.in_body {
                reveal(unopened);
                reveal(still_open);
            } else if after.pending is Some {
                reveal(unopened);
            } else if after.elements != scan.elements && after.elements.last().head.kind
                is FunctionDefinition {
                reveal(unopened);
                assert(ends_with_its_braces(data, all, after.elements.last().head));
                reveal(listed_right);
            }
            if byte_position(text, 0x3B, 0) < text.len() {
                reveal(listed_right);
            }
        },
        None => {
            if !scan.in_body {
                let text = trimmed(read);
                let nothing = data.subrange(at, at);
                assert(nothing =~= Seq::<u8>::empty());
                lemma_alike_blank(Seq::empty(), nothing);
                lemma_alike_line(data, newlines, at, at, Seq::empty(), text);
                lemma_alike_opens(text, data.subrange(at, line.cut));
                lemma_alike_opens(text, data.subrange(at, line.end));
                lemma_parenthesized(text);
                lemma_contains_position(text, 0x7B);
                plain_braces_all_count(text);
                reveal(unopened);
                reveal(still_open);
                reveal(listed_right);
            } else {
                let function = scan.function->0;
                let before = data.subrange(function.offset, at);
                assert(plain_code(before));
                reveal(alike);
                lemma_alike_line(data, newlines, function.offset, at, before, before + read);
                lemma_alike_opens(before + read, data.subrange(function.offset, line.cut));
                lemma_alike_opens(before + read, data.subrange(function.offset, line.end));
                lemma_byte_count_joins(before, read, 0x7B);
                lemma_byte_count_joins(before, read, 0x7D);
                lemma_contains_join(before, read, 0x7B);
                lemma_parenthesized_join(before, read);
                plain_braces_all_count(read);
                reveal(still_open);
                reveal(listed_right);
            }
        },
    }
}

/// Adding an element keeps the others right.
proof fn lemma_listed(data: Seq<u8>, all: Seq<Line>, before: Seq<Outlined>, after: Seq<Outlined>)
    requires
        listed_right(data, all, before),
    ensures
        after == before ==> listed_right(data, all, after),
        after.len() == before.len() + 1 && after.drop_last() == before && (
        after.last().head.kind is FunctionDefinition ==> ends_with_its_braces(
            data,
            all,
            after.last().head,
        )) ==> listed_right(data, all, after),
{
    reveal(listed_right);
    if after.len() == before.len() + 1 && after.drop_last() == before && (
    after.last().head.kind is FunctionDefinition ==> ends_with_its_braces(
        data,
        all,
        after.last().head,
    )) {
        assert forall|i: int|
            #![trigger after[i]]
            0 <= i < after.len() && after[i].head.kind is FunctionDefinition implies
            ends_with_its_braces(data, all, after[i].head) by {
            if i < before.len() {
                assert(after[i] == before[i]);
            }
        }
    }
}

proof fn lemma_stands_on(data: Seq<u8>, newlines: Newlines, at: int, scan: CScan)
    requires
        plain_code(data),
        stands(data, newlines, at, scan),
    ensures
        listed_right(
            data,
            lines(data, 0, newlines),
            c_scanned_from(data, newlines, at, scan).elements,
        ),
    decreases data.len() - at,
{
    if at < data.len() {
        let line = line_at(data, at, newlines);
        lemma_lines_step(data, at, newlines);
        lemma_stands_step(data, newlines, at, scan);
        lemma_stands_on(data, newlines, line.end, c_scanned(scan, line.as_cut(data), at));
    }
}

/// In code without literals and comments a definition ends on the first line, from the one that its
/// body opens on, at whose end as many braces were closed as opened since the definition began; at
/// the end of every earlier one some brace is open.
pub proof fn a_definition_ends_where_its_braces_close(data: Seq<u8>, newlines: Newlines, i: int)
    requires
        plain_code(data),
        0 <= i < c_outline(data, newlines).len(),
        c_outline(data, newlines)[i].head.kind is FunctionDefinition,
    ensures
        ends_with_its_braces(
            data,
            lines(data, 0, newlines),
            c_outline(data, newlines)[i].head,
        ),
{
    let all = lines(data, 0, newlines);
    assert(all.skip(0) =~= all);
    reveal(listed_right);
    lemma_stands_on(data, newlines, 0, fresh_c_scan());
}

/// Whether these elements stand one behind the other, each ending, by byte and by line, before the
/// next begins, and all of them before byte `offset` and line `line`.
spec fn laid_out(elements: Seq<Outlined>, offset: int, line: int) -> bool {
    &&& forall|i: int|
        #![trigger elements[i]]
        0 <= i < elements.len() ==> elements[i].head.byte_offset + elements[i].head.byte_length
            <= offset && elements[i].head.line_number + elements[i].head.line_count <= line
            && elements[i].head.line_count >= 1 && elements[i].head.byte_length >= 0
    &&& forall|i: int, j: int|
        #![trigger elements[i], elements[j]]
        0 <= i < j < elements.len() ==> elements[i].head.byte_offset + elements[i].head.byte_length
            <= elements[j].head.byte_offset && elements[i].head.line_number
            + elements[i].head.line_count <= elements[j].head.line_number
}

/// Where the next element of a scan may begin.
spec fn next_place(scan: CScan, at: int) -> (int, int) {
    match (scan.pending, scan.function) {
        (Some(pending), _) => (pending.offset, pending.line),
        (None, Some(function)) => (function.offset, function.line),
        (None, None) => (at, scan.number + 1),
    }
}

spec fn laid_out_so_far(scan: CScan, at: int) -> bool {
    &&& laid_out(scan.elements, next_place(scan, at).0, next_place(scan, at).1)
    &&& 0 <= scan.number
    &&& scan.pending matches Some(pending) ==> !scan.in_body && scan.function is None
        && pending.offset <= at && 1 <= pending.line <= scan.number
    &&& scan.function matches Some(function) ==> scan.in_body && function.offset <= at && 1
        <= function.line <= scan.number
    &&& scan.in_body ==> scan.function is Some
}

proof fn lemma_laid_out_step(scan: CScan, line: Seq<u8>, at: int, end: int)
    requires
        laid_out_so_far(scan, at),
        at + line.len() <= end,
    ensures
        laid_out_so_far(c_scanned(scan, line, at), end),
{
    let after = c_scanned(scan, line, at);
    if after.elements != scan.elements {
        assert(after.elements.drop_last() =~= scan.elements);
        assert forall|i: int, j: int|
            #![trigger after.elements[i], after.elements[j]]
            0 <= i < j < after.elements.len() implies after.elements[i].head.byte_offset
            + after.elements[i].head.byte_length <= after.elements[j].head.byte_offset
            && after.elements[i].head.line_number + after.elements[i].head.line_count
            <= after.elements[j].head.line_number by {
            assert(after.elements[i] == scan.elements[i]);
            if j < scan.elements.len() {
                assert(after.elements[j] == scan.elements[j]);
            }
        }
        assert forall|i: int|
            #![trigger after.elements[i]]
            0 <= i < after.elements.len() implies after.elements[i].head.byte_offset
            + after.elements[i].head.byte_length <= next_place(after, end).0
            && after.elements[i].head.line_number + after.elements[i].head.line_count
            <= next_place(after, end).1 && after.elements[i].head.line_count >= 1
            && after.elements[i].head.byte_length >= 0 by {
            if i < scan.elements.len() {
                assert(after.elements[i] == scan.elements[i]);
            }
        }
    }
}

proof fn lemma_laid_out_on(data: Seq<u8>, newlines: Newlines, at: int, scan: CScan)
    requires
        laid_out_so_far(scan, at),
        0 <= at <= data.len(),
    ensures
        ({
            let done = c_scanned_from(data, newlines, at, scan);
            laid_out_so_far(done, data.len() as int)
        }),
    decreases data.len() - at,
{
    if at < data.len() {
        let line = line_at(data, at, newlines);
        lemma_lines_step(data, at, newlines);
        lemma_laid_out_step(scan, line.as_cut(data), at, line.end);
        lemma_laid_out_on(data, newlines, line.end, c_scanned(scan, line.as_cut(data), at));
    }
}

/// The elements of a C outline stand one behind the other, each ending, by byte and by line, before
/// the next begins, so that no line of one gives another.
pub proof fn c_elements_never_overlap(data: Seq<u8>, newlines: Newlines, i: int, j: int)
    requires
        0 <= i < j < c_outline(data, newlines).len(),
    ensures
        ({
            let one = c_outline(data, newlines)[i].head;
            let two = c_outline(data, newlines)[j].head;
            &&& one.byte_offset + one.byte_length <= two.byte_offset
            &&& one.line_number + one.line_count <= two.line_number
            &&& one.line_count >= 1
        }),
{
    lemma_laid_out_on(data, newlines, 0, fresh_c_scan());
    assert(c_outline(data, newlines)[i].head.line_count >= 1);
}

/// Braces between two quotes are text: a literal without quotes and backslashes in it opens and closes
/// nothing, and neither does a character behind a backslash.
pub proof fn quoted_braces_do_not_count(front: Seq<u8>, literal: Seq<u8>, back: Seq<u8>, quote: u8)
    requires
        plain_code(front),
        quote == '"' as u8 || quote == '\'' as u8,
        forall|at: int|
            0 <= at < literal.len() ==> #[trigger] literal[at] != quote && literal[at]
                != '\\' as u8,
    ensures
        braces(front + seq![quote] + literal + seq![quote] + back) == braces(front) + braces(back),
        literal.len() == 1 ==> braces(front + seq!['\\' as u8] + literal + back) == braces(front)
            + braces(back),
{
    let size = front.len() as int;
    let whole = front + seq![quote] + literal + seq![quote] + back;
    lemma_front_braces(front, seq![quote] + literal + seq![quote] + back);
    assert(whole =~= front + (seq![quote] + literal + seq![quote] + back));
    assert(whole[size] == quote);
    lemma_literal_braces(whole, size + 1, size + 1 + literal.len(), quote);
    assert(whole[size + 1 + literal.len()] == quote);
    lemma_back_braces(front + seq![quote] + literal + seq![quote], back, 0, false, false, false);
    assert(front + seq![quote] + literal + seq![quote] + back =~= whole);
    plain_braces_all_count(front);
    if literal.len() == 1 {
        let other = front + seq!['\\' as u8] + literal + back;
        lemma_front_braces(front, seq!['\\' as u8] + literal + back);
        assert(other =~= front + (seq!['\\' as u8] + literal + back));
        assert(other[size] == 0x5C);
        lemma_back_braces(front + seq!['\\' as u8] + literal, back, 0, false, false, false);
        reveal_with_fuel(brace_change, 3);
    }
}

proof fn lemma_front_braces(front: Seq<u8>, back: Seq<u8>)
    requires
        plain_code(front),
    ensures
        braces(front + back) == braces(front) + brace_change(
            front + back,
            front.len() as int,
            false,
            false,
            false,
        ),
{
    lemma_front_braces_from(front, back, 0);
}

proof fn lemma_front_braces_from(front: Seq<u8>, back: Seq<u8>, from: int)
    requires
        plain_code(front),
        0 <= from <= front.len(),
    ensures
        brace_change(front + back, from, false, false, false) == brace_change(
            front,
            from,
            false,
            false,
            false,
        ) + brace_change(front + back, front.len() as int, false, false, false),
    decreases front.len() - from,
{
    if from < front.len() {
        assert((front + back)[from] == front[from]);
        lemma_front_braces_from(front, back, from + 1);
    }
}

proof fn lemma_literal_braces(whole: Seq<u8>, from: int, end: int, quote: u8)
    requires
        quote == 0x22 || quote == 0x27,
        0 <= from <= end < whole.len(),
        forall|at: int| from <= at < end ==> #[trigger] whole[at] != quote && whole[at] != 0x5C,
        whole[end] == quote,
    ensures
        brace_change(whole, from, quote == 0x22, quote == 0x27, false) == brace_change(
            whole,
            end + 1,
            false,
            false,
            false,
        ),
    decreases end - from,
{
    if from < end {
        assert(whole[from] != quote && whole[from] != 0x5C);
        lemma_literal_braces(whole, from + 1, end, quote);
    }
}

proof fn lemma_back_braces(
    front: Seq<u8>,
    back: Seq<u8>,
    from: int,
    in_string: bool,
    in_char: bool,
    escaped: bool,
)
    requires
        0 <= from <= back.len(),
    ensures
        brace_change(front + back, front.len() + from, in_string, in_char, escaped)
            == brace_change(back, from, in_string, in_char, escaped),
    decreases back.len() - from,
{
    if from < back.len() {
        assert((front + back)[front.len() + from] == back[from]);
        let byte = back[from];
        let escape = !escaped && byte == 0x5C;
        let string = if !escaped && byte == 0x22 && !in_char {
            !in_string
        } else {
            in_string
        };
        let character = if !escaped && byte == 0x27 && !in_string {
            !in_char
        } else {
            in_char
        };
        lemma_back_braces(front, back, from + 1, string, character, escape);
    }
}

proof fn lemma_hidden(
    front: Seq<u8>,
    hidden: u8,
    back: Seq<u8>,
    from: int,
    in_string: bool,
    in_char: bool,
)
    requires
        0 <= from <= front.len(),
        !front.contains('\\' as u8),
    ensures
        brace_change(
            front + seq!['\\' as u8, hidden] + back,
            from,
            in_string,
            in_char,
            false,
        ) == brace_change(front + back, from, in_string, in_char, false),
    decreases front.len() - from,
{
    let whole = front + seq!['\\' as u8, hidden] + back;
    let short = front + back;
    if from < front.len() {
        assert(whole[from] == front[from] && short[from] == front[from]);
        assert(front.contains(front[from]));
        lemma_hidden(front, hidden, back, from + 1, in_string, in_char);
        lemma_hidden(front, hidden, back, from + 1, !in_string, in_char);
        lemma_hidden(front, hidden, back, from + 1, in_string, !in_char);
    } else {
        assert(whole[from] == 0x5C);
        lemma_back_braces(
            front + seq!['\\' as u8, hidden],
            back,
            0,
            in_string,
            in_char,
            false,
        );
        lemma_back_braces(front, back, 0, in_string, in_char, false);
        reveal_with_fuel(brace_change, 3);
    }
}

/// A backslash hides the byte behind it, in a literal and out of one: a quote there ends nothing and a
/// brace there counts for nothing.
pub proof fn a_backslash_hides_what_follows(front: Seq<u8>, hidden: u8, back: Seq<u8>)
    requires
        !front.contains('\\' as u8),
    ensures
        braces(front + seq!['\\' as u8, hidden] + back) == braces(front + back),
{
    lemma_hidden(front, hidden, back, 0, false, false);
}

proof fn lemma_skipped(
    front: Seq<u8>,
    other: u8,
    back: Seq<u8>,
    from: int,
    in_string: bool,
    in_char: bool,
    escaped: bool,
)
    requires
        0 <= from <= front.len(),
        other != '"' as u8 && other != '\'' as u8 && other != '\\' as u8 && other != '{' as u8
            && other != '}' as u8,
        front.len() > 0 ==> front.last() != '\\' as u8,
        from == front.len() ==> !escaped,
    ensures
        brace_change(front + seq![other] + back, from, in_string, in_char, escaped)
            == brace_change(front + back, from, in_string, in_char, escaped),
    decreases front.len() - from,
{
    let whole = front + seq![other] + back;
    let short = front + back;
    if from < front.len() {
        assert(whole[from] == front[from] && short[from] == front[from]);
        let byte = front[from];
        if escaped {
            lemma_skipped(front, other, back, from + 1, in_string, in_char, false);
        } else if byte == 0x5C {
            assert(from + 1 < front.len());
            lemma_skipped(front, other, back, from + 1, in_string, in_char, true);
        } else {
            lemma_skipped(front, other, back, from + 1, in_string, in_char, false);
            lemma_skipped(front, other, back, from + 1, !in_string, in_char, false);
            lemma_skipped(front, other, back, from + 1, in_string, !in_char, false);
        }
    } else {
        assert(whole[from] == other);
        lemma_back_braces(front + seq![other], back, 0, in_string, in_char, false);
        lemma_back_braces(front, back, 0, in_string, in_char, false);
        reveal_with_fuel(brace_change, 2);
    }
}

/// Nothing but quotes, braces and backslashes bears on the braces of a line: any other byte may be
/// put anywhere that no backslash stands in front of.
pub proof fn other_bytes_change_no_braces(front: Seq<u8>, other: u8, back: Seq<u8>)
    requires
        other != '"' as u8 && other != '\'' as u8 && other != '\\' as u8 && other != '{' as u8
            && other != '}' as u8,
        front.len() > 0 ==> front.last() != '\\' as u8,
    ensures
        braces(front + seq![other] + back) == braces(front + back),
{
    lemma_skipped(front, other, back, 0, false, false, false);
}

} // verus!
