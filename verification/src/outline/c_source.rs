//! Outlining C: header inclusions, function declarations and function definitions.

use vstd::prelude::*;

use crate::bytes::{
    begins_with, byte_position, lit, put, same_bytes, starts_with, trim_ascii, trim_ascii_start,
    trimmed, trimmed_start,
};
use crate::lines::{lemma_lines_step, line_at, LineIter, Newlines};
use crate::outline::element::{all_wf, outlined, ElementKind, Entry, Kind, OutlineElement, Outlined};
use crate::sz::{find, find_byte, index_of, lemma_index_of, split_whitespace, words};

verus! {

/// Whether `byte` can stand in a C identifier.
pub open spec fn identifier_byte(byte: u8) -> bool {
    0x30 <= byte <= 0x39 || 0x41 <= byte <= 0x5A || 0x61 <= byte <= 0x7A || byte == 0x5F
}

fn is_identifier_byte(byte: u8) -> (yes: bool)
    ensures
        yes == identifier_byte(byte),
{
    (0x30 <= byte && byte <= 0x39) || (0x41 <= byte && byte <= 0x5A) || (0x61 <= byte && byte
        <= 0x7A) || byte == 0x5F
}

/// The net brace change from `from` on, braces inside string and character literals aside and
/// whatever follows a backslash skipped.
pub open spec fn brace_change(
    line: Seq<u8>,
    from: int,
    in_string: bool,
    in_char: bool,
    escaped: bool,
) -> int
    decreases line.len() - from,
{
    if from < 0 || from >= line.len() {
        0
    } else {
        let byte = line[from];
        if escaped {
            brace_change(line, from + 1, in_string, in_char, false)
        } else if byte == 0x5C {
            brace_change(line, from + 1, in_string, in_char, true)
        } else if byte == 0x22 && !in_char {
            brace_change(line, from + 1, !in_string, in_char, false)
        } else if byte == 0x27 && !in_string {
            brace_change(line, from + 1, in_string, !in_char, false)
        } else if byte == 0x7B && !in_string && !in_char {
            1 + brace_change(line, from + 1, in_string, in_char, false)
        } else if byte == 0x7D && !in_string && !in_char {
            brace_change(line, from + 1, in_string, in_char, false) - 1
        } else {
            brace_change(line, from + 1, in_string, in_char, false)
        }
    }
}

/// The net brace change of a line.
pub open spec fn braces(line: Seq<u8>) -> int {
    brace_change(line, 0, false, false, false)
}

/// Count net brace changes, those inside strings and characters aside.
pub fn count_braces(line: &[u8]) -> (depth: i128)
    ensures
        depth == braces(line@),
        -(line@.len() as int) <= depth <= line@.len(),
{
    let mut depth: i128 = 0;
    let mut in_string = false;
    let mut in_char = false;
    let mut escaped = false;
    let mut index: usize = 0;
    while index < line.len()
        invariant
            index <= line@.len(),
            -(index as int) <= depth <= index,
            braces(line@) == depth + brace_change(
                line@,
                index as int,
                in_string,
                in_char,
                escaped,
            ),
        decreases line@.len() - index,
    {
        let byte: u8 = line[index];
        if escaped {
            escaped = false;
        } else if byte == 0x5C {
            escaped = true;
        } else if byte == 0x22 && !in_char {
            in_string = !in_string;
        } else if byte == 0x27 && !in_string {
            in_char = !in_char;
        } else if byte == 0x7B && !in_string && !in_char {
            depth = depth + 1;
        } else if byte == 0x7D && !in_string && !in_char {
            depth = depth - 1;
        }
        index += 1;
    }
    depth
}

/// Whether `data`, its surrounding whitespace aside, ends with `identifier` as a word of its own.
pub open spec fn ends_with_word(data: Seq<u8>, identifier: Seq<u8>) -> bool {
    let text = trimmed(data);
    let start = text.len() - identifier.len();
    &&& start >= 0
    &&& text.subrange(start, text.len() as int) == identifier
    &&& start > 0 ==> !identifier_byte(text[start - 1])
}

/// Check if data ends with a given identifier.
pub fn ends_with_identifier(data: &[u8], identifier: &[u8]) -> (ends: bool)
    ensures
        ends == ends_with_word(data@, identifier@),
{
    let text: &[u8] = trim_ascii(data);
    if text.len() < identifier.len() {
        return false;
    }
    let start: usize = text.len() - identifier.len();
    if !same_bytes(&text[start..text.len()], identifier) {
        return false;
    }
    // Must be a word boundary before.
    start == 0 || !is_identifier_byte(text[start - 1])
}

/// How many identifier bytes `data` ends with.
pub open spec fn identifier_tail(data: Seq<u8>) -> int
    decreases data.len(),
{
    if data.len() > 0 && identifier_byte(data.last()) {
        1 + identifier_tail(data.drop_last())
    } else {
        0
    }
}

/// The identifier `data` ends with, its surrounding whitespace aside.
pub open spec fn last_identifier(data: Seq<u8>) -> Option<Seq<u8>> {
    let text = trimmed(data);
    let width = identifier_tail(text);
    if width > 0 {
        Some(text.subrange(text.len() - width, text.len() as int))
    } else {
        None
    }
}

/// Extract the last identifier from data.
pub fn extract_last_identifier(data: &[u8]) -> (identifier: Option<&[u8]>)
    ensures
        match identifier {
            Some(identifier) => last_identifier(data@) == Some(identifier@),
            None => last_identifier(data@) is None,
        },
{
    let text: &[u8] = trim_ascii(data);
    let mut start: usize = text.len();
    assert(text@.subrange(0, text@.len() as int) =~= text@);
    while start > 0 && is_identifier_byte(text[start - 1])
        invariant
            start <= text@.len(),
            identifier_tail(text@) == text@.len() - start + identifier_tail(
                text@.subrange(0, start as int),
            ),
        decreases start,
    {
        proof {
            assert(text@.subrange(0, start as int).drop_last() =~= text@.subrange(0, start - 1));
        }
        start -= 1;
    }
    if start < text.len() {
        Some(&text[start..text.len()])
    } else {
        None
    }
}

/// Words with one space between each two.
pub open spec fn spaced(all: Seq<Seq<u8>>) -> Seq<u8>
    decreases all.len(),
{
    if all.len() == 0 {
        Seq::empty()
    } else if all.len() == 1 {
        all[0]
    } else {
        spaced(all.drop_last()).push(0x20) + all.last()
    }
}

/// A signature with its whitespace runs collapsed to single spaces.
pub open spec fn normalized(data: Seq<u8>) -> Seq<u8> {
    spaced(words(data))
}

/// Normalize a function signature: collapse whitespace runs to single spaces, via StringZilla's
/// whitespace splitter.
pub fn normalize_signature(data: &[u8]) -> (signature: Vec<u8>)
    ensures
        signature@ == normalized(data@),
{
    let tokens = split_whitespace(data);
    let ghost all = words(data@);
    let mut result: Vec<u8> = Vec::new();
    let mut index: usize = 0;
    while index < tokens.len()
        invariant
            index <= tokens@.len(),
            all == words(data@),
            tokens@.len() == all.len(),
            forall|i: int| 0 <= i < tokens@.len() ==> (#[trigger] tokens@[i])@ == all[i],
            result@ == spaced(all.take(index as int)),
        decreases tokens@.len() - index,
    {
        if index > 0 {
            result.push(0x20);
        }
        put(&mut result, tokens[index]);
        proof {
            let next = all.take(index + 1);
            assert(next.drop_last() =~= all.take(index as int));
            assert(next.last() == all[index as int]);
            if index == 0 {
                assert(next[0] == all[0]);
            }
        }
        index += 1;
    }
    assert(all.take(all.len() as int) =~= all);
    result
}

/// Whether every byte is an uppercase letter or an underscore, and there is more than one.
pub open spec fn macro_like(identifier: Seq<u8>) -> bool {
    &&& identifier.len() > 1
    &&& forall|i: int|
        0 <= i < identifier.len() ==> 0x41 <= #[trigger] identifier[i] <= 0x5A || identifier[i]
            == 0x5F
}

fn is_macro_like(identifier: &[u8]) -> (yes: bool)
    ensures
        yes == macro_like(identifier@),
{
    if identifier.len() <= 1 {
        return false;
    }
    let mut index: usize = 0;
    while index < identifier.len()
        invariant
            index <= identifier@.len(),
            identifier@.len() > 1,
            forall|i: int|
                0 <= i < index ==> 0x41 <= #[trigger] identifier@[i] <= 0x5A || identifier@[i]
                    == 0x5F,
        decreases identifier@.len() - index,
    {
        let byte: u8 = identifier[index];
        if !((0x41 <= byte && byte <= 0x5A) || byte == 0x5F) {
            assert(!(0x41 <= identifier@[index as int] <= 0x5A));
            return false;
        }
        index += 1;
    }
    true
}

/// What a line that may hold a function signature turns out to be.
pub ghost enum FunctionLine {
    Declaration(Seq<u8>),
    Definition(Seq<u8>),
    Incomplete(Seq<u8>),
}

/// Whether what stands before the parenthesis is a statement's keyword.
pub open spec fn control_flow(before: Seq<u8>) -> bool {
    ||| ends_with_word(before, lit("if"))
    ||| ends_with_word(before, lit("while"))
    ||| ends_with_word(before, lit("for"))
    ||| ends_with_word(before, lit("switch"))
    ||| ends_with_word(before, lit("catch"))
    ||| ends_with_word(before, lit("return"))
}

/// The line as a function signature, where it can be one: an identifier in front of a
/// parenthesis, neither a statement's keyword nor an all-capitals macro name.
pub open spec fn function_line(line: Seq<u8>) -> Option<FunctionLine> {
    let open = byte_position(line, 0x28, 0);
    if open >= line.len() || open == 0 {
        None
    } else {
        let before = line.subrange(0, open);
        match last_identifier(before) {
            None => None,
            Some(identifier) => if control_flow(before) || macro_like(identifier) {
                None
            } else {
                let behind = line.subrange(open, line.len() as int);
                let close = byte_position(behind, 0x29, 0);
                if close >= behind.len() {
                    // A signature that does not close on this line continues on the next.
                    Some(FunctionLine::Incomplete(line))
                } else {
                    let end = open + close + 1;
                    let signature = normalized(line.subrange(0, end));
                    let after = line.subrange(end, line.len() as int);
                    if byte_position(after, 0x3B, 0) < after.len() {
                        Some(FunctionLine::Declaration(signature))
                    } else if byte_position(line, 0x7B, 0) < line.len() {
                        Some(FunctionLine::Definition(signature))
                    } else {
                        Some(FunctionLine::Incomplete(line))
                    }
                }
            },
        }
    }
}

/// Result of attempting to parse a function line.
pub enum FunctionParseResult {
    Declaration(Vec<u8>),
    DefinitionStart(Vec<u8>),
    Incomplete(Vec<u8>),
}

impl View for FunctionParseResult {
    type V = FunctionLine;

    open spec fn view(&self) -> FunctionLine {
        match self {
            FunctionParseResult::Declaration(signature) => FunctionLine::Declaration(signature@),
            FunctionParseResult::DefinitionStart(signature) => FunctionLine::Definition(
                signature@,
            ),
            FunctionParseResult::Incomplete(line) => FunctionLine::Incomplete(line@),
        }
    }
}

/// Try to parse a line as a function signature.
pub fn try_parse_function_line(line: &[u8]) -> (result: Option<FunctionParseResult>)
    ensures
        match result {
            Some(result) => function_line(line@) == Some(result@) && (
            result matches FunctionParseResult::Incomplete(kept) ==> kept@ == line@),
            None => function_line(line@) is None,
        },
{
    // Must contain '(' for a function, with something before it.
    let open: usize = match find_byte(line, 0x28) {
        Some(open) => open,
        None => {
            return None;
        },
    };
    if open == 0 {
        return None;
    }
    let before: &[u8] = &line[0..open];
    if ends_with_identifier(before, "if".as_bytes()) || ends_with_identifier(
        before,
        "while".as_bytes(),
    ) || ends_with_identifier(before, "for".as_bytes()) || ends_with_identifier(
        before,
        "switch".as_bytes(),
    ) || ends_with_identifier(before, "catch".as_bytes()) || ends_with_identifier(
        before,
        "return".as_bytes(),
    ) {
        return None;
    }
    let identifier: &[u8] = match extract_last_identifier(before) {
        Some(identifier) => identifier,
        None => {
            return None;
        },
    };
    if is_macro_like(identifier) {
        return None;
    }
    let behind: &[u8] = &line[open..line.len()];
    let close: usize = match find_byte(behind, 0x29) {
        Some(close) => close,
        None => {
            return Some(FunctionParseResult::Incomplete(vstd::slice::slice_to_vec(line)));
        },
    };
    let end: usize = open + close + 1;
    let signature = normalize_signature(&line[0..end]);
    let after: &[u8] = &line[end..line.len()];
    if find_byte(after, 0x3B).is_some() {
        Some(FunctionParseResult::Declaration(signature))
    } else if find_byte(line, 0x7B).is_some() {
        Some(FunctionParseResult::DefinitionStart(signature))
    } else {
        // Could span lines (attributes, const, and so on).
        Some(FunctionParseResult::Incomplete(vstd::slice::slice_to_vec(line)))
    }
}

/// The signature in accumulated text: up to the first closing parenthesis behind the first opening
/// one.
pub open spec fn signature_of(data: Seq<u8>) -> Option<Seq<u8>> {
    let open = byte_position(data, 0x28, 0);
    if open >= data.len() {
        None
    } else {
        let behind = data.subrange(open, data.len() as int);
        let close = byte_position(behind, 0x29, 0);
        if close >= behind.len() {
            None
        } else {
            Some(normalized(data.subrange(0, open + close + 1)))
        }
    }
}

/// Extract the function signature from accumulated bytes.
pub fn extract_function_signature(data: &[u8]) -> (signature: Option<Vec<u8>>)
    ensures
        match signature {
            Some(signature) => signature_of(data@) == Some(signature@),
            None => signature_of(data@) is None,
        },
{
    match find_byte(data, 0x28) {
        None => None,
        Some(open) => {
            let behind: &[u8] = &data[open..data.len()];
            match find_byte(behind, 0x29) {
                None => None,
                Some(close) => Some(normalize_signature(&data[0..open + close + 1])),
            }
        },
    }
}

/// The path of an inclusion directive, and whether it names a system header.
pub open spec fn inclusion(line: Seq<u8>) -> Option<(Seq<u8>, bool)> {
    let keyword = lit("#include");
    if !begins_with(line, keyword) {
        None
    } else {
        let rest = trimmed_start(line.subrange(keyword.len() as int, line.len() as int));
        if rest.len() == 0 || (rest[0] != 0x3C && rest[0] != 0x22) {
            None
        } else {
            let path = rest.subrange(1, rest.len() as int);
            let end = byte_position(
                path,
                if rest[0] == 0x3C {
                    0x3E
                } else {
                    0x22
                },
                0,
            );
            if end < path.len() {
                Some((path.subrange(0, end), rest[0] == 0x3C))
            } else {
                None
            }
        }
    }
}

/// Parse an inclusion directive into the path and whether it is a system header.
pub fn parse_include(line: &[u8]) -> (parsed: Option<(&[u8], bool)>)
    ensures
        match parsed {
            Some((path, is_system)) => inclusion(line@) == Some((path@, is_system)),
            None => inclusion(line@) is None,
        },
{
    let keyword: &[u8] = "#include".as_bytes();
    if !starts_with(line, keyword) {
        return None;
    }
    let rest: &[u8] = trim_ascii_start(&line[keyword.len()..line.len()]);
    if rest.len() == 0 {
        return None;
    }
    let opening: u8 = rest[0];
    if opening == 0x3C {
        let path: &[u8] = &rest[1..rest.len()];
        match find_byte(path, 0x3E) {
            Some(end) => Some((&path[0..end], true)),
            None => None,
        }
    } else if opening == 0x22 {
        let path: &[u8] = &rest[1..rest.len()];
        match find_byte(path, 0x22) {
            Some(end) => Some((&path[0..end], false)),
            None => None,
        }
    } else {
        None
    }
}

/// Whether `data` holds `needle` anywhere.
pub open spec fn holds(data: Seq<u8>, needle: Seq<u8>) -> bool {
    index_of(data, needle, 0) is Some
}

/// A signature or a function being followed: the line and the byte it started at, and its text so
/// far.
pub ghost struct Started {
    pub line: int,
    pub offset: int,
    pub text: Seq<u8>,
}

/// What a scan has recorded and what it is inside after some of the lines.
pub ghost struct CScan {
    pub elements: Seq<Outlined>,
    pub depth: int,
    /// Inside a function's body.
    pub in_body: bool,
    pub function: Option<Started>,
    pub in_comment: bool,
    /// A signature that has not closed yet.
    pub pending: Option<Started>,
    /// How many lines have been scanned.
    pub number: int,
}

/// An element of a C outline, at the top level as all of them are.
pub open spec fn c_element(kind: Kind, name: Seq<u8>, line: int, offset: int, end: int, count: int) -> Outlined {
    Outlined {
        head: Entry {
            kind,
            name,
            line_number: line,
            byte_offset: offset,
            byte_length: end - offset,
            line_count: count,
        },
        children: Seq::empty(),
    }
}

/// The line in front of a line comment.
pub open spec fn effective(line: Seq<u8>) -> Seq<u8> {
    match index_of(line, seq![0x2Fu8, 0x2Fu8], 0) {
        Some(at) => line.subrange(0, at),
        None => line,
    }
}

/// The scan once a function's body opens on the line just read, which ends at byte `end`. A body
/// that its own line closes again is a whole definition.
pub open spec fn body_opened(scan: CScan, function: Started, depth: int, end: int) -> CScan {
    if depth <= 0 {
        CScan {
            elements: scan.elements.push(
                c_element(
                    Kind::FunctionDefinition,
                    function.text,
                    function.line,
                    function.offset,
                    end,
                    scan.number - function.line + 1,
                ),
            ),
            ..scan
        }
    } else {
        CScan { in_body: true, depth, function: Some(function), ..scan }
    }
}

/// The scan once a line of a pending signature is read.
pub open spec fn pending_scanned(scan: CScan, pending: Started, line: Seq<u8>, start: int) -> CScan {
    let number = scan.number + 1;
    let text = pending.text.push(0x20) + trimmed(effective(line));
    if byte_position(text, 0x3B, 0) < text.len() {
        CScan {
            elements: match signature_of(text) {
                Some(signature) => scan.elements.push(
                    c_element(
                        Kind::FunctionDeclaration,
                        signature,
                        pending.line,
                        pending.offset,
                        start + line.len(),
                        number - pending.line + 1,
                    ),
                ),
                None => scan.elements,
            },
            pending: None,
            number,
            ..scan
        }
    } else if byte_position(text, 0x7B, 0) < text.len() {
        match signature_of(text) {
            Some(signature) => body_opened(
                CScan { pending: None, number, ..scan },
                Started { line: pending.line, offset: pending.offset, text: signature },
                braces(text),
                start + line.len(),
            ),
            None => CScan { pending: None, number, ..scan },
        }
    } else {
        CScan { pending: Some(Started { text, ..pending }), number, ..scan }
    }
}

/// The scan once a line outside any function and any signature is read.
pub open spec fn outer_scanned(scan: CScan, line: Seq<u8>, start: int) -> CScan {
    let number = scan.number + 1;
    let text = trimmed(effective(line));
    match inclusion(text) {
        Some((path, is_system)) => CScan {
            elements: scan.elements.push(
                c_element(
                    Kind::Include { is_system },
                    path,
                    number,
                    start,
                    start + line.len(),
                    1,
                ),
            ),
            number,
            ..scan
        },
        // Other preprocessor directives are skipped.
        None => if text.len() > 0 && text[0] == 0x23 {
            CScan { number, ..scan }
        } else {
            match function_line(text) {
                None => CScan { number, ..scan },
                Some(FunctionLine::Declaration(signature)) => CScan {
                    elements: scan.elements.push(
                        c_element(
                            Kind::FunctionDeclaration,
                            signature,
                            number,
                            start,
                            start + line.len(),
                            1,
                        ),
                    ),
                    number,
                    ..scan
                },
                Some(FunctionLine::Definition(signature)) => body_opened(
                    CScan { number, ..scan },
                    Started { line: number, offset: start, text: signature },
                    braces(text),
                    start + line.len(),
                ),
                Some(FunctionLine::Incomplete(kept)) => CScan {
                    pending: Some(Started { line: number, offset: start, text: kept }),
                    number,
                    ..scan
                },
            }
        },
    }
}

/// The scan once a line of a function's body is read.
pub open spec fn body_scanned(scan: CScan, line: Seq<u8>, start: int) -> CScan {
    let number = scan.number + 1;
    let depth = scan.depth + braces(effective(line));
    if depth <= 0 {
        CScan {
            elements: match scan.function {
                Some(function) => scan.elements.push(
                    c_element(
                        Kind::FunctionDefinition,
                        function.text,
                        function.line,
                        function.offset,
                        start + line.len(),
                        number - function.line + 1,
                    ),
                ),
                None => scan.elements,
            },
            function: None,
            in_body: false,
            depth: 0,
            number,
            ..scan
        }
    } else {
        CScan { depth, number, ..scan }
    }
}

/// The scan once the line at byte `start` is read.
pub open spec fn c_scanned(scan: CScan, line: Seq<u8>, start: int) -> CScan {
    let opens = holds(line, seq![0x2Fu8, 0x2Au8]);
    let closes = holds(line, seq![0x2Au8, 0x2Fu8]);
    if scan.in_comment {
        CScan { in_comment: !closes, number: scan.number + 1, ..scan }
    } else if opens && !closes {
        CScan { in_comment: true, number: scan.number + 1, ..scan }
    } else {
        match scan.pending {
            Some(pending) => pending_scanned(scan, pending, line, start),
            None => if !scan.in_body {
                outer_scanned(scan, line, start)
            } else {
                body_scanned(scan, line, start)
            },
        }
    }
}

/// The scan once every line from byte `at` on is read.
pub open spec fn c_scanned_from(data: Seq<u8>, newlines: Newlines, at: int, scan: CScan) -> CScan
    decreases data.len() - at,
{
    if at < 0 || at >= data.len() {
        scan
    } else {
        let line = line_at(data, at, newlines);
        proof {
            lemma_lines_step(data, at, newlines);
        }
        if line.end <= at {
            scan
        } else {
            c_scanned_from(data, newlines, line.end, c_scanned(scan, line.as_cut(data), at))
        }
    }
}

pub open spec fn fresh_c_scan() -> CScan {
    CScan {
        elements: Seq::empty(),
        depth: 0,
        in_body: false,
        function: None,
        in_comment: false,
        pending: None,
        number: 0,
    }
}

/// The outline of a C text.
pub open spec fn c_outline(data: Seq<u8>, newlines: Newlines) -> Seq<Outlined> {
    c_scanned_from(data, newlines, 0, fresh_c_scan()).elements
}

/// A signature or a function being followed.
#[derive(Debug)]
pub struct Following {
    line: usize,
    offset: usize,
    text: Vec<u8>,
}

spec fn started(following: Option<Following>) -> Option<Started> {
    match following {
        Some(following) => Some(
            Started {
                line: following.line as int,
                offset: following.offset as int,
                text: following.text@,
            },
        ),
        None => None,
    }
}

/// Record one element at the top level.
fn push_top(
    elements: &mut Vec<OutlineElement>,
    kind: ElementKind,
    name: Vec<u8>,
    start: (usize, usize),
    end: usize,
    last_line: usize,
)
    requires
        all_wf(old(elements)@),
        1 <= start.0 <= last_line,
        start.1 <= end,
    ensures
        all_wf(final(elements)@),
        outlined(final(elements)@) == outlined(old(elements)@).push(
            c_element(
                kind@,
                name@,
                start.0 as int,
                start.1 as int,
                end as int,
                last_line - start.0 + 1,
            ),
        ),
{
    let element = OutlineElement::new(kind, name, start.0, start.1).with_length(
        end - start.1,
        last_line - start.0 + 1,
    );
    proof {
        assert(element.children@.map_values(|child: OutlineElement| child.entry()) =~= Seq::empty());
    }
    elements.push(element);
    proof {
        assert(outlined(elements@) =~= outlined(old(elements)@).push(element@));
    }
}

fn contains(data: &[u8], first: u8, second: u8) -> (found: Option<usize>)
    ensures
        match found {
            Some(at) => index_of(data@, seq![first, second], 0) == Some(at as int) && at + 2
                <= data@.len(),
            None => index_of(data@, seq![first, second], 0) is None,
        },
{
    let needle: [u8; 2] = [first, second];
    let found = find(data, needle.as_slice());
    proof {
        assert(needle@ =~= seq![first, second]);
        lemma_index_of(data@, needle@, 0);
    }
    found
}

/// Parse a C source text and extract its outline elements.
#[verifier::rlimit(40)]
pub fn parse_c(data: &[u8], newlines: Newlines) -> (elements: Vec<OutlineElement>)
    ensures
        outlined(elements@) == c_outline(data@, newlines),
        all_wf(elements@),
{
    let mut elements: Vec<OutlineElement> = Vec::new();
    let mut line_number: usize = 0;
    let mut brace_depth: i128 = 0;
    let mut in_function_body = false;
    let mut function_start: Option<Following> = None;
    let mut in_multiline_comment = false;
    let mut pending_signature: Option<Following> = None;
    let mut iter = LineIter::new(data, newlines);
    assert(outlined(elements@) =~= Seq::empty());
    loop
        invariant
            iter.wf(),
            iter.input() == data@,
            iter.newlines() == newlines,
            line_number <= iter.at() <= data@.len(),
            all_wf(elements@),
            function_start matches Some(function) ==> 1 <= function.line <= line_number
                && function.offset <= iter.at(),
            pending_signature matches Some(pending) ==> 1 <= pending.line <= line_number
                && pending.offset <= iter.at() && pending.text@.len() <= 2 * iter.at(),
            -3 * iter.at() <= brace_depth <= 3 * iter.at(),
            c_scanned_from(data@, newlines, 0, fresh_c_scan()) == c_scanned_from(
                data@,
                newlines,
                iter.at(),
                CScan {
                    elements: outlined(elements@),
                    depth: brace_depth as int,
                    in_body: in_function_body,
                    function: started(function_start),
                    in_comment: in_multiline_comment,
                    pending: started(pending_signature),
                    number: line_number as int,
                },
            ),
        ensures
            iter.at() == data@.len(),
        decreases data@.len() - iter.at(),
    {
        let ghost before = CScan {
            elements: outlined(elements@),
            depth: brace_depth as int,
            in_body: in_function_body,
            function: started(function_start),
            in_comment: in_multiline_comment,
            pending: started(pending_signature),
            number: line_number as int,
        };
        let ghost at = iter.at();
        let cut = match iter.next_cut() {
            Some(cut) => cut,
            None => {
                break;
            },
        };
        let line: &[u8] = &data[cut.start..cut.cut];
        line_number += 1;
        let ghost after = c_scanned(before, line@, at);
        proof {
            lemma_lines_step(data@, at, newlines);
            assert(line@ == line_at(data@, at, newlines).as_cut(data@));
        }
        let closes = contains(line, 0x2A, 0x2F).is_some();
        if in_multiline_comment {
            if closes {
                in_multiline_comment = false;
            }
        } else if contains(line, 0x2F, 0x2A).is_some() && !closes {
            in_multiline_comment = true;
        } else {
            // A line comment ends what is parsed.
            let effective_line: &[u8] = match contains(line, 0x2F, 0x2F) {
                Some(position) => &line[0..position],
                None => line,
            };
            assert(effective_line@ == effective(line@));
            let text: &[u8] = trim_ascii(effective_line);
            if let Some(pending) = pending_signature.take() {
                let mut signature_bytes = pending.text;
                signature_bytes.push(0x20);
                put(&mut signature_bytes, text);
                assert(signature_bytes@ =~= pending.text@.push(0x20) + text@);
                let bytes: &[u8] = signature_bytes.as_slice();
                if find_byte(bytes, 0x3B).is_some() {
                    if let Some(signature) = extract_function_signature(bytes) {
                        push_top(
                            &mut elements,
                            ElementKind::FunctionDeclaration,
                            signature,
                            (pending.line, pending.offset),
                            cut.cut,
                            line_number,
                        );
                    }
                } else if find_byte(bytes, 0x7B).is_some() {
                    if let Some(signature) = extract_function_signature(bytes) {
                        let opened: i128 = count_braces(bytes);
                        if opened <= 0 {
                            push_top(
                                &mut elements,
                                ElementKind::FunctionDefinition,
                                signature,
                                (pending.line, pending.offset),
                                cut.cut,
                                line_number,
                            );
                        } else {
                            in_function_body = true;
                            brace_depth = opened;
                            function_start = Some(
                                Following {
                                    line: pending.line,
                                    offset: pending.offset,
                                    text: signature,
                                },
                            );
                        }
                    }
                } else {
                    pending_signature = Some(
                        Following {
                            line: pending.line,
                            offset: pending.offset,
                            text: signature_bytes,
                        },
                    );
                }
            } else if !in_function_body {
                if let Some((path, is_system)) = parse_include(text) {
                    push_top(
                        &mut elements,
                        ElementKind::Include { is_system },
                        vstd::slice::slice_to_vec(path),
                        (line_number, cut.start),
                        cut.cut,
                        line_number,
                    );
                } else if text.len() > 0 && text[0] == 0x23 {
                } else if let Some(result) = try_parse_function_line(text) {
                    match result {
                        FunctionParseResult::Declaration(signature) => {
                            push_top(
                                &mut elements,
                                ElementKind::FunctionDeclaration,
                                signature,
                                (line_number, cut.start),
                                cut.cut,
                                line_number,
                            );
                        },
                        FunctionParseResult::DefinitionStart(signature) => {
                            let opened: i128 = count_braces(text);
                            if opened <= 0 {
                                push_top(
                                    &mut elements,
                                    ElementKind::FunctionDefinition,
                                    signature,
                                    (line_number, cut.start),
                                    cut.cut,
                                    line_number,
                                );
                            } else {
                                in_function_body = true;
                                brace_depth = opened;
                                function_start = Some(
                                    Following {
                                        line: line_number,
                                        offset: cut.start,
                                        text: signature,
                                    },
                                );
                            }
                        },
                        FunctionParseResult::Incomplete(kept) => {
                            pending_signature = Some(
                                Following { line: line_number, offset: cut.start, text: kept },
                            );
                        },
                    }
                }
            } else {
                brace_depth = brace_depth + count_braces(effective_line);
                if brace_depth <= 0 {
                    if let Some(function) = function_start.take() {
                        push_top(
                            &mut elements,
                            ElementKind::FunctionDefinition,
                            function.text,
                            (function.line, function.offset),
                            cut.cut,
                            line_number,
                        );
                    }
                    in_function_body = false;
                    brace_depth = 0;
                }
            }
        }
        assert(after == (CScan {
            elements: outlined(elements@),
            depth: brace_depth as int,
            in_body: in_function_body,
            function: started(function_start),
            in_comment: in_multiline_comment,
            pending: started(pending_signature),
            number: line_number as int,
        }));
    }
    elements
}

} // verus!
