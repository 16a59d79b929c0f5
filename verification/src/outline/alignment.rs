//! How the rows of a printed outline line up.

use vstd::prelude::*;
use vstd::utf8::{encode_utf8, is_ascii_chars, is_ascii_chars_encode_utf8};

use crate::bytes::{decimal, lit};
use crate::lines::{lemma_lines_step, line_at, Newlines};
use crate::outline::c_source::{c_outline, c_scanned, c_scanned_from, fresh_c_scan, CScan};
use crate::outline::element::{pushed, Entry, Kind, Outlined};
use crate::outline::markdown::{
    closed, fence_of, fresh_scan, heading_of, image_of, scanned, scanned_from, unindented, Scan,
};
use crate::outline::render::{
    c_lines, child_columns, child_line, child_lines, column_of, element_lines, hashes, head_columns,
    heading_line, label_of, left_of, line_range, lossy, outline_of, selected, widest_child, Detail,
    Language,
};
use crate::padding::{missing, padded, repeated};

verus! {

/// The entries that print a row of their own under this element: its own, and those of its blocks
/// where they are asked for.
pub open spec fn rows_of(element: Outlined, detail: Detail, language: Language) -> Seq<Entry> {
    if language == Language::Md && element.head.kind is Heading && detail == Detail::Blocks {
        seq![element.head] + element.children
    } else {
        seq![element.head]
    }
}

/// The row an entry prints.
pub open spec fn row(entry: Entry, detail: Detail, language: Language, column: int) -> Seq<u8> {
    match (language, entry.kind) {
        (Language::Md, Kind::Heading { level }) => heading_line(entry, level, detail, column),
        (Language::Md, _) => child_line(entry, column),
        _ => c_lines(entry, detail, column),
    }
}

/// The rows of these entries, one behind the other.
pub open spec fn rows(
    entries: Seq<Entry>,
    count: int,
    detail: Detail,
    language: Language,
    column: int,
) -> Seq<u8>
    decreases count,
{
    if count <= 0 {
        Seq::empty()
    } else {
        rows(entries, count - 1, detail, language, column) + row(
            entries[count - 1],
            detail,
            language,
            column,
        )
    }
}

/// Whether the row of an entry carries bracketed details.
pub open spec fn is_detailed(entry: Entry, detail: Detail, language: Language) -> bool {
    match (language, entry.kind) {
        (Language::Md, Kind::Heading { .. }) => detail != Detail::Headings,
        (Language::Md, _) => true,
        (_, Kind::Include { .. }) => detail != Detail::Headings,
        (_, Kind::FunctionDeclaration) => true,
        (_, Kind::FunctionDefinition) => true,
        _ => false,
    }
}

/// What stands in front of the name in a row.
pub open spec fn prefix_of(kind: Kind, language: Language) -> Seq<char> {
    match (language, kind) {
        (Language::Md, Kind::Heading { level }) => Seq::new(
            hashes(level).len(),
            |at: int| '#',
        ).push(' '),
        (Language::Md, _) => "  - "@,
        (_, Kind::Include { .. }) => "#include "@,
        _ => Seq::empty(),
    }
}

/// What a row says an entry is.
pub open spec fn name_of(entry: Entry, language: Language) -> Seq<char> {
    let name = lossy(entry.name);
    match (language, entry.kind) {
        (Language::Md, Kind::Heading { .. }) => name,
        (Language::Md, _) => label_of(entry.kind),
        (_, Kind::Include { is_system }) => (if is_system {
            "<"@
        } else {
            "\""@
        }) + name + (if is_system {
            ">"@
        } else {
            "\""@
        }),
        _ => name,
    }
}

/// `count` spaces.
pub open spec fn spaces(count: nat) -> Seq<char> {
    Seq::new(count, |at: int| ' ')
}

/// The text in front of a row's details: what the entry is, behind its prefix, filled up with spaces.
pub open spec fn named_part(entry: Entry, language: Language, column: int) -> Seq<char> {
    let prefix = prefix_of(entry.kind, language);
    let name = name_of(entry, language);
    prefix + name + spaces(
        missing(name.len() as int, left_of(column, prefix.len() as int)),
    )
}

/// Whether a text holds the mark that opens details.
pub open spec fn holds_mark(text: Seq<char>) -> bool {
    exists|at: int| 0 <= at < text.len() - 1 && #[trigger] text[at] == ' ' && text[at + 1] == '['
}

/// Encoding two texts at once is encoding the one and then the other.
proof fn lemma_encode_joins(one: Seq<char>, two: Seq<char>)
    ensures
        encode_utf8(one + two) == encode_utf8(one) + encode_utf8(two),
    decreases one.len(),
{
    if one.len() == 0 {
        assert(one + two =~= two);
        assert(encode_utf8(one) + encode_utf8(two) =~= encode_utf8(two));
    } else {
        assert((one + two).drop_first() =~= one.drop_first() + two);
        assert((one + two)[0] == one[0]);
        lemma_encode_joins(one.drop_first(), two);
        let first = vstd::utf8::encode_scalar(one[0] as u32);
        assert(first + (encode_utf8(one.drop_first()) + encode_utf8(two)) =~= first + encode_utf8(
            one.drop_first(),
        ) + encode_utf8(two));
    }
}

/// Spaces as bytes.
proof fn lemma_spaces(count: nat)
    ensures
        repeated(encode_utf8(" "@), count) == encode_utf8(spaces(count)),
    decreases count,
{
    if count == 0 {
        assert(spaces(0) =~= Seq::empty());
    } else {
        let fewer = (count - 1) as nat;
        lemma_spaces(fewer);
        lemma_encode_joins(spaces(fewer), " "@);
        assert(spaces(count) =~= spaces(fewer) + " "@) by {
            reveal_strlit(" ");
        }
    }
}

/// A prefix, a padded name and what follows it, as one text and what follows it.
proof fn lemma_named_part(entry: Entry, language: Language, column: int)
    ensures
        ({
            let prefix = prefix_of(entry.kind, language);
            encode_utf8(named_part(entry, language, column)) == encode_utf8(prefix) + padded(
                name_of(entry, language),
                left_of(column, prefix.len() as int),
            )
        }),
{
    let prefix = prefix_of(entry.kind, language);
    let name = name_of(entry, language);
    let count = missing(name.len() as int, left_of(column, prefix.len() as int));
    lemma_spaces(count);
    lemma_encode_joins(prefix + name, spaces(count));
    lemma_encode_joins(prefix, name);
    assert(encode_utf8(prefix) + encode_utf8(name) + encode_utf8(spaces(count)) =~= encode_utf8(
        prefix,
    ) + (encode_utf8(name) + encode_utf8(spaces(count))));
}

/// The run of `#` in front of a heading, as text.
proof fn lemma_hashes(level: int)
    ensures
        encode_utf8(Seq::new(hashes(level).len(), |at: int| '#').push(' ')) == hashes(level) + lit(
            " ",
        ),
{
    let marks = Seq::new(hashes(level).len(), |at: int| '#');
    assert(is_ascii_chars(marks));
    is_ascii_chars_encode_utf8(marks);
    assert(encode_utf8(marks) =~= hashes(level));
    lemma_encode_joins(marks, " "@);
    assert(marks.push(' ') =~= marks + " "@) by {
        reveal_strlit(" ");
    }
}

/// What stands behind `front` begins with a mark where it begins with a text that does.
proof fn lemma_mark(front: Seq<u8>, opening: Seq<char>, behind: Seq<char>, rest: Seq<u8>)
    requires
        opening == " ["@ + behind,
    ensures
        (front + lit(" [")).is_prefix_of(front + encode_utf8(opening) + rest),
{
    lemma_encode_joins(" ["@, behind);
    let whole = front + encode_utf8(opening) + rest;
    let shorter = front + lit(" [");
    assert(whole.subrange(0, shorter.len() as int) =~= shorter);
}

/// The row of a heading that carries details.
proof fn lemma_heading_row(entry: Entry, level: int, detail: Detail, column: int)
    requires
        entry.kind == (Kind::Heading { level }),
        detail != Detail::Headings,
    ensures
        (encode_utf8(named_part(entry, Language::Md, column)) + lit(" [")).is_prefix_of(
            heading_line(entry, level, detail, column),
        ),
{
    let front = encode_utf8(named_part(entry, Language::Md, column));
    let whole = heading_line(entry, level, detail, column);
    lemma_named_part(entry, Language::Md, column);
    lemma_hashes(level);
    reveal_strlit(" [");
    if detail == Detail::Positions {
        reveal_strlit(" [L");
        let rest = decimal(entry.line_number as nat) + lit(", @") + decimal(
            entry.byte_offset as nat,
        ) + lit("]\n");
        assert(" [L"@ =~= " ["@ + seq!['L']);
        assert(whole == front + lit(" [L") + rest) by {
            broadcast use crate::bytes::group_append;

        }
        lemma_mark(front, " [L"@, seq!['L'], rest);
    } else {
        let rest = line_range(entry) + lit(", @") + decimal(entry.byte_offset as nat) + lit(", ")
            + decimal(entry.byte_length as nat) + lit("B]\n");
        assert(" ["@ =~= " ["@ + Seq::<char>::empty());
        assert(whole =~= front + lit(" [") + rest);
        lemma_mark(front, " ["@, Seq::empty(), rest);
    }
}

/// The row of a block.
proof fn lemma_block_row(entry: Entry, column: int)
    requires
        !(entry.kind is Heading),
    ensures
        (encode_utf8(named_part(entry, Language::Md, column)) + lit(" [")).is_prefix_of(
            child_line(entry, column),
        ),
{
    let front = encode_utf8(named_part(entry, Language::Md, column));
    let rest = line_range(entry) + lit(", ") + decimal(entry.byte_length as nat) + lit("B]\n");
    lemma_named_part(entry, Language::Md, column);
    reveal_strlit("  - ");
    assert(" ["@ =~= " ["@ + Seq::<char>::empty());
    assert(child_line(entry, column) =~= front + lit(" [") + rest);
    lemma_mark(front, " ["@, Seq::empty(), rest);
}

/// The row of an inclusion that carries details.
proof fn lemma_include_row(entry: Entry, detail: Detail, language: Language, column: int)
    requires
        language != Language::Md,
        entry.kind is Include,
        detail != Detail::Headings,
    ensures
        (encode_utf8(named_part(entry, language, column)) + lit(" [")).is_prefix_of(
            c_lines(entry, detail, column),
        ),
{
    let front = encode_utf8(named_part(entry, language, column));
    let rest = decimal(entry.line_number as nat) + lit(", @") + decimal(entry.byte_offset as nat)
        + lit("]\n");
    lemma_named_part(entry, language, column);
    reveal_strlit("#include ");
    reveal_strlit(" [");
    reveal_strlit(" [L");
    assert(" [L"@ =~= " ["@ + seq!['L']);
    assert(c_lines(entry, detail, column) =~= front + lit(" [L") + rest);
    lemma_mark(front, " [L"@, seq!['L'], rest);
}

/// The row of a declaration.
proof fn lemma_declaration_row(entry: Entry, detail: Detail, language: Language, column: int)
    requires
        language != Language::Md,
        entry.kind is FunctionDeclaration,
        0 <= column,
    ensures
        (encode_utf8(named_part(entry, language, column)) + lit(" [")).is_prefix_of(
            c_lines(entry, detail, column),
        ),
{
    let front = encode_utf8(named_part(entry, language, column));
    let whole = c_lines(entry, detail, column);
    lemma_unprefixed(entry, language, column);
    reveal_strlit(" [");
    if detail == Detail::Headings {
        reveal_strlit(" [declaration]\n");
        let behind = " [declaration]\n"@.subrange(2, " [declaration]\n"@.len() as int);
        assert(" [declaration]\n"@ =~= " ["@ + behind);
        assert(whole =~= front + lit(" [declaration]\n") + Seq::<u8>::empty());
        lemma_mark(front, " [declaration]\n"@, behind, Seq::empty());
    } else {
        reveal_strlit(" [L");
        assert(" [L"@ =~= " ["@ + seq!['L']);
        let place = decimal(entry.line_number as nat) + lit(", @") + decimal(
            entry.byte_offset as nat,
        );
        let rest = if detail == Detail::Positions {
            place + lit(", declaration]\n")
        } else {
            place + lit(", ") + decimal(entry.byte_length as nat) + lit("B, declaration]\n")
        };
        assert(whole == front + lit(" [L") + rest) by {
            broadcast use crate::bytes::group_append;

        }
        lemma_mark(front, " [L"@, seq!['L'], rest);
    }
}

/// The row of a definition.
proof fn lemma_definition_row(entry: Entry, detail: Detail, language: Language, column: int)
    requires
        language != Language::Md,
        entry.kind is FunctionDefinition,
        0 <= column,
    ensures
        (encode_utf8(named_part(entry, language, column)) + lit(" [")).is_prefix_of(
            c_lines(entry, detail, column),
        ),
{
    let front = encode_utf8(named_part(entry, language, column));
    let whole = c_lines(entry, detail, column);
    lemma_unprefixed(entry, language, column);
    reveal_strlit(" [");
    if detail == Detail::Headings {
        reveal_strlit(" [definition]\n");
        let behind = " [definition]\n"@.subrange(2, " [definition]\n"@.len() as int);
        assert(" [definition]\n"@ =~= " ["@ + behind);
        assert(whole =~= front + lit(" [definition]\n") + Seq::<u8>::empty());
        lemma_mark(front, " [definition]\n"@, behind, Seq::empty());
    } else {
        reveal_strlit(" [L");
        assert(" [L"@ =~= " ["@ + seq!['L']);
        let last = decimal((entry.line_number + entry.line_count - 1) as nat);
        let place = decimal(entry.line_number as nat) + lit("-") + last + lit(", @") + decimal(
            entry.byte_offset as nat,
        );
        let rest = if detail == Detail::Positions {
            place + lit(", definition]\n")
        } else {
            place + lit(", ") + decimal(entry.byte_length as nat) + lit("B, ") + decimal(
                entry.line_count as nat,
            ) + lit(" lines, definition]\n")
        };
        assert(whole == front + lit(" [L") + rest) by {
            broadcast use crate::bytes::group_append;

        }
        lemma_mark(front, " [L"@, seq!['L'], rest);
    }
}

/// The row of an entry that carries details is what the entry is, filled up to the column, and then
/// the details.
proof fn lemma_row(entry: Entry, detail: Detail, language: Language, column: int)
    requires
        is_detailed(entry, detail, language),
        0 <= column,
    ensures
        (encode_utf8(named_part(entry, language, column)) + lit(" [")).is_prefix_of(
            row(entry, detail, language, column),
        ),
{
    match (language, entry.kind) {
        (Language::Md, Kind::Heading { level }) => {
            lemma_heading_row(entry, level, detail, column);
        },
        (Language::Md, _) => {
            lemma_block_row(entry, column);
        },
        (_, Kind::Include { .. }) => {
            lemma_include_row(entry, detail, language, column);
        },
        (_, Kind::FunctionDeclaration) => {
            lemma_declaration_row(entry, detail, language, column);
        },
        _ => {
            lemma_definition_row(entry, detail, language, column);
        },
    }
}

/// A name that stands behind no prefix is only filled up.
proof fn lemma_unprefixed(entry: Entry, language: Language, column: int)
    requires
        prefix_of(entry.kind, language).len() == 0,
        0 <= column,
    ensures
        encode_utf8(named_part(entry, language, column)) == padded(
            name_of(entry, language),
            column,
        ),
{
    lemma_named_part(entry, language, column);
    let prefix = prefix_of(entry.kind, language);
    assert(prefix =~= Seq::empty());
    let text = padded(name_of(entry, language), left_of(column, 0));
    assert(encode_utf8(prefix) + text =~= text);
}

/// Whether the elements of an outline in this language are of kinds that the language has, with no
/// heading among a heading's blocks.
pub open spec fn belongs(element: Outlined, language: Language) -> bool {
    match language {
        Language::Md => {
            &&& is_markdown(element.head.kind)
            &&& forall|at: int|
                0 <= at < element.children.len() ==> is_markdown(
                    (#[trigger] element.children[at]).kind,
                ) && !(element.children[at].kind is Heading)
        },
        _ => {
            &&& !is_markdown(element.head.kind)
            &&& element.children.len() == 0
        },
    }
}

/// Whether a kind is one of Markdown's.
pub open spec fn is_markdown(kind: Kind) -> bool {
    !(kind is Include) && !(kind is FunctionDeclaration) && !(kind is FunctionDefinition)
}

/// No child takes more columns than the widest of them, and none makes the widest narrower.
proof fn lemma_widest(children: Seq<Entry>, count: int, column: int, at: int)
    requires
        0 <= count <= children.len(),
    ensures
        column <= widest_child(children, count, column),
        0 <= at < count ==> child_columns(children[at].kind) <= widest_child(
            children,
            count,
            column,
        ),
    decreases count,
{
    if count > 0 {
        lemma_widest(children, count - 1, column, at);
    }
}

/// No element takes more columns than the detail column leaves.
proof fn lemma_column(elements: Seq<Outlined>, count: int, detail: Detail, index: int, at: int)
    requires
        0 <= index < count <= elements.len(),
    ensures
        head_columns(elements[index].head, detail) <= column_of(elements, count, detail),
        detail == Detail::Blocks && 0 <= at < elements[index].children.len() ==> child_columns(
            elements[index].children[at].kind,
        ) <= column_of(elements, count, detail),
    decreases count,
{
    let element = elements[count - 1];
    let before = column_of(elements, count - 1, detail);
    let own = head_columns(element.head, detail);
    let column = if before > own {
        before
    } else {
        own
    };
    lemma_widest(element.children, element.children.len() as int, column, at);
    if index < count - 1 {
        lemma_column(elements, count - 1, detail, index, at);
    }
}

/// Rows hold a mark in front of their details only where the name does, or begins with a bracket.
proof fn lemma_no_mark(entry: Entry, language: Language, column: int)
    requires
        !holds_mark(spaces(1) + name_of(entry, language)),
    ensures
        !holds_mark(named_part(entry, language, column)),
{
    let prefix = prefix_of(entry.kind, language);
    let name = name_of(entry, language);
    let text = named_part(entry, language, column);
    reveal_strlit("  - ");
    reveal_strlit("#include ");
    assert forall|at: int| 0 <= at < text.len() - 1 && #[trigger] text[at] == ' ' implies text[at + 1]
        != '[' by {
        let led = spaces(1) + name;
        let inside = at - prefix.len() + 1;
        if at + 1 < prefix.len() {
            assert(text[at + 1] == prefix[at + 1]);
        } else if at + 1 < prefix.len() + name.len() {
            assert(text[at + 1] == name[at + 1 - prefix.len()]);
            if inside > 0 {
                assert(text[at] == name[inside - 1]);
            }
            assert(led[inside] == ' ');
            assert(led[inside + 1] == text[at + 1]);
        }
    }
}

/// All rows of an outline share one detail column, which [`column_of`] gives: the text in front of
/// the details takes exactly that many characters in every row that carries details, and details
/// follow it at once. Unless a name holds the mark that opens details, or begins with its bracket,
/// that is the first mark in the row.
pub proof fn every_row_shares_the_detail_column(
    elements: Seq<Outlined>,
    index: int,
    at: int,
    detail: Detail,
    language: Language,
)
    requires
        0 <= index < elements.len(),
        belongs(elements[index], language),
        selected(elements[index].head.kind, detail),
        0 <= at < rows_of(elements[index], detail, language).len(),
        is_detailed(rows_of(elements[index], detail, language)[at], detail, language),
        // A width that a machine can count.
        column_of(elements, elements.len() as int, detail) < usize::MAX,
    ensures
        ({
            let entry = rows_of(elements[index], detail, language)[at];
            let column = column_of(elements, elements.len() as int, detail);
            let text = named_part(entry, language, column);
            &&& text.len() == column
            &&& (encode_utf8(text) + lit(" [")).is_prefix_of(row(entry, detail, language, column))
            &&& !holds_mark(spaces(1) + name_of(entry, language)) ==> !holds_mark(text)
        }),
{
    let element = elements[index];
    let entry = rows_of(element, detail, language)[at];
    let column = column_of(elements, elements.len() as int, detail);
    lemma_column(elements, elements.len() as int, detail, index, at - 1);
    reveal_strlit("  - ");
    reveal_strlit("#include ");
    reveal_strlit("<");
    reveal_strlit(">");
    reveal_strlit("\"");
    if at > 0 {
        assert(entry == element.children[at - 1]);
    }
    assert(named_part(entry, language, column).len() == column);
    lemma_row(entry, detail, language, column);
    if !holds_mark(spaces(1) + name_of(entry, language)) {
        lemma_no_mark(entry, language, column);
    }
}

/// The rows of children are the rows of the entries behind the first.
proof fn lemma_child_rows(element: Outlined, count: int, column: int)
    requires
        belongs(element, Language::Md),
        element.head.kind is Heading,
        0 <= count <= element.children.len(),
    ensures
        rows(
            rows_of(element, Detail::Blocks, Language::Md),
            count + 1,
            Detail::Blocks,
            Language::Md,
            column,
        ) == row(element.head, Detail::Blocks, Language::Md, column) + child_lines(
            element.children,
            count,
            column,
        ),
    decreases count,
{
    let entries = rows_of(element, Detail::Blocks, Language::Md);
    let head = row(element.head, Detail::Blocks, Language::Md, column);
    if count == 0 {
        assert(rows(entries, 0, Detail::Blocks, Language::Md, column) + head =~= head
            + Seq::<u8>::empty());
    } else {
        lemma_child_rows(element, count - 1, column);
        assert(entries[count] == element.children[count - 1]);
        let earlier = child_lines(element.children, count - 1, column);
        let last = child_line(element.children[count - 1], column);
        assert(head + earlier + last =~= head + (earlier + last));
    }
}

/// What an element prints is its rows.
pub proof fn an_element_prints_its_rows(
    element: Outlined,
    detail: Detail,
    language: Language,
    column: int,
)
    requires
        belongs(element, language),
    ensures
        element_lines(element, detail, language, column) == rows(
            rows_of(element, detail, language),
            rows_of(element, detail, language).len() as int,
            detail,
            language,
            column,
        ),
{
    let entries = rows_of(element, detail, language);
    if language == Language::Md && element.head.kind is Heading && detail == Detail::Blocks {
        lemma_child_rows(element, element.children.len() as int, column);
    } else {
        reveal_with_fuel(rows, 2);
        let only = row(element.head, detail, language, column);
        assert(rows(entries, 1, detail, language, column) =~= only);
        assert(only + Seq::<u8>::empty() =~= only);
    }
}

/// Whether everything a scan of Markdown has recorded belongs there.
spec fn all_markdown(elements: Seq<Outlined>, section: Option<int>) -> bool {
    &&& section matches Some(at) ==> 0 <= at < elements.len()
    &&& forall|at: int|
        0 <= at < elements.len() ==> belongs(#[trigger] elements[at], Language::Md)
}

/// Recording a block keeps what is recorded in Markdown.
proof fn lemma_pushed_markdown(elements: Seq<Outlined>, section: Option<int>, entry: Entry)
    requires
        all_markdown(elements, section),
        is_markdown(entry.kind),
        !(entry.kind is Heading),
    ensures
        all_markdown(pushed(elements, section, entry), section),
        pushed(elements, section, entry).len() >= elements.len(),
{
    let more = pushed(elements, section, entry);
    assert forall|at: int| 0 <= at < more.len() implies belongs(#[trigger] more[at], Language::Md) by {
        if at < elements.len() {
            assert(belongs(elements[at], Language::Md));
            let children = more[at].children;
            assert forall|child: int| 0 <= child < children.len() implies is_markdown(
                (#[trigger] children[child]).kind,
            ) && !(children[child].kind is Heading) by {
                if child < elements[at].children.len() {
                    assert(children[child] == elements[at].children[child]);
                }
            }
        }
    }
}

/// Reading a line keeps what is recorded in Markdown.
proof fn lemma_scanned_markdown(scan: Scan, line: Seq<u8>, start: int)
    requires
        all_markdown(scan.elements, scan.section),
    ensures
        all_markdown(scanned(scan, line, start).elements, scanned(scan, line, start).section),
{
    let number = scan.number + 1;
    let interrupted = closed(scan.elements, scan.block, scan.section, number - 1, start);
    lemma_closed_markdown(scan, number - 1, start);
    match (fence_of(line), scan.code) {
        (Some((marker, language)), Some(code)) => {
            lemma_pushed_markdown(
                scan.elements,
                scan.section,
                Entry {
                    kind: Kind::CodeBlock { language: code.language },
                    name: lit("code"),
                    line_number: code.line,
                    byte_offset: code.offset,
                    byte_length: start + line.len() - code.offset,
                    line_count: number - code.line + 1,
                },
            );
        },
        (None, None) => {
            match (heading_of(unindented(line, 3)), image_of(line)) {
                (Some((level, name)), _) => {
                    let more = scanned(scan, line, start).elements;
                    assert forall|at: int| 0 <= at < more.len() implies belongs(
                        #[trigger] more[at],
                        Language::Md,
                    ) by {
                        if at < interrupted.len() {
                            assert(more[at] == interrupted[at]);
                        }
                    }
                },
                (None, Some(alt)) => {
                    lemma_pushed_markdown(
                        interrupted,
                        scan.section,
                        Entry {
                            kind: Kind::Image { alt },
                            name: alt,
                            line_number: number,
                            byte_offset: start,
                            byte_length: line.len() as int,
                            line_count: 1,
                        },
                    );
                },
                (None, None) => {},
            }
        },
        _ => {},
    }
}

/// Closing a block keeps what is recorded in Markdown.
proof fn lemma_closed_markdown(scan: Scan, line: int, offset: int)
    requires
        all_markdown(scan.elements, scan.section),
    ensures
        all_markdown(
            closed(scan.elements, scan.block, scan.section, line, offset),
            scan.section,
        ),
{
    match scan.block {
        Some(open) => {
            lemma_pushed_markdown(
                scan.elements,
                scan.section,
                Entry {
                    kind: open.block.as_kind(),
                    name: open.block.as_label(),
                    line_number: open.line,
                    byte_offset: open.offset,
                    byte_length: if offset > open.offset {
                        offset - open.offset
                    } else {
                        0
                    },
                    line_count: line - open.line + 1,
                },
            );
        },
        None => {},
    }
}

proof fn lemma_scan_markdown(data: Seq<u8>, newlines: Newlines, at: int, scan: Scan)
    requires
        all_markdown(scan.elements, scan.section),
    ensures
        ({
            let done = scanned_from(data, newlines, at, scan);
            all_markdown(done.elements, done.section)
        }),
    decreases data.len() - at,
{
    if 0 <= at < data.len() {
        let line = line_at(data, at, newlines);
        lemma_lines_step(data, at, newlines);
        lemma_scanned_markdown(scan, line.as_cut(data), at);
        lemma_scan_markdown(data, newlines, line.end, scanned(scan, line.as_cut(data), at));
    }
}

/// Whether everything a scan of C has recorded belongs there.
spec fn all_c(elements: Seq<Outlined>) -> bool {
    forall|at: int| 0 <= at < elements.len() ==> belongs(#[trigger] elements[at], Language::C)
}

/// Reading a line keeps what is recorded in C.
proof fn lemma_scanned_c(scan: CScan, line: Seq<u8>, start: int)
    requires
        all_c(scan.elements),
    ensures
        all_c(c_scanned(scan, line, start).elements),
{
    let more = c_scanned(scan, line, start).elements;
    assert(more == scan.elements || more.len() == scan.elements.len() + 1);
    assert forall|at: int| 0 <= at < more.len() implies belongs(#[trigger] more[at], Language::C) by {
        if at < scan.elements.len() {
            assert(more[at] == scan.elements[at]);
        }
    }
}

proof fn lemma_scan_c(data: Seq<u8>, newlines: Newlines, at: int, scan: CScan)
    requires
        all_c(scan.elements),
    ensures
        all_c(c_scanned_from(data, newlines, at, scan).elements),
    decreases data.len() - at,
{
    if 0 <= at < data.len() {
        let line = line_at(data, at, newlines);
        lemma_lines_step(data, at, newlines);
        lemma_scanned_c(scan, line.as_cut(data), at);
        lemma_scan_c(data, newlines, line.end, c_scanned(scan, line.as_cut(data), at));
    }
}

/// Every element of an outline is of a kind that its language has.
pub proof fn outlines_belong_to_their_language(
    data: Seq<u8>,
    language: Language,
    newlines: Newlines,
    index: int,
)
    requires
        0 <= index < outline_of(data, language, newlines).len(),
    ensures
        belongs(outline_of(data, language, newlines)[index], language),
{
    match language {
        Language::Md => {
            lemma_scan_markdown(data, newlines, 0, fresh_scan());
            let scan = scanned_from(data, newlines, 0, fresh_scan());
            lemma_closed_markdown(scan, scan.number, data.len() as int);
        },
        _ => {
            lemma_scan_c(data, newlines, 0, fresh_c_scan());
            assert(belongs(c_outline(data, newlines)[index], Language::C));
        },
    }
}

} // verus!
