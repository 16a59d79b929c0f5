//! Rendering an outline, as text or as JSON Lines.

use vstd::prelude::*;
use vstd::string::{StrSliceExecFns, StringExecFns};
use vstd::utf8::{decode_utf8, encode_utf8, valid_utf8};

use crate::bytes::{
    bool_text, decimal, lemma_append, lemma_append_nothing, lit, put_bool, put_decimal, put_str,
};
use crate::json::{json_text_field_to, text_field};
use crate::lines::Newlines;
use crate::outline::c_source::{c_outline, parse_c};
use crate::outline::element::{all_wf, outlined, ElementKind, Entry, Kind, OutlineElement, Outlined};
use crate::outline::markdown::{markdown_outline, parse_markdown};
use crate::padding::{padded, put_padded};
use crate::status::{status_of, Status};
use crate::text::same_text;

verus! {

/// The text `String::from_utf8_lossy` reads a byte string as.
pub uninterp spec fn lossy(data: Seq<u8>) -> Seq<char>;

/// `String::from_utf8_lossy`: valid UTF-8 is read as it is. How each invalid sequence is replaced
/// is left to the name.
#[verifier::external_body]
pub(crate) fn lossy_text(data: &[u8]) -> (text: String)
    ensures
        text@ == lossy(data@),
        valid_utf8(data@) ==> text@ == decode_utf8(data@),
{
    String::from_utf8_lossy(data).into_owned()
}

/// How much of each element the human renderer prints.
#[derive(Clone, Copy, PartialEq, Eq, Structural, Debug)]
pub enum Detail {
    Headings,
    Positions,
    Blocks,
}

/// Which parser reads the input.
#[derive(Clone, Copy, PartialEq, Eq, Structural, Debug)]
pub enum Language {
    Md,
    C,
    H,
}

/// How records are rendered.
#[derive(Clone, Copy, PartialEq, Eq, Structural, Debug)]
pub enum Format {
    Text,
    Json,
}

/// The record kind for one element, matching the human renderer's vocabulary.
pub open spec fn kind_name(kind: Kind) -> Seq<u8> {
    match kind {
        Kind::Heading { level } => lit("heading"),
        Kind::CodeBlock { language } => lit("code_block"),
        Kind::Blockquote => lit("blockquote"),
        Kind::Table => lit("table"),
        Kind::Image { alt } => lit("image"),
        Kind::Paragraph => lit("paragraph"),
        Kind::Include { is_system } => lit("include"),
        Kind::FunctionDeclaration => lit("function_declaration"),
        Kind::FunctionDefinition => lit("function_definition"),
    }
}

/// The record kind for one element, matching the human renderer's vocabulary.
pub fn element_kind_name(kind: &ElementKind) -> (name: &'static str)
    ensures
        encode_utf8(name@) == kind_name(kind@),
{
    match kind {
        ElementKind::Heading { level } => "heading",
        ElementKind::CodeBlock { language } => "code_block",
        ElementKind::Blockquote => "blockquote",
        ElementKind::Table => "table",
        ElementKind::Image { alt } => "image",
        ElementKind::Paragraph => "paragraph",
        ElementKind::Include { is_system } => "include",
        ElementKind::FunctionDeclaration => "function_declaration",
        ElementKind::FunctionDefinition => "function_definition",
    }
}

/// Whether `detail` prints this element: below `blocks` only the structural elements print.
pub open spec fn selected(kind: Kind, detail: Detail) -> bool {
    ||| detail == Detail::Blocks
    ||| kind is Heading
    ||| kind is Include
    ||| kind is FunctionDeclaration
    ||| kind is FunctionDefinition
}

/// Whether `detail` prints this element. Below `blocks` only the structural elements print —
/// headings, header inclusions and functions — so both renderers drop the same records.
pub fn selects(kind: &ElementKind, detail: Detail) -> (yes: bool)
    ensures
        yes == selected(kind@, detail),
{
    if detail == Detail::Blocks {
        return true;
    }
    match kind {
        ElementKind::Heading { level } => true,
        ElementKind::Include { is_system } => true,
        ElementKind::FunctionDeclaration => true,
        ElementKind::FunctionDefinition => true,
        _ => false,
    }
}

/// What a record says of its kind alone.
pub open spec fn kind_fields(kind: Kind) -> Seq<u8> {
    match kind {
        Kind::Heading { level } => lit(",\"level\":") + decimal(level as nat),
        Kind::CodeBlock { language } => match language {
            Some(language) => lit(",\"language\":") + text_field(language),
            None => lit(",\"language\":null"),
        },
        Kind::Include { is_system } => lit(",\"is_system\":") + bool_text(is_system),
        _ => Seq::empty(),
    }
}

/// One element as a flat JSON Lines record.
pub open spec fn entry_record(entry: Entry, parent_line: Option<int>) -> Seq<u8> {
    lit("{\"type\":\"element\",\"data\":{\"kind\":\"") + kind_name(entry.kind) + lit(
        "\",\"text\":",
    ) + text_field(entry.name) + kind_fields(entry.kind) + lit(",\"line_number\":") + decimal(
        entry.line_number as nat,
    ) + lit(",\"line_count\":") + decimal(entry.line_count as nat) + lit(",\"byte_offset\":")
        + decimal(entry.byte_offset as nat) + lit(",\"byte_length\":") + decimal(
        entry.byte_length as nat,
    ) + lit(",\"parent_line\":") + (match parent_line {
        Some(line) => decimal(line as nat),
        None => lit("null"),
    }) + lit("}}\n")
}

/// The records of the first `count` children that `detail` prints.
pub open spec fn child_records(
    children: Seq<Entry>,
    count: int,
    parent_line: int,
    detail: Detail,
) -> Seq<u8>
    decreases count,
{
    if count <= 0 {
        Seq::empty()
    } else {
        child_records(children, count - 1, parent_line, detail) + if selected(
            children[count - 1].kind,
            detail,
        ) {
            entry_record(children[count - 1], Some(parent_line))
        } else {
            Seq::empty()
        }
    }
}

/// An element's record and, behind it, those of the children that `detail` prints.
pub open spec fn element_records(
    element: Outlined,
    parent_line: Option<int>,
    detail: Detail,
) -> Seq<u8> {
    entry_record(element.head, parent_line) + child_records(
        element.children,
        element.children.len() as int,
        element.head.line_number,
        detail,
    )
}

pub open spec fn line_of(line: Option<usize>) -> Option<int> {
    match line {
        Some(line) => Some(line as int),
        None => None,
    }
}

fn put_entry_record(out: &mut Vec<u8>, element: &OutlineElement, parent_line: Option<usize>)
    ensures
        final(out)@ == old(out)@ + entry_record(element.entry(), line_of(parent_line)),
{
    broadcast use crate::bytes::group_append;

    put_str(out, "{\"type\":\"element\",\"data\":{\"kind\":\"");
    put_str(out, element_kind_name(&element.kind));
    put_str(out, "\",\"text\":");
    json_text_field_to(out, element.name.as_slice());
    match &element.kind {
        ElementKind::Heading { level } => {
            put_str(out, ",\"level\":");
            put_decimal(out, *level as u64);
        },
        ElementKind::CodeBlock { language } => {
            match language {
                Some(language) => {
                    put_str(out, ",\"language\":");
                    json_text_field_to(out, language.as_slice());
                },
                None => {
                    put_str(out, ",\"language\":null");
                },
            }
        },
        ElementKind::Include { is_system } => {
            put_str(out, ",\"is_system\":");
            put_bool(out, *is_system);
        },
        _ => {},
    }
    put_str(out, ",\"line_number\":");
    put_decimal(out, element.line_number as u64);
    put_str(out, ",\"line_count\":");
    put_decimal(out, element.line_count as u64);
    put_str(out, ",\"byte_offset\":");
    put_decimal(out, element.byte_offset as u64);
    put_str(out, ",\"byte_length\":");
    put_decimal(out, element.byte_length as u64);
    put_str(out, ",\"parent_line\":");
    match parent_line {
        Some(line) => {
            put_decimal(out, line as u64);
        },
        None => {
            put_str(out, "null");
        },
    }
    put_str(out, "}}\n");
}

/// Append one element as a flat JSON Lines record. Children are emitted as their own records
/// carrying `parent_line`, rather than nested.
pub fn write_element_json(
    out: &mut Vec<u8>,
    element: &OutlineElement,
    parent_line: Option<usize>,
    detail: Detail,
)
    requires
        element.wf(),
    ensures
        final(out)@ == old(out)@ + element_records(element@, line_of(parent_line), detail),
{
    put_entry_record(out, element, parent_line);
    let ghost head = out@;
    let ghost children = element@.children;
    let mut index: usize = 0;
    proof {
        lemma_append_nothing(head);
        lemma_append(
            old(out)@,
            entry_record(element.entry(), line_of(parent_line)),
            child_records(
                children,
                children.len() as int,
                element.line_number as int,
                detail,
            ),
        );
    }
    while index < element.children.len()
        invariant
            index <= element.children@.len(),
            children == element@.children,
            out@ == head + child_records(
                children,
                index as int,
                element.line_number as int,
                detail,
            ),
        decreases element.children@.len() - index,
    {
        let child = &element.children[index];
        assert(children[index as int] == child.entry());
        let ghost behind = child_records(
            children,
            index as int,
            element.line_number as int,
            detail,
        );
        if selects(&child.kind, detail) {
            put_entry_record(out, child, Some(element.line_number));
        }
        proof {
            lemma_append(
                head,
                behind,
                entry_record(child.entry(), Some(element.line_number as int)),
            );
            lemma_append_nothing(behind);
        }
        index += 1;
    }
}

/// What stands of `width` behind `taken` columns.
pub open spec fn left_of(width: int, taken: int) -> int {
    if width > taken {
        width - taken
    } else {
        0
    }
}

/// The label a block prints under its heading.
pub open spec fn label_of(kind: Kind) -> Seq<char> {
    match kind {
        Kind::CodeBlock { language } => match language {
            Some(language) => "code ("@ + lossy(language) + ")"@,
            None => "code"@,
        },
        Kind::Blockquote => "blockquote"@,
        Kind::Table => "table"@,
        Kind::Image { alt } => "image: "@ + lossy(alt),
        Kind::Paragraph => "paragraph"@,
        _ => "block"@,
    }
}

/// The label a child block prints under its heading.
pub fn child_label(element: &OutlineElement) -> (label: String)
    ensures
        label@ == label_of(element.kind@),
{
    match &element.kind {
        ElementKind::CodeBlock { language } => match language {
            Some(bytes) => {
                let mut label = String::from_str("code (");
                label.append(lossy_text(bytes.as_slice()).as_str());
                label.append(")");
                label
            },
            None => String::from_str("code"),
        },
        ElementKind::Blockquote => String::from_str("blockquote"),
        ElementKind::Table => String::from_str("table"),
        ElementKind::Image { alt } => {
            let mut label = String::from_str("image: ");
            label.append(lossy_text(alt.as_slice()).as_str());
            label
        },
        ElementKind::Paragraph => String::from_str("paragraph"),
        _ => String::from_str("block"),
    }
}

/// The lines an element covers: one number, or the first and the last.
pub open spec fn line_range(entry: Entry) -> Seq<u8> {
    if entry.line_count > 1 {
        lit("L") + decimal(entry.line_number as nat) + lit("-") + decimal(
            (entry.line_number + entry.line_count - 1) as nat,
        )
    } else {
        lit("L") + decimal(entry.line_number as nat)
    }
}

fn put_line_range(out: &mut Vec<u8>, element: &OutlineElement)
    requires
        element.placed(),
    ensures
        final(out)@ == old(out)@ + line_range(element.entry()),
{
    broadcast use crate::bytes::group_append;

    put_str(out, "L");
    put_decimal(out, element.line_number as u64);
    if element.line_count > 1 {
        put_str(out, "-");
        put_decimal(out, (element.line_number + (element.line_count - 1)) as u64);
    }
}

/// The line a block prints under its heading. The branch in front of it is four columns wide.
pub open spec fn child_line(entry: Entry, column: int) -> Seq<u8> {
    lit("  - ") + padded(label_of(entry.kind), left_of(column, 4)) + lit(" [") + line_range(entry)
        + lit(", ") + decimal(entry.byte_length as nat) + lit("B]\n")
}

pub fn write_child_block(out: &mut Vec<u8>, element: &OutlineElement, column: usize)
    requires
        element.placed(),
    ensures
        final(out)@ == old(out)@ + child_line(element.entry(), column as int),
{
    broadcast use crate::bytes::group_append;

    put_str(out, "  - ");
    let label = child_label(element);
    put_padded(out, label.as_str(), column.saturating_sub(4));
    put_str(out, " [");
    put_line_range(out, element);
    put_str(out, ", ");
    put_decimal(out, element.byte_length as u64);
    put_str(out, "B]\n");
}

/// The run of `#` in front of a heading, at most six of them.
pub open spec fn hashes(level: int) -> Seq<u8> {
    Seq::new(
        if level < 6 {
            level as nat
        } else {
            6
        },
        |at: int| 0x23u8,
    )
}

fn put_hashes(out: &mut Vec<u8>, level: u8) -> (width: usize)
    ensures
        final(out)@ == old(out)@ + hashes(level as int),
        width == hashes(level as int).len(),
{
    let width: usize = if level < 6 {
        level as usize
    } else {
        6
    };
    let mut written: usize = 0;
    while written < width
        invariant
            written <= width,
            out@ == old(out)@ + Seq::new(written as nat, |at: int| 0x23u8),
        decreases width - written,
    {
        out.push(0x23);
        written += 1;
        assert(out@ =~= old(out)@ + Seq::new(written as nat, |at: int| 0x23u8));
    }
    assert(Seq::new(width as nat, |at: int| 0x23u8) =~= hashes(level as int));
    width
}

/// The lines of the first `count` children.
pub open spec fn child_lines(children: Seq<Entry>, count: int, column: int) -> Seq<u8>
    decreases count,
{
    if count <= 0 {
        Seq::empty()
    } else {
        child_lines(children, count - 1, column) + child_line(children[count - 1], column)
    }
}

/// The line a heading prints.
pub open spec fn heading_line(entry: Entry, level: int, detail: Detail, column: int) -> Seq<u8> {
    let prefix = hashes(level);
    let width = left_of(column, prefix.len() as int + 1);
    match detail {
        Detail::Headings => prefix + lit(" ") + encode_utf8(lossy(entry.name)) + lit("\n"),
        Detail::Positions => prefix + lit(" ") + padded(lossy(entry.name), width) + lit(" [L")
            + decimal(entry.line_number as nat) + lit(", @") + decimal(entry.byte_offset as nat)
            + lit("]\n"),
        Detail::Blocks => prefix + lit(" ") + padded(lossy(entry.name), width) + lit(" [")
            + line_range(entry) + lit(", @") + decimal(entry.byte_offset as nat) + lit(", ")
            + decimal(entry.byte_length as nat) + lit("B]\n"),
    }
}

fn write_heading(
    out: &mut Vec<u8>,
    element: &OutlineElement,
    level: u8,
    detail: Detail,
    column: usize,
)
    requires
        element.placed(),
    ensures
        final(out)@ == old(out)@ + heading_line(
            element.entry(),
            level as int,
            detail,
            column as int,
        ),
{
    broadcast use crate::bytes::group_append;

    let name = lossy_text(element.name.as_slice());
    let prefix: usize = put_hashes(out, level);
    let width: usize = column.saturating_sub(prefix + 1);
    put_str(out, " ");
    match detail {
        Detail::Headings => {
            put_str(out, name.as_str());
            put_str(out, "\n");
        },
        Detail::Positions => {
            put_padded(out, name.as_str(), width);
            put_str(out, " [L");
            put_decimal(out, element.line_number as u64);
            put_str(out, ", @");
            put_decimal(out, element.byte_offset as u64);
            put_str(out, "]\n");
        },
        Detail::Blocks => {
            put_padded(out, name.as_str(), width);
            put_str(out, " [");
            put_line_range(out, element);
            put_str(out, ", @");
            put_decimal(out, element.byte_offset as u64);
            put_str(out, ", ");
            put_decimal(out, element.byte_length as u64);
            put_str(out, "B]\n");
        },
    }
}

fn write_child_blocks(out: &mut Vec<u8>, element: &OutlineElement, column: usize)
    requires
        element.wf(),
    ensures
        final(out)@ == old(out)@ + child_lines(
            element@.children,
            element@.children.len() as int,
            column as int,
        ),
{
    let ghost children = element@.children;
    let ghost head = out@;
    let mut index: usize = 0;
    proof {
        lemma_append_nothing(head);
    }
    while index < element.children.len()
        invariant
            index <= element.children@.len(),
            element.wf(),
            children == element@.children,
            out@ == head + child_lines(children, index as int, column as int),
        decreases element.children@.len() - index,
    {
        let child = &element.children[index];
        assert(children[index as int] == child.entry());
        write_child_block(out, child, column);
        proof {
            lemma_append(
                head,
                child_lines(children, index as int, column as int),
                child_line(child.entry(), column as int),
            );
        }
        index += 1;
    }
}

/// A Markdown element as text: a heading, its blocks under it where `detail` asks for them, or a
/// block. A block before the first heading has no parent, and prints in the same branch column as
/// one that does.
pub open spec fn markdown_lines(element: Outlined, detail: Detail, column: int) -> Seq<u8> {
    match element.head.kind {
        Kind::Heading { level } => heading_line(element.head, level, detail, column) + if detail
            == Detail::Blocks {
            child_lines(element.children, element.children.len() as int, column)
        } else {
            Seq::empty()
        },
        _ => child_line(element.head, column),
    }
}

pub fn write_markdown_element(
    out: &mut Vec<u8>,
    element: &OutlineElement,
    detail: Detail,
    column: usize,
)
    requires
        element.wf(),
    ensures
        final(out)@ == old(out)@ + markdown_lines(element@, detail, column as int),
{
    broadcast use crate::bytes::group_append;

    match &element.kind {
        ElementKind::Heading { level } => {
            write_heading(out, element, *level, detail, column);
            if detail == Detail::Blocks {
                write_child_blocks(out, element, column);
            }
        },
        _ => {
            write_child_block(out, element, column);
        },
    }
}

/// A C element as text.
pub open spec fn c_lines(entry: Entry, detail: Detail, column: int) -> Seq<u8> {
    let name = lossy(entry.name);
    match entry.kind {
        Kind::Include { is_system } => {
            let path = (if is_system {
                "<"@
            } else {
                "\""@
            }) + name + (if is_system {
                ">"@
            } else {
                "\""@
            });
            if detail == Detail::Headings {
                lit("#include ") + encode_utf8(path) + lit("\n")
            } else {
                lit("#include ") + padded(path, left_of(column, 9)) + lit(" [L") + decimal(
                    entry.line_number as nat,
                ) + lit(", @") + decimal(entry.byte_offset as nat) + lit("]\n")
            }
        },
        Kind::FunctionDeclaration => match detail {
            Detail::Headings => padded(name, column) + lit(" [declaration]\n"),
            Detail::Positions => padded(name, column) + lit(" [L") + decimal(
                entry.line_number as nat,
            ) + lit(", @") + decimal(entry.byte_offset as nat) + lit(", declaration]\n"),
            Detail::Blocks => padded(name, column) + lit(" [L") + decimal(entry.line_number as nat)
                + lit(", @") + decimal(entry.byte_offset as nat) + lit(", ") + decimal(
                entry.byte_length as nat,
            ) + lit("B, declaration]\n"),
        },
        Kind::FunctionDefinition => {
            let last = decimal((entry.line_number + entry.line_count - 1) as nat);
            match detail {
                Detail::Headings => padded(name, column) + lit(" [definition]\n"),
                Detail::Positions => padded(name, column) + lit(" [L") + decimal(
                    entry.line_number as nat,
                ) + lit("-") + last + lit(", @") + decimal(entry.byte_offset as nat) + lit(
                    ", definition]\n",
                ),
                Detail::Blocks => padded(name, column) + lit(" [L") + decimal(
                    entry.line_number as nat,
                ) + lit("-") + last + lit(", @") + decimal(entry.byte_offset as nat) + lit(", ")
                    + decimal(entry.byte_length as nat) + lit("B, ") + decimal(
                    entry.line_count as nat,
                ) + lit(" lines, definition]\n"),
            }
        },
        _ => Seq::empty(),
    }
}

pub fn write_c_element(out: &mut Vec<u8>, element: &OutlineElement, detail: Detail, column: usize)
    requires
        element.wf(),
    ensures
        final(out)@ == old(out)@ + c_lines(element@.head, detail, column as int),
{
    broadcast use crate::bytes::group_append;

    let name = lossy_text(element.name.as_slice());
    match &element.kind {
        ElementKind::Include { is_system } => {
            // Build the delimited path, so the pad measures the field the reader sees.
            let mut path = String::from_str(
                if *is_system {
                    "<"
                } else {
                    "\""
                },
            );
            path.append(name.as_str());
            path.append(
                if *is_system {
                    ">"
                } else {
                    "\""
                },
            );
            put_str(out, "#include ");
            match detail {
                Detail::Headings => {
                    put_str(out, path.as_str());
                    put_str(out, "\n");
                },
                _ => {
                    put_padded(out, path.as_str(), column.saturating_sub(9));
                    put_str(out, " [L");
                    put_decimal(out, element.line_number as u64);
                    put_str(out, ", @");
                    put_decimal(out, element.byte_offset as u64);
                    put_str(out, "]\n");
                },
            }
        },
        ElementKind::FunctionDeclaration => {
            put_padded(out, name.as_str(), column);
            match detail {
                Detail::Headings => {
                    put_str(out, " [declaration]\n");
                },
                Detail::Positions => {
                    put_str(out, " [L");
                    put_decimal(out, element.line_number as u64);
                    put_str(out, ", @");
                    put_decimal(out, element.byte_offset as u64);
                    put_str(out, ", declaration]\n");
                },
                Detail::Blocks => {
                    put_str(out, " [L");
                    put_decimal(out, element.line_number as u64);
                    put_str(out, ", @");
                    put_decimal(out, element.byte_offset as u64);
                    put_str(out, ", ");
                    put_decimal(out, element.byte_length as u64);
                    put_str(out, "B, declaration]\n");
                },
            }
        },
        ElementKind::FunctionDefinition => {
            let last: u64 = (element.line_number + (element.line_count - 1)) as u64;
            put_padded(out, name.as_str(), column);
            match detail {
                Detail::Headings => {
                    put_str(out, " [definition]\n");
                },
                Detail::Positions => {
                    put_str(out, " [L");
                    put_decimal(out, element.line_number as u64);
                    put_str(out, "-");
                    put_decimal(out, last);
                    put_str(out, ", @");
                    put_decimal(out, element.byte_offset as u64);
                    put_str(out, ", definition]\n");
                },
                Detail::Blocks => {
                    put_str(out, " [L");
                    put_decimal(out, element.line_number as u64);
                    put_str(out, "-");
                    put_decimal(out, last);
                    put_str(out, ", @");
                    put_decimal(out, element.byte_offset as u64);
                    put_str(out, ", ");
                    put_decimal(out, element.byte_length as u64);
                    put_str(out, "B, ");
                    put_decimal(out, element.line_count as u64);
                    put_str(out, " lines, definition]\n");
                },
            }
        },
        _ => {},
    }
}

/// An element as text, in the rendering its language has.
pub open spec fn element_lines(
    element: Outlined,
    detail: Detail,
    language: Language,
    column: int,
) -> Seq<u8> {
    match language {
        Language::Md => markdown_lines(element, detail, column),
        _ => c_lines(element.head, detail, column),
    }
}

pub fn write_element(
    out: &mut Vec<u8>,
    element: &OutlineElement,
    detail: Detail,
    language: Language,
    column: usize,
)
    requires
        element.wf(),
    ensures
        final(out)@ == old(out)@ + element_lines(element@, detail, language, column as int),
{
    match language {
        Language::Md => {
            write_markdown_element(out, element, detail, column);
        },
        _ => {
            write_c_element(out, element, detail, column);
        },
    }
}

/// The larger of two numbers.
pub open spec fn larger(left: int, right: int) -> int {
    if left > right {
        left
    } else {
        right
    }
}

/// A width as far as a `usize` counts.
pub open spec fn counted(width: int) -> int {
    if width > usize::MAX {
        usize::MAX as int
    } else {
        width
    }
}

/// How many columns a block's label takes behind its branch.
pub open spec fn child_columns(kind: Kind) -> int {
    counted(4 + label_of(kind).len() as int)
}

/// How many columns an element's own name takes, its prefix with it.
pub open spec fn head_columns(entry: Entry, detail: Detail) -> int {
    let name = lossy(entry.name).len() as int;
    match entry.kind {
        Kind::Heading { level } => counted(hashes(level).len() as int + 1 + name),
        // The path prints inside its `<>` or `""` delimiters.
        Kind::Include { is_system } => counted(9 + name + 2),
        Kind::FunctionDeclaration => name,
        Kind::FunctionDefinition => name,
        _ => if detail == Detail::Blocks {
            child_columns(entry.kind)
        } else {
            0
        },
    }
}

/// The columns the first `count` children take, or `column` where that is more.
pub open spec fn widest_child(children: Seq<Entry>, count: int, column: int) -> int
    decreases count,
{
    if count <= 0 {
        column
    } else {
        larger(
            widest_child(children, count - 1, column),
            child_columns(children[count - 1].kind),
        )
    }
}

/// Where the bracketed detail column starts for the first `count` elements: one past the longest
/// name that prints, its prefix with it.
pub open spec fn column_of(elements: Seq<Outlined>, count: int, detail: Detail) -> int
    decreases count,
{
    if count <= 0 {
        0
    } else {
        let element = elements[count - 1];
        let column = larger(
            column_of(elements, count - 1, detail),
            head_columns(element.head, detail),
        );
        if detail == Detail::Blocks {
            widest_child(element.children, element.children.len() as int, column)
        } else {
            column
        }
    }
}

/// Where the bracketed detail column starts: one past the longest name the run will print, its
/// prefix with it. A fixed column instead leaves every short name stranded from its own detail.
pub fn detail_column(elements: &[OutlineElement], detail: Detail) -> (column: usize)
    ensures
        column == column_of(outlined(elements@), elements@.len() as int, detail),
{
    let ghost all = outlined(elements@);
    let mut column: usize = 0;
    let mut index: usize = 0;
    while index < elements.len()
        invariant
            index <= elements@.len(),
            all == outlined(elements@),
            column == column_of(all, index as int, detail),
        decreases elements@.len() - index,
    {
        let element = &elements[index];
        assert(all[index as int] == element@);
        let name: usize = lossy_text(element.name.as_slice()).as_str().unicode_len();
        let own: usize = match &element.kind {
            ElementKind::Heading { level } => name.saturating_add(
                (if *level < 6 {
                    *level as usize
                } else {
                    6usize
                }) + 1,
            ),
            ElementKind::Include { is_system } => name.saturating_add(11),
            ElementKind::FunctionDeclaration => name,
            ElementKind::FunctionDefinition => name,
            _ => if detail == Detail::Blocks {
                child_label(element).as_str().unicode_len().saturating_add(4)
            } else {
                0
            },
        };
        if own > column {
            column = own;
        }
        if detail == Detail::Blocks {
            let ghost start = column as int;
            let ghost children = element@.children;
            let mut at: usize = 0;
            while at < element.children.len()
                invariant
                    at <= element.children@.len(),
                    children == element@.children,
                    index < elements@.len(),
                    all == outlined(elements@),
                    all[index as int] == element@,
                            column == widest_child(children, at as int, start),
                decreases element.children@.len() - at,
            {
                let child = &element.children[at];
                assert(all[index as int].children[at as int] == child.entry());
                let width: usize = child_label(child).as_str().unicode_len().saturating_add(4);
                if width > column {
                    column = width;
                }
                at += 1;
            }
        }
        index += 1;
    }
    column
}

/// The language an extension names, or `None` when it is not outlined.
pub open spec fn language_named(extension: Option<Seq<char>>) -> Option<Language> {
    match extension {
        None => None,
        Some(name) => if name == "md"@ || name == "markdown"@ {
            Some(Language::Md)
        } else if name == "c"@ {
            Some(Language::C)
        } else if name == "h"@ {
            Some(Language::H)
        } else {
            None
        },
    }
}

/// The language a file's extension names, or `None` when the extension is not outlined.
pub fn language_of_extension(extension: Option<&str>) -> (language: Option<Language>)
    ensures
        language == language_named(
            match extension {
                Some(name) => Some(name@),
                None => None,
            },
        ),
{
    match extension {
        None => None,
        Some(name) => if same_text(name, "md") || same_text(name, "markdown") {
            Some(Language::Md)
        } else if same_text(name, "c") {
            Some(Language::C)
        } else if same_text(name, "h") {
            Some(Language::H)
        } else {
            None
        },
    }
}

/// What stands behind the last `/` of a path.
pub open spec fn last_component(path: Seq<char>) -> Seq<char>
    decreases path.len(),
{
    if path.len() == 0 || path.last() == '/' {
        Seq::empty()
    } else {
        last_component(path.drop_last()).push(path.last())
    }
}

/// Whether a path begins with the name of a drive: one letter of ASCII and a colon.
pub open spec fn names_drive(path: Seq<char>) -> bool {
    &&& path.len() >= 2
    &&& ('a' <= path[0] <= 'z' || 'A' <= path[0] <= 'Z')
    &&& path[1] == ':'
}

/// Whether every platform reads the same file name off a path: it holds no separator but `/`, and
/// begins with no name of a drive or a server.
pub open spec fn plain_path(path: Seq<char>) -> bool {
    &&& !path.contains('\\')
    &&& !names_drive(path)
    &&& !(path.len() >= 2 && path[0] == '/' && path[1] == '/')
}

/// A path without the separators it ends in, nor the `.` that stand between them.
pub open spec fn without_tail(path: Seq<char>) -> Seq<char>
    decreases path.len(),
{
    if path.len() > 0 && path.last() == '/' {
        without_tail(path.drop_last())
    } else if path.len() > 1 && path.last() == '.' && path[path.len() - 2] == '/' {
        without_tail(path.drop_last().drop_last())
    } else {
        path
    }
}

/// The file name of a path, where it does not end in the root, in `..` or in a `.` of its own.
pub open spec fn file_name_of(path: Seq<char>) -> Option<Seq<char>> {
    let name = last_component(without_tail(path));
    if name.len() == 0 || name == seq!['.'] || name == seq!['.', '.'] {
        None
    } else {
        Some(name)
    }
}

/// What stands behind the last dot of a file name, where anything stands in front of it.
pub open spec fn extension_of(name: Seq<char>) -> Option<Seq<char>>
    decreases name.len(),
{
    if name.len() <= 1 {
        None
    } else if name.last() == '.' {
        Some(Seq::empty())
    } else {
        match extension_of(name.drop_last()) {
            None => None,
            Some(extension) => Some(extension.push(name.last())),
        }
    }
}

/// The extension of a path's file name, where it has one.
pub open spec fn path_extension_of(path: Seq<char>) -> Option<Seq<char>> {
    match file_name_of(path) {
        Some(name) => extension_of(name),
        None => None,
    }
}

/// `std::path::Path::extension`: the part of the file name behind its last dot, or `None` where
/// there is no file name, or no dot in it but a leading one. On paths whose file name depends on the
/// platform nothing is said.
#[verifier::external_body]
fn path_extension(path: &str) -> (extension: Option<String>)
    ensures
        plain_path(path@) ==> match extension {
            Some(extension) => path_extension_of(path@) == Some(extension@),
            None => path_extension_of(path@) is None,
        },
{
    let extension = std::path::Path::new(path).extension();
    extension.and_then(|name| name.to_str()).map(|name| name.to_string())
}

/// Language from the path's extension, or `None` when the extension is not outlined.
pub fn detect_language(path: &str) -> (language: Option<Language>)
    ensures
        plain_path(path@) ==> language == language_named(path_extension_of(path@)),
{
    match path_extension(path) {
        Some(extension) => language_of_extension(Some(extension.as_str())),
        None => None,
    }
}

/// The outline of a text in a language.
pub open spec fn outline_of(data: Seq<u8>, language: Language, newlines: Newlines) -> Seq<
    Outlined,
> {
    match language {
        Language::Md => markdown_outline(data, newlines),
        _ => c_outline(data, newlines),
    }
}

/// Everything the first `count` elements print.
pub open spec fn printed(
    elements: Seq<Outlined>,
    count: int,
    detail: Detail,
    format: Format,
    language: Language,
    column: int,
) -> Seq<u8>
    decreases count,
{
    if count <= 0 {
        Seq::empty()
    } else {
        let element = elements[count - 1];
        printed(elements, count - 1, detail, format, language, column) + if !selected(
            element.head.kind,
            detail,
        ) {
            Seq::empty()
        } else if format == Format::Json {
            element_records(element, None, detail)
        } else {
            element_lines(element, detail, language, column)
        }
    }
}

/// Whether `detail` prints any of these elements.
pub open spec fn any_selected(elements: Seq<Outlined>, detail: Detail) -> bool {
    exists|i: int|
        0 <= i < elements.len() && selected((#[trigger] elements[i]).head.kind, detail)
}

/// Outline one input: append what prints to `output`, and answer whether anything was outlined.
/// The status answers what was printed, not what was parsed, so a document whose every element
/// `detail` drops has no result. A quiet run prints nothing.
pub fn outline(
    output: &mut Vec<u8>,
    data: &[u8],
    language: Language,
    newlines: Newlines,
    detail: Detail,
    format: Format,
    quiet: bool,
) -> (status: Status)
    ensures
        ({
            let elements = outline_of(data@, language, newlines);
            &&& status == status_of(false, any_selected(elements, detail))
            &&& final(output)@ == old(output)@ + if quiet {
                Seq::empty()
            } else {
                printed(
                    elements,
                    elements.len() as int,
                    detail,
                    format,
                    language,
                    column_of(elements, elements.len() as int, detail),
                )
            }
        }),
{
    let elements = match language {
        Language::Md => parse_markdown(data, newlines),
        _ => parse_c(data, newlines),
    };
    let ghost all = outlined(elements@);
    let column: usize = detail_column(elements.as_slice(), detail);
    let mut emitted = false;
    proof {
        lemma_append_nothing(output@);
    }
    let mut index: usize = 0;
    while index < elements.len()
        invariant
            index <= elements@.len(),
            all_wf(elements@),
            all == outlined(elements@),
            column == column_of(all, all.len() as int, detail),
            emitted == exists|i: int|
                0 <= i < index && selected((#[trigger] all[i]).head.kind, detail),
            output@ == old(output)@ + if quiet {
                Seq::empty()
            } else {
                printed(all, index as int, detail, format, language, column as int)
            },
        decreases elements@.len() - index,
    {
        let element = &elements[index];
        assert(all[index as int] == element@);
        assert(element.wf());
        let ghost behind = printed(all, index as int, detail, format, language, column as int);
        proof {
            lemma_append(old(output)@, behind, element_records(element@, None, detail));
            lemma_append(
                old(output)@,
                behind,
                element_lines(element@, detail, language, column as int),
            );
            lemma_append_nothing(behind);
        }
        if selects(&element.kind, detail) {
            emitted = true;
            if !quiet {
                match format {
                    Format::Json => {
                        write_element_json(output, element, None, detail);
                    },
                    Format::Text => {
                        write_element(output, element, detail, language, column);
                    },
                }
            }
        }
        index += 1;
    }
    Status::from_found(emitted)
}

/// What a run that names no language it can outline is answered.
pub open spec fn cannot_outline(path: Seq<char>) -> Seq<char> {
    "cannot outline '"@ + path + "', use --language (md, c, h)"@
}

/// The language of a run: the one forced, or the one detected from the path. A run with neither is
/// refused.
pub fn choose_language(path: &str, detected: Option<Language>, forced: Option<Language>) -> (
    checked: Result<Language, String>)
    ensures
        match (forced, detected) {
            (Some(language), _) => checked == Ok::<Language, String>(language),
            (None, Some(language)) => checked == Ok::<Language, String>(language),
            (None, None) => checked matches Err(message) && message@ == cannot_outline(path@),
        },
{
    let language = match forced {
        Some(language) => Some(language),
        None => detected,
    };
    match language {
        Some(language) => Ok(language),
        None => {
            let mut message = String::from_str("cannot outline '");
            message.append(path);
            message.append("', use --language (md, c, h)");
            Err(message)
        },
    }
}

/// The language a run outlines `path` in, refusing a path whose extension names none unless one is
/// forced.
pub fn validate(path: &str, forced: Option<Language>) -> (checked: Result<Language, String>)
    ensures
        match forced {
            Some(language) => checked == Ok::<Language, String>(language),
            None => plain_path(path@) ==> match language_named(path_extension_of(path@)) {
                Some(language) => checked == Ok::<Language, String>(language),
                None => checked matches Err(message) && message@ == cannot_outline(path@),
            },
        },
        checked matches Err(message) ==> forced is None && message@ == cannot_outline(path@),
{
    choose_language(path, detect_language(path), forced)
}

} // verus!
