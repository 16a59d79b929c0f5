//! How a line is printed: what stands in front of it, and what is left of it.

use vstd::prelude::*;
use vstd::utf8::encode_utf8;

use crate::bytes::{decimal, lemma_ascii_bytes, lit};

use super::emit::{Coloring, Record, Sheet};
use super::matcher::{column_of, kept_length};
use super::options::{holds_field, Field, Inputs, OutputFormat, Show};

verus! {

/// A value and the byte behind it, where it is asked for.
pub open spec fn cell_of(asked: bool, text: Seq<u8>, separator: u8) -> Seq<u8> {
    if asked {
        text.push(separator)
    } else {
        Seq::empty()
    }
}

proof fn lemma_uncolored(text: Seq<char>)
    requires
        text.len() == 0,
    ensures
        encode_utf8(text) == Seq::<u8>::empty(),
{
    assert(text =~= Seq::empty());
}

/// Without colors a line is printed behind its path, its number, the column of its first match, its
/// offset and its name, those that are asked for and in that order, each with a colon behind it where
/// the line matches and a hyphen where it stands around a match. One terminator ends it.
pub proof fn a_line_is_printed_behind_its_place(sheet: Sheet, record: Record)
    requires
        sheet.config.colors.none(),
        sheet.config.output_format == OutputFormat::Standard || sheet.config.output_format
            == OutputFormat::Heading,
        sheet.config.show != Show::Matches,
        sheet.config.max_line_length is None,
    ensures
        ({
            let separator = if record.is_match {
                ':' as u8
            } else {
                '-' as u8
            };
            let column = match record.first {
                Some((offset, _)) => column_of(record.as_cut, offset, sheet.newlines),
                None => 1,
            };
            sheet.line(record, Coloring::Plain) == cell_of(
                sheet.config.inputs == Inputs::Many && sheet.config.output_format
                    == OutputFormat::Standard,
                sheet.path,
                separator,
            ) + cell_of(
                holds_field(sheet.config.fields, Field::LineNumbers),
                decimal(record.number),
                separator,
            ) + cell_of(
                holds_field(sheet.config.fields, Field::ColumnNumbers) && record.is_match
                    && !sheet.invert,
                decimal(column),
                separator,
            ) + cell_of(
                holds_field(sheet.config.fields, Field::ByteOffset),
                decimal(record.offset),
                separator,
            ) + cell_of(
                holds_field(sheet.config.fields, Field::LineHashes),
                sheet.line_name(record),
                separator,
            ) + record.as_cut + seq![sheet.config.terminator]
        }),
{
    let colors = sheet.config.colors;
    lemma_uncolored(colors.path@);
    lemma_uncolored(colors.line_number@);
    lemma_uncolored(colors.column@);
    lemma_uncolored(colors.byte_offset@);
    lemma_uncolored(colors.hash@);
    lemma_uncolored(colors.reset@);
    let separator = if record.is_match {
        ':' as u8
    } else {
        '-' as u8
    };
    assert(Sheet::separator(record) =~= seq![separator]) by {
        reveal_strlit(":");
        reveal_strlit("-");
        lemma_ascii_bytes(":"@);
        lemma_ascii_bytes("-"@);
    }
    lemma_cell(sheet, colors.path, sheet.path, separator);
    lemma_cell(sheet, colors.line_number, decimal(record.number), separator);
    lemma_cell(sheet, colors.column, decimal(sheet.column(record)), separator);
    lemma_cell(sheet, colors.byte_offset, decimal(record.offset), separator);
    lemma_cell(sheet, colors.hash, sheet.line_name(record), separator);
    let line = record.as_cut;
    assert(line.subrange(0, line.len() as int) =~= line);
    assert(sheet.body(line, Coloring::Plain) =~= line);
}

proof fn lemma_cell(sheet: Sheet, color: &str, text: Seq<u8>, separator: u8)
    requires
        lit(color) == Seq::<u8>::empty(),
        lit(sheet.config.colors.reset) == Seq::<u8>::empty(),
    ensures
        sheet.cell(color, text, seq![separator]) == text.push(separator),
{
    assert(sheet.cell(color, text, seq![separator]) =~= text.push(separator));
}

/// A limit leaves the front of a line and says that there was more; a line that fits is printed as it
/// is.
pub proof fn a_cut_line_says_so(sheet: Sheet, line: Seq<u8>, limit: usize)
    requires
        sheet.config.max_line_length == Some(limit),
        0 <= kept_length(line, limit as int, sheet.newlines) <= line.len(),
    ensures
        ({
            let end = kept_length(line, limit as int, sheet.newlines);
            &&& end < line.len() ==> sheet.body(line, Coloring::Plain) == line.take(end) + lit(
                " [...]",
            )
            &&& end == line.len() ==> sheet.body(line, Coloring::Plain) == line
        }),
{
    let end = kept_length(line, limit as int, sheet.newlines);
    assert(line.subrange(0, line.len() as int) =~= line);
    assert(line.subrange(0, end) =~= line.take(end));
    assert(end == line.len() ==> sheet.body(line, Coloring::Plain) =~= line);
}

/// Groups of lines that do not adjoin are parted by two hyphens on a line of their own, except in
/// JSON.
pub proof fn hyphens_part_the_groups(sheet: Sheet)
    requires
        sheet.config.colors.none(),
    ensures
        sheet.group_separator() == if sheet.config.output_format == OutputFormat::Json {
            Seq::empty()
        } else {
            seq!['-' as u8, '-' as u8, '\n' as u8]
        },
{
    lemma_uncolored(sheet.config.colors.separator@);
    lemma_uncolored(sheet.config.colors.reset@);
    reveal_strlit("--");
    reveal_strlit("\n");
    lemma_ascii_bytes("--"@);
    lemma_ascii_bytes("\n"@);
    assert(lit("--") =~= seq!['-' as u8, '-' as u8]);
    assert(lit("\n") =~= seq!['\n' as u8]);
    if sheet.config.output_format != OutputFormat::Json {
        assert(sheet.group_separator() =~= seq!['-' as u8, '-' as u8, '\n' as u8]);
    }
}

/// A region of lines is printed as it is, behind its path where records name it, and ends its last
/// line.
pub proof fn a_region_is_printed_as_it_is(sheet: Sheet, region: Seq<u8>)
    requires
        sheet.config.colors.none(),
    ensures
        sheet.region(region) == cell_of(
            sheet.config.inputs == Inputs::Many && sheet.config.output_format
                != OutputFormat::Heading,
            sheet.path,
            ':' as u8,
        ) + region + if region.len() > 0 && region.last() == '\n' as u8 {
            Seq::empty()
        } else {
            seq![sheet.config.terminator]
        },
{
    lemma_uncolored(sheet.config.colors.path@);
    lemma_uncolored(sheet.config.colors.reset@);
    reveal_strlit(":");
    lemma_ascii_bytes(":"@);
    assert(lit(":") =~= seq![':' as u8]);
    let empty = Seq::<u8>::empty();
    assert(empty + sheet.path + empty + lit(":") =~= sheet.path.push(':' as u8));
}

} // verus!
