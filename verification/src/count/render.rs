//! Printing what was counted: aligned columns, or one record per input.

use vstd::prelude::*;
use vstd::string::{StrSliceExecFns, StringExecFns};
use vstd::utf8::encode_utf8;

use crate::bytes::{decimal_chars, decimal_text, lit, put_str};
use crate::json::{format_grouped_number, grouped};
use crate::padding::{
    aligned, missing, padded, put_aligned, put_padded, put_repeated, repeated,
};
use crate::text::{chars_of, push_chars};

use super::tally::{larger, Counts, Fields};

verus! {

/// How rows are rendered.
#[derive(Clone, Copy, Debug, PartialEq, Eq, Structural)]
pub enum Format {
    /// Aligned columns with comma-grouped digits.
    Table,
    /// Aligned columns with plain digits.
    Plain,
    /// Aligned columns with K/M/G/T suffixes.
    Human,
    /// JSON Lines with untruncated paths and bare integers.
    Json,
}

/// How many measurements an input has, and so the most columns a table has.
pub const FIELD_COUNT: usize = 5;

/// Longest name the table prints in full; anything longer is truncated from the left.
pub const NAME_WIDTH: usize = 40;

/// Columns a tree branch glyph occupies ahead of an entry's name, as in `├─ `.
pub const TREE_GLYPH_WIDTH: usize = 3;

/// Every measurement's header, in column order.
pub open spec fn headers() -> Seq<Seq<char>> {
    seq!["lines"@, "words"@, "bytes"@, "chars"@, "maxline"@]
}

/// The items that are selected, in order.
pub open spec fn pick<T>(selected: Seq<bool>, items: Seq<T>) -> Seq<T>
    decreases selected.len(),
{
    if selected.len() == 0 {
        Seq::empty()
    } else if selected.last() {
        pick(selected.drop_last(), items).push(items[selected.len() - 1])
    } else {
        pick(selected.drop_last(), items)
    }
}

/// How many items are selected does not depend on what they are.
pub proof fn lemma_pick_len<S, T>(selected: Seq<bool>, items: Seq<S>, others: Seq<T>)
    ensures
        pick(selected, items).len() == pick(selected, others).len(),
        pick(selected, items).len() <= selected.len(),
    decreases selected.len(),
{
    if selected.len() > 0 {
        lemma_pick_len(selected.drop_last(), items, others);
    }
}

/// Selecting what was made of every item is making it of every selected item.
proof fn lemma_pick_step<T>(selected: Seq<bool>, items: Seq<T>, count: int)
    requires
        0 <= count < selected.len(),
    ensures
        pick(selected.take(count + 1), items) == if selected[count] {
            pick(selected.take(count), items).push(items[count])
        } else {
            pick(selected.take(count), items)
        },
{
    assert(selected.take(count + 1).drop_last() =~= selected.take(count));
    assert(selected.take(count + 1).last() == selected[count]);
}

fn header_at(index: usize) -> (header: &'static str)
    requires
        index < FIELD_COUNT,
    ensures
        header@ == headers()[index as int],
{
    match index {
        0 => "lines",
        1 => "words",
        2 => "bytes",
        3 => "chars",
        _ => "maxline",
    }
}

/// These texts as values.
pub open spec fn texts(list: Seq<&'static str>) -> Seq<Seq<char>> {
    list.map_values(|text: &'static str| text@)
}

/// These owned texts as values.
pub open spec fn owned(list: Seq<String>) -> Seq<Seq<char>> {
    list.map_values(|text: String| text@)
}

/// The headers of the selected measurements, in column order.
pub fn selected_headers(fields: Fields) -> (names: Vec<&'static str>)
    ensures
        texts(names@) == pick(fields.selected(), headers()),
{
    let selectors = fields.selectors();
    let ghost selected = fields.selected();
    let mut names: Vec<&'static str> = Vec::new();
    let mut index: usize = 0;
    assert(texts(names@) =~= pick(selected.take(0), headers()));
    while index < FIELD_COUNT
        invariant
            index <= FIELD_COUNT,
            selected == fields.selected(),
            selectors@ == selected,
            selected.len() == FIELD_COUNT,
            texts(names@) == pick(selected.take(index as int), headers()),
        decreases FIELD_COUNT - index,
    {
        proof {
            lemma_pick_step(selected, headers(), index as int);
        }
        if selectors[index] {
            let ghost earlier = names@;
            names.push(header_at(index));
            assert(texts(names@) =~= texts(earlier).push(headers()[index as int]));
        }
        index += 1;
    }
    assert(selected.take(FIELD_COUNT as int) =~= selected);
    names
}

impl Counts {
    /// The selected measurements in column order, paired with their headers.
    pub fn columns(self, fields: Fields) -> (columns: Vec<(&'static str, usize)>)
        ensures
            columns@.map_values(|column: (&'static str, usize)| column.0@) == pick(
                fields.selected(),
                headers(),
            ),
            columns@.map_values(|column: (&'static str, usize)| column.1) == pick(
                fields.selected(),
                self.measured(),
            ),
    {
        let selectors = fields.selectors();
        let values = self.values();
        let ghost selected = fields.selected();
        let ghost measured = self.measured();
        let mut columns: Vec<(&'static str, usize)> = Vec::new();
        let mut index: usize = 0;
        proof {
            assert(columns@.map_values(|column: (&'static str, usize)| column.0@) =~= pick(
                selected.take(0),
                headers(),
            ));
            assert(columns@.map_values(|column: (&'static str, usize)| column.1) =~= pick(
                selected.take(0),
                measured,
            ));
        }
        while index < FIELD_COUNT
            invariant
                index <= FIELD_COUNT,
                selected == fields.selected(),
                measured == self.measured(),
                selectors@ == selected,
                values@ == measured,
                selected.len() == FIELD_COUNT,
                columns@.map_values(|column: (&'static str, usize)| column.0@) == pick(
                    selected.take(index as int),
                    headers(),
                ),
                columns@.map_values(|column: (&'static str, usize)| column.1) == pick(
                    selected.take(index as int),
                    measured,
                ),
            decreases FIELD_COUNT - index,
        {
            proof {
                lemma_pick_step(selected, headers(), index as int);
                lemma_pick_step(selected, measured, index as int);
            }
            if selectors[index] {
                let ghost earlier = columns@;
                columns.push((header_at(index), values[index]));
                proof {
                    assert(columns@.map_values(|column: (&'static str, usize)| column.0@)
                        =~= earlier.map_values(|column: (&'static str, usize)| column.0@).push(
                        headers()[index as int],
                    ));
                    assert(columns@.map_values(|column: (&'static str, usize)| column.1)
                        =~= earlier.map_values(|column: (&'static str, usize)| column.1).push(
                        measured[index as int],
                    ));
                }
            }
            index += 1;
        }
        assert(selected.take(FIELD_COUNT as int) =~= selected);
        columns
    }
}

/// One measurement as a table shows it. The form with suffixes comes already rendered.
pub open spec fn number_text(value: usize, format: Format, human: Seq<char>) -> Seq<char> {
    match format {
        Format::Human => human,
        Format::Table => grouped(value as nat),
        Format::Plain | Format::Json => decimal_chars(value as nat),
    }
}

/// Render one measurement, which the aligned table pads to width.
pub fn format_number(value: usize, format: Format, human: &str) -> (text: String)
    ensures
        text@ == number_text(value, format, human@),
{
    match format {
        Format::Human => String::from_str(human),
        Format::Table => format_grouped_number(value),
        Format::Plain | Format::Json => decimal_text(value as u64),
    }
}

/// Every measurement of a row as a table shows it.
pub open spec fn all_texts(counts: Counts, format: Format, human: Seq<Seq<char>>) -> Seq<Seq<char>> {
    Seq::new(
        FIELD_COUNT as nat,
        |index: int| number_text(counts.measured()[index], format, human[index]),
    )
}

/// The selected measurements of a row as a table shows them.
pub open spec fn cells_of(
    counts: Counts,
    fields: Fields,
    format: Format,
    human: Seq<Seq<char>>,
) -> Seq<Seq<char>> {
    pick(fields.selected(), all_texts(counts, format, human))
}

/// The selected measurements of a row as a table shows them.
pub fn cells(counts: Counts, fields: Fields, format: Format, human: &[String]) -> (row: Vec<String>)
    requires
        format == Format::Human ==> human@.len() == FIELD_COUNT,
    ensures
        owned(row@) == cells_of(counts, fields, format, owned(human@)),
{
    let selectors = fields.selectors();
    let values = counts.values();
    let ghost selected = fields.selected();
    let ghost rendered = all_texts(counts, format, owned(human@));
    let mut row: Vec<String> = Vec::new();
    let mut index: usize = 0;
    assert(owned(row@) =~= pick(selected.take(0), rendered));
    while index < FIELD_COUNT
        invariant
            index <= FIELD_COUNT,
            selected == fields.selected(),
            selectors@ == selected,
            values@ == counts.measured(),
            selected.len() == FIELD_COUNT,
            format == Format::Human ==> human@.len() == FIELD_COUNT,
            rendered == all_texts(counts, format, owned(human@)),
            owned(row@) == pick(selected.take(index as int), rendered),
        decreases FIELD_COUNT - index,
    {
        proof {
            lemma_pick_step(selected, rendered, index as int);
        }
        if selectors[index] {
            let ghost earlier = row@;
            let text = if format == Format::Human {
                format_number(values[index], format, human[index].as_str())
            } else {
                format_number(values[index], format, "")
            };
            row.push(text);
            assert(owned(row@) =~= owned(earlier).push(rendered[index as int]));
        }
        index += 1;
    }
    assert(selected.take(FIELD_COUNT as int) =~= selected);
    row
}

/// A path cut down to `width` characters, keeping the rightmost part behind three dots, or as many
/// of the dots as there is room for.
pub open spec fn truncated(path: Seq<char>, width: int) -> Seq<char> {
    if path.len() <= width {
        path
    } else if width < 3 {
        "..."@.take(width)
    } else {
        "..."@ + path.subrange(path.len() - (width - 3), path.len() as int)
    }
}

/// Truncate `path` to fit within `max_width`, keeping the rightmost part. Counts characters, not
/// bytes.
pub fn truncate_path(path: &str, max_width: usize) -> (text: String)
    ensures
        text@ == truncated(path@, max_width as int),
        text@.len() <= max_width,
{
    proof {
        reveal_strlit("...");
    }
    let chars = chars_of(path);
    if chars.len() <= max_width {
        return String::from_str(path);
    }
    if max_width < 3 {
        let dots = chars_of("...");
        let mut text = String::new();
        push_chars(&mut text, &dots.as_slice()[0..max_width]);
        assert(text@ =~= "..."@.take(max_width as int));
        return text;
    }
    // Reserve three characters for the dots.
    let keep: usize = max_width - 3;
    let mut text = String::from_str("...");
    push_chars(&mut text, &chars.as_slice()[chars.len() - keep..chars.len()]);
    text
}

/// The width of the name column: the widest name any row prints, its tree glyphs included and
/// [`NAME_WIDTH`] the bound past which a name is truncated.
pub open spec fn widest_name(names: Seq<(Seq<char>, int)>) -> nat
    decreases names.len(),
{
    if names.len() == 0 {
        0
    } else {
        let (name, prefix) = names.last();
        larger(
            widest_name(names.drop_last()),
            (prefix + if name.len() <= NAME_WIDTH - prefix {
                name.len() as int
            } else {
                NAME_WIDTH - prefix
            }) as nat,
        )
    }
}

/// These names and prefix widths as values.
pub open spec fn named(names: Seq<(&str, usize)>) -> Seq<(Seq<char>, int)> {
    names.map_values(|name: (&str, usize)| (name.0@, name.1 as int))
}

/// Width of the name column. Padding every table to the bound instead strands one short name a
/// screen away from its own counts.
pub fn name_width(names: &[(&str, usize)]) -> (width: usize)
    requires
        forall|i: int| 0 <= i < names@.len() ==> (#[trigger] names@[i]).1 <= NAME_WIDTH,
    ensures
        width == widest_name(named(names@)),
        width <= NAME_WIDTH,
{
    let mut width: usize = 0;
    let mut index: usize = 0;
    while index < names.len()
        invariant
            index <= names@.len(),
            width == widest_name(named(names@).take(index as int)),
            width <= NAME_WIDTH,
            forall|i: int| 0 <= i < names@.len() ==> (#[trigger] names@[i]).1 <= NAME_WIDTH,
        decreases names@.len() - index,
    {
        let ghost all = named(names@);
        proof {
            assert(all.take(index + 1).drop_last() =~= all.take(index as int));
            assert(all.take(index + 1).last() == (
                names@[index as int].0@,
                names@[index as int].1 as int,
            ));
        }
        let prefix: usize = names[index].1;
        let room: usize = NAME_WIDTH - prefix;
        let length: usize = names[index].0.unicode_len();
        let taken: usize = prefix + if length <= room {
            length
        } else {
            room
        };
        if width < taken {
            width = taken;
        }
        index += 1;
    }
    assert(named(names@).take(names@.len() as int) =~= named(names@));
    width
}

/// The width of one column: the widest of its header and any of its values. A fixed width silently
/// misaligns the moment a count outgrows it.
pub open spec fn column_width(header: Seq<char>, rows: Seq<Seq<Seq<char>>>, index: int) -> nat
    decreases rows.len(),
{
    if rows.len() == 0 {
        header.len()
    } else {
        larger(column_width(header, rows.drop_last(), index), rows.last()[index].len())
    }
}

/// The width of every column.
pub open spec fn widths_of(headings: Seq<Seq<char>>, rows: Seq<Seq<Seq<char>>>) -> Seq<nat> {
    Seq::new(headings.len(), |index: int| column_width(headings[index], rows, index))
}

/// These rows of cells as values.
pub open spec fn grid(rows: Seq<Vec<String>>) -> Seq<Seq<Seq<char>>> {
    rows.map_values(|row: Vec<String>| owned(row@))
}

/// These widths as values.
pub open spec fn wide(widths: Seq<usize>) -> Seq<nat> {
    widths.map_values(|width: usize| width as nat)
}

/// Width of each selected column: the widest of its header and any of its values.
pub fn column_widths(headings: &[&'static str], rows: &[Vec<String>]) -> (widths: Vec<usize>)
    requires
        forall|i: int| 0 <= i < rows@.len() ==> (#[trigger] rows@[i])@.len() == headings@.len(),
    ensures
        wide(widths@) == widths_of(texts(headings@), grid(rows@)),
        widths@.len() == headings@.len(),
{
    let mut widths: Vec<usize> = Vec::new();
    let mut index: usize = 0;
    while index < headings.len()
        invariant
            index <= headings@.len(),
            widths@.len() == index,
            forall|i: int| 0 <= i < rows@.len() ==> (#[trigger] rows@[i])@.len() == headings@.len(),
            forall|at: int|
                0 <= at < index ==> #[trigger] widths@[at] == column_width(
                    texts(headings@)[at],
                    grid(rows@),
                    at,
                ),
        decreases headings@.len() - index,
    {
        let mut width: usize = headings[index].unicode_len();
        let ghost all = grid(rows@);
        let ghost header = texts(headings@)[index as int];
        let mut row: usize = 0;
        while row < rows.len()
            invariant
                index < headings@.len(),
                row <= rows@.len(),
                all == grid(rows@),
                header == texts(headings@)[index as int],
                forall|i: int|
                    0 <= i < rows@.len() ==> (#[trigger] rows@[i])@.len() == headings@.len(),
                width == column_width(header, all.take(row as int), index as int),
            decreases rows@.len() - row,
        {
            proof {
                assert(all.take(row + 1).drop_last() =~= all.take(row as int));
                assert(all.take(row + 1).last() == owned(rows@[row as int]@));
                assert(rows@[row as int]@.len() == headings@.len());
            }
            let length: usize = rows[row][index].as_str().unicode_len();
            if width < length {
                width = length;
            }
            row += 1;
        }
        assert(all.take(rows@.len() as int) =~= all);
        widths.push(width);
        index += 1;
    }
    assert(wide(widths@) =~= widths_of(texts(headings@), grid(rows@)));
    widths
}

/// The first `count` cells of a row, each behind a space and padded to its column.
pub open spec fn cell_line(row: Seq<Seq<char>>, widths: Seq<nat>, count: int) -> Seq<u8>
    decreases count,
{
    if count <= 0 {
        Seq::empty()
    } else {
        cell_line(row, widths, count - 1) + lit(" ") + aligned(
            row[count - 1],
            widths[count - 1] as int,
        )
    }
}

fn put_cells(out: &mut Vec<u8>, row: &[String], widths: &[usize])
    requires
        row@.len() == widths@.len(),
    ensures
        final(out)@ == old(out)@ + cell_line(owned(row@), wide(widths@), row@.len() as int),
{
    broadcast use crate::bytes::group_append;

    let mut index: usize = 0;
    while index < row.len()
        invariant
            index <= row@.len(),
            row@.len() == widths@.len(),
            out@ == old(out)@ + cell_line(owned(row@), wide(widths@), index as int),
        decreases row@.len() - index,
    {
        broadcast use crate::bytes::group_append;

        put_str(out, " ");
        put_aligned(out, row[index].as_str(), widths[index]);
        index += 1;
    }
}

/// The first `count` columns ruled off.
pub open spec fn rule(widths: Seq<nat>, count: int) -> Seq<u8>
    decreases count,
{
    if count <= 0 {
        Seq::empty()
    } else {
        rule(widths, count - 1) + lit(" ") + repeated(lit("─"), widths[count - 1])
    }
}

/// The header row.
pub open spec fn header_line(headings: Seq<Seq<char>>, name: nat, widths: Seq<nat>) -> Seq<u8> {
    repeated(lit(" "), name) + cell_line(headings, widths, headings.len() as int) + lit("\n")
}

/// Write the header row.
pub fn print_header(out: &mut Vec<u8>, headings: &[&'static str], name: usize, widths: &[usize])
    requires
        headings@.len() == widths@.len(),
    ensures
        final(out)@ == old(out)@ + header_line(texts(headings@), name as nat, wide(widths@)),
{
    broadcast use crate::bytes::group_append;

    put_repeated(out, " ", name);
    let ghost before = out@;
    let mut index: usize = 0;
    while index < headings.len()
        invariant
            index <= headings@.len(),
            headings@.len() == widths@.len(),
            out@ == before + cell_line(texts(headings@), wide(widths@), index as int),
        decreases headings@.len() - index,
    {
        broadcast use crate::bytes::group_append;

        put_str(out, " ");
        put_aligned(out, headings[index], widths[index]);
        index += 1;
    }
    put_str(out, "\n");
}

/// One row of measurements against a left-aligned name, itself prefixed by any tree glyphs.
pub open spec fn row_line(
    prefix: Seq<char>,
    label: Seq<char>,
    row: Seq<Seq<char>>,
    name: nat,
    widths: Seq<nat>,
) -> Seq<u8> {
    encode_utf8(prefix) + padded(
        truncated(label, missing(prefix.len() as int, NAME_WIDTH as int) as int),
        missing(prefix.len() as int, name as int) as int,
    ) + cell_line(row, widths, row.len() as int) + lit("\n")
}

/// Write one row of measurements against a left-aligned name, itself prefixed by any tree glyphs.
pub fn print_row(
    out: &mut Vec<u8>,
    prefix: &str,
    label: &str,
    row: &[String],
    name: usize,
    widths: &[usize],
)
    requires
        row@.len() == widths@.len(),
    ensures
        final(out)@ == old(out)@ + row_line(
            prefix@,
            label@,
            owned(row@),
            name as nat,
            wide(widths@),
        ),
{
    broadcast use crate::bytes::group_append;

    let taken: usize = prefix.unicode_len();
    let text = truncate_path(
        label,
        if NAME_WIDTH > taken {
            NAME_WIDTH - taken
        } else {
            0
        },
    );
    put_str(out, prefix);
    put_padded(
        out,
        text.as_str(),
        if name > taken {
            name - taken
        } else {
            0
        },
    );
    put_cells(out, row, widths);
    put_str(out, "\n");
}

/// The line above the totals.
pub open spec fn separator_line(name: nat, widths: Seq<nat>) -> Seq<u8> {
    repeated(lit(" "), name) + rule(widths, widths.len() as int) + lit("\n")
}

/// Write the separator line above the totals.
pub fn print_separator(out: &mut Vec<u8>, name: usize, widths: &[usize])
    ensures
        final(out)@ == old(out)@ + separator_line(name as nat, wide(widths@)),
{
    broadcast use crate::bytes::group_append;

    put_repeated(out, " ", name);
    let ghost before = out@;
    let mut index: usize = 0;
    while index < widths.len()
        invariant
            index <= widths@.len(),
            out@ == before + rule(wide(widths@), index as int),
        decreases widths@.len() - index,
    {
        broadcast use crate::bytes::group_append;

        put_str(out, " ");
        put_repeated(out, "─", widths[index]);
        index += 1;
    }
    put_str(out, "\n");
}

/// The unnamed totals row.
pub open spec fn totals_line(row: Seq<Seq<char>>, name: nat, widths: Seq<nat>) -> Seq<u8> {
    repeated(lit(" "), name) + cell_line(row, widths, row.len() as int) + lit("\n")
}

/// Write the unnamed totals row.
pub fn print_totals(out: &mut Vec<u8>, row: &[String], name: usize, widths: &[usize])
    requires
        row@.len() == widths@.len(),
    ensures
        final(out)@ == old(out)@ + totals_line(owned(row@), name as nat, wide(widths@)),
{
    broadcast use crate::bytes::group_append;

    put_repeated(out, " ", name);
    put_cells(out, row, widths);
    put_str(out, "\n");
}

} // verus!
