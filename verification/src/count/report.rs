//! A whole counting run: its rows, its totals, and how it ends.

use vstd::prelude::*;
use vstd::string::StringExecFns;
use vstd::utf8::encode_utf8;

use crate::bytes::{decimal, lemma_append, lit, put_decimal, put_str};
use crate::json::{json_text_field_to, text_field};
use crate::status::Status;
use crate::text::chars_of;

use super::render::{
    cells, cells_of, column_widths, grid, header_line, headers, name_width, named, owned, pick,
    print_header, print_row, print_separator, print_totals, row_line, selected_headers,
    separator_line, texts, totals_line, wide, widest_name, widths_of, Format, FIELD_COUNT,
    NAME_WIDTH, TREE_GLYPH_WIDTH,
};
use super::tally::{larger, Counts, Field, Fields};

verus! {

/// What a count was asked for.
#[derive(Debug)]
pub struct Args {
    /// The files and directories to count, or `-` for the standard input.
    pub inputs: Vec<String>,
    /// Which measurements to emit.
    pub fields: Vec<Field>,
    pub utf8: bool,
    /// Match `wc` byte for byte.
    pub posix: bool,
    pub format: Format,
    /// Suppress all output.
    pub quiet: bool,
}

/// The measurements a count emits unless told otherwise.
pub open spec fn default_fields() -> Seq<Field> {
    seq![Field::Lines, Field::Words, Field::Bytes]
}

/// What a count whose arguments do not fit together is answered.
pub open spec fn refusal(args: Args) -> Option<Seq<char>> {
    if args.posix && args.utf8 || args.quiet && (args.format != Format::Table || args.fields@
        != default_fields()) {
        Some("these options cannot be used together"@)
    } else if args.posix && args.fields@.contains(Field::Chars) {
        Some("--posix counts bytes, so it cannot emit --fields chars"@)
    } else {
        None
    }
}

fn are_default(fields: &[Field]) -> (yes: bool)
    ensures
        yes == (fields@ == default_fields()),
{
    if fields.len() != 3 {
        return false;
    }
    let same = fields[0] == Field::Lines && fields[1] == Field::Words && fields[2] == Field::Bytes;
    assert(same ==> fields@ =~= default_fields());
    same
}

/// Check the constraints that depend on the values given.
pub fn validate(args: &Args) -> (checked: Result<(), String>)
    ensures
        match checked {
            Ok(_) => refusal(*args) is None,
            Err(message) => refusal(*args) == Some(message@),
        },
{
    if (args.posix && args.utf8) || (args.quiet && (args.format != Format::Table || !are_default(
        args.fields.as_slice(),
    ))) {
        return Err(String::from_str("these options cannot be used together"));
    }
    if args.posix && Fields::from_selection(args.fields.as_slice()).chars {
        return Err(String::from_str("--posix counts bytes, so it cannot emit --fields chars"));
    }
    Ok(())
}

/// One counted input.
#[derive(Debug)]
pub struct Row {
    /// Full path, which JSON reports untruncated.
    pub path: String,
    /// What the table prints, which the tree view strips to a relative name.
    pub name: String,
    pub counts: Counts,
    /// Every measurement with a K/M/G/T suffix, where that is how the table shows them.
    pub human: Vec<String>,
}

/// Everything one run has to print.
#[derive(Debug)]
pub struct Report {
    pub rows: Vec<Row>,
    pub total: Counts,
    /// The totals with K/M/G/T suffixes, where that is how the table shows them.
    pub total_human: Vec<String>,
    /// The directory the rows hang off, when a lone directory was named.
    pub root: Option<String>,
}

/// The measurements of some rows folded together: everything adds up but the longest line.
pub open spec fn summed(rows: Seq<Row>) -> (nat, nat, nat, nat, nat)
    decreases rows.len(),
{
    if rows.len() == 0 {
        (0, 0, 0, 0, 0)
    } else {
        let (lines, words, bytes, chars, longest) = summed(rows.drop_last());
        let counts = rows.last().counts;
        (
            lines + counts.lines as nat,
            words + counts.words as nat,
            bytes + counts.bytes as nat,
            chars + counts.chars as nat,
            larger(longest, counts.max_line_length as nat),
        )
    }
}

impl Report {
    /// The totals are those of the rows.
    pub open spec fn wf(&self) -> bool {
        (
            self.total.lines as nat,
            self.total.words as nat,
            self.total.bytes as nat,
            self.total.chars as nat,
            self.total.max_line_length as nat,
        ) == summed(self.rows@)
    }

    /// Whether everything is there that a table in this format shows.
    pub open spec fn rendered_for(&self, format: Format) -> bool {
        format == Format::Human ==> {
            &&& self.total_human@.len() == FIELD_COUNT
            &&& forall|i: int|
                0 <= i < self.rows@.len() ==> (#[trigger] self.rows@[i]).human@.len() == FIELD_COUNT
        }
    }

    /// A report without rows, under a directory where the run names just one.
    pub fn new(root: Option<String>) -> (report: Self)
        ensures
            report.wf(),
            report.rows@.len() == 0,
            report.root == root,
            report.total_human@.len() == 0,
    {
        Report { rows: Vec::new(), total: Counts::default(), total_human: Vec::new(), root }
    }

    /// Fold one counted input into the report.
    pub fn push(&mut self, row: Row)
        requires
            old(self).wf(),
            old(self).total.lines + row.counts.lines <= usize::MAX,
            old(self).total.words + row.counts.words <= usize::MAX,
            old(self).total.bytes + row.counts.bytes <= usize::MAX,
            old(self).total.chars + row.counts.chars <= usize::MAX,
        ensures
            final(self).wf(),
            final(self).rows@ == old(self).rows@.push(row),
            final(self).root == old(self).root,
            final(self).total_human == old(self).total_human,
    {
        self.total.add(&row.counts);
        let ghost earlier = self.rows@;
        self.rows.push(row);
        assert(self.rows@.drop_last() =~= earlier);
    }
}

/// How a lone directory is labelled: with exactly the slash it may have been named with already.
pub open spec fn root_label(text: Seq<char>) -> Seq<char> {
    if text.len() > 0 && text.last() == '/' {
        text
    } else {
        text + "/"@
    }
}

/// The label of a lone directory, which ends in a slash.
pub fn label_root(text: &str) -> (label: String)
    ensures
        label@ == root_label(text@),
{
    let chars = chars_of(text);
    let mut label = String::from_str(text);
    if chars.len() == 0 || chars[chars.len() - 1] != '/' {
        label.append("/");
    }
    label
}

/// The status a finished run reports. Nothing readable did not complete; nothing counted completed
/// and found nothing.
pub open spec fn ending(rows: nat, failures: nat) -> Status {
    if rows > 0 {
        Status::Success
    } else if failures > 0 {
        Status::Error
    } else {
        Status::NoResult
    }
}

/// The status a finished run reports.
pub fn outcome(report: &Report, failures: usize) -> (status: Status)
    ensures
        status == ending(report.rows@.len(), failures as nat),
{
    if report.rows.len() > 0 {
        Status::Success
    } else if failures > 0 {
        Status::Error
    } else {
        Status::NoResult
    }
}

/// The first `count` selected measurements as members of a record.
pub open spec fn json_members(names: Seq<Seq<char>>, values: Seq<usize>, count: int) -> Seq<u8>
    decreases count,
{
    if count <= 0 {
        Seq::empty()
    } else {
        json_members(names, values, count - 1) + lit(",\"") + encode_utf8(names[count - 1]) + lit(
            "\":",
        ) + decimal(values[count - 1] as nat)
    }
}

/// Every selected measurement as a member of a record.
pub open spec fn json_counts(counts: Counts, fields: Fields) -> Seq<u8> {
    let names = pick(fields.selected(), headers());
    json_members(names, pick(fields.selected(), counts.measured()), names.len() as int)
}

fn put_json_counts(out: &mut Vec<u8>, counts: &Counts, fields: Fields)
    ensures
        final(out)@ == old(out)@ + json_counts(*counts, fields),
{
    broadcast use crate::bytes::group_append;

    let columns = counts.columns(fields);
    let ghost names = pick(fields.selected(), headers());
    let ghost values = pick(fields.selected(), counts.measured());
    let mut index: usize = 0;
    while index < columns.len()
        invariant
            index <= columns@.len(),
            names == columns@.map_values(|column: (&'static str, usize)| column.0@),
            values == columns@.map_values(|column: (&'static str, usize)| column.1),
            out@ == old(out)@ + json_members(names, values, index as int),
        decreases columns@.len() - index,
    {
        broadcast use crate::bytes::group_append;

        assert(names[index as int] == columns@[index as int].0@);
        assert(values[index as int] == columns@[index as int].1);
        put_str(out, ",\"");
        put_str(out, columns[index].0);
        put_str(out, "\":");
        put_decimal(out, columns[index].1 as u64);
        index += 1;
    }
}

/// One input's record, with the untruncated path and bare integers.
pub open spec fn count_record(path: Seq<char>, counts: Counts, fields: Fields) -> Seq<u8> {
    lit("{\"type\":\"count\",\"data\":{\"path\":") + text_field(encode_utf8(path)) + json_counts(
        counts,
        fields,
    ) + lit("}}\n")
}

/// Write one input's record, with the untruncated path and bare integers.
pub fn write_counts_json(out: &mut Vec<u8>, path: &str, counts: &Counts, fields: Fields)
    ensures
        final(out)@ == old(out)@ + count_record(path@, *counts, fields),
{
    broadcast use crate::bytes::group_append;

    put_str(out, "{\"type\":\"count\",\"data\":{\"path\":");
    json_text_field_to(out, path.as_bytes());
    put_json_counts(out, counts, fields);
    put_str(out, "}}\n");
}

/// The final record, which also reports how many inputs were read.
pub open spec fn total_record(files: nat, counts: Counts, fields: Fields) -> Seq<u8> {
    lit("{\"type\":\"total\",\"data\":{\"files\":") + decimal(files) + json_counts(counts, fields)
        + lit("}}\n")
}

/// Write the final record, which also reports how many inputs were read.
pub fn write_total_json(out: &mut Vec<u8>, files: usize, counts: &Counts, fields: Fields)
    ensures
        final(out)@ == old(out)@ + total_record(files as nat, *counts, fields),
{
    broadcast use crate::bytes::group_append;

    put_str(out, "{\"type\":\"total\",\"data\":{\"files\":");
    put_decimal(out, files as u64);
    put_json_counts(out, counts, fields);
    put_str(out, "}}\n");
}

/// The records of the first `count` rows.
pub open spec fn row_records(rows: Seq<Row>, fields: Fields, count: int) -> Seq<u8>
    decreases count,
{
    if count <= 0 {
        Seq::empty()
    } else {
        row_records(rows, fields, count - 1) + count_record(
            rows[count - 1].path@,
            rows[count - 1].counts,
            fields,
        )
    }
}

/// The cells of every row.
pub open spec fn row_cells(rows: Seq<Row>, fields: Fields, format: Format) -> Seq<Seq<Seq<char>>> {
    rows.map_values(|row: Row| cells_of(row.counts, fields, format, owned(row.human@)))
}

/// The names a table lists: the directory where the rows hang off one, and the rows.
pub open spec fn listed(root: Option<Seq<char>>, rows: Seq<Row>) -> Seq<(Seq<char>, int)> {
    let prefix = if root is Some {
        TREE_GLYPH_WIDTH as int
    } else {
        0
    };
    (match root {
        Some(root) => seq![(root, 0int)],
        None => Seq::empty(),
    }) + rows.map_values(|row: Row| (row.name@, prefix))
}

/// The branch glyphs in front of a row.
pub open spec fn branch_of(rooted: bool, last: bool) -> Seq<char> {
    if !rooted {
        ""@
    } else if last {
        "└─ "@
    } else {
        "├─ "@
    }
}

/// The first `count` rows of a table.
pub open spec fn table_rows(
    rows: Seq<Row>,
    cell_rows: Seq<Seq<Seq<char>>>,
    rooted: bool,
    name: nat,
    widths: Seq<nat>,
    count: int,
) -> Seq<u8>
    decreases count,
{
    if count <= 0 {
        Seq::empty()
    } else {
        table_rows(rows, cell_rows, rooted, name, widths, count - 1) + row_line(
            branch_of(rooted, count == rows.len()),
            rows[count - 1].name@,
            cell_rows[count - 1],
            name,
            widths,
        )
    }
}

impl Report {
    /// The directory the rows hang off, as text.
    pub open spec fn rooted_at(&self) -> Option<Seq<char>> {
        match self.root {
            Some(root) => Some(root@),
            None => None,
        }
    }

    /// The whole report as aligned columns.
    pub open spec fn table(&self, fields: Fields, format: Format) -> Seq<u8> {
        let headings = pick(fields.selected(), headers());
        let cell_rows = row_cells(self.rows@, fields, format);
        let total = cells_of(self.total, fields, format, owned(self.total_human@));
        let widths = widths_of(headings, cell_rows.push(total));
        let name = widest_name(listed(self.rooted_at(), self.rows@));
        header_line(headings, name, widths) + (match self.root {
            Some(root) => row_line(""@, root@, total, name, widths),
            None => Seq::empty(),
        }) + table_rows(
            self.rows@,
            cell_rows,
            self.root is Some,
            name,
            widths,
            self.rows@.len() as int,
        ) + separator_line(name, widths) + totals_line(total, name, widths)
    }

    /// One input on its own: a bare integer where one measurement was asked for, and a table of one
    /// row without totals otherwise.
    pub open spec fn lone_row(&self, fields: Fields, format: Format) -> Seq<u8> {
        let row = self.rows@[0];
        let values = pick(fields.selected(), row.counts.measured());
        if values.len() == 1 {
            decimal(values[0] as nat) + lit("\n")
        } else {
            let headings = pick(fields.selected(), headers());
            let shown = cells_of(row.counts, fields, format, owned(row.human@));
            let widths = widths_of(headings, seq![shown]);
            let name = widest_name(seq![(row.name@, 0int)]);
            header_line(headings, name, widths) + row_line(""@, row.name@, shown, name, widths)
        }
    }

    /// The whole report as records.
    pub open spec fn records(&self, fields: Fields) -> Seq<u8> {
        row_records(self.rows@, fields, self.rows@.len() as int) + if self.rows@.len() > 1
            || self.root is Some {
            total_record(self.rows@.len(), self.total, fields)
        } else {
            Seq::empty()
        }
    }

    /// The whole report as it is printed.
    pub open spec fn printed(&self, fields: Fields, format: Format) -> Seq<u8> {
        if format == Format::Json {
            self.records(fields)
        } else if self.rows@.len() == 1 && self.root is None {
            self.lone_row(fields, format)
        } else {
            self.table(fields, format)
        }
    }

    fn render_json(&self, out: &mut Vec<u8>, fields: Fields)
        ensures
            final(out)@ == old(out)@ + self.records(fields),
    {
        let mut index: usize = 0;
        assert(out@ + Seq::<u8>::empty() =~= out@);
        while index < self.rows.len()
            invariant
                index <= self.rows@.len(),
                out@ == old(out)@ + row_records(self.rows@, fields, index as int),
            decreases self.rows@.len() - index,
        {
            let row = &self.rows[index];
            write_counts_json(out, row.path.as_str(), &row.counts, fields);
            proof {
                lemma_append(
                    old(out)@,
                    row_records(self.rows@, fields, index as int),
                    count_record(row.path@, row.counts, fields),
                );
            }
            index += 1;
        }
        let ghost before = out@;
        let ghost records = row_records(self.rows@, fields, self.rows@.len() as int);
        if self.rows.len() > 1 || self.root.is_some() {
            write_total_json(out, self.rows.len(), &self.total, fields);
            proof {
                lemma_append(
                    old(out)@,
                    records,
                    total_record(self.rows@.len(), self.total, fields),
                );
            }
        } else {
            assert(records + Seq::<u8>::empty() =~= records);
        }
    }

    fn render_lone_row(&self, out: &mut Vec<u8>, fields: Fields, format: Format)
        requires
            self.rows@.len() == 1,
            self.rendered_for(format),
        ensures
            final(out)@ == old(out)@ + self.lone_row(fields, format),
    {
        broadcast use crate::bytes::group_append;

        let row = &self.rows[0];
        let columns = row.counts.columns(fields);
        let ghost values = pick(fields.selected(), row.counts.measured());
        assert(values == columns@.map_values(|column: (&'static str, usize)| column.1));
        if columns.len() == 1 {
            // Exactly one selector and exactly one input: a bare integer.
            assert(values[0] == columns@[0].1);
            put_decimal(out, columns[0].1 as u64);
            put_str(out, "\n");
            return;
        }
        let headings = selected_headers(fields);
        let shown = cells(row.counts, fields, format, row.human.as_slice());
        proof {
            lemma_same_width(row.counts, fields, format, owned(row.human@), headings@, shown@);
        }
        let names: [(&str, usize); 1] = [(row.name.as_str(), 0)];
        let name: usize = name_width(names.as_slice());
        assert(named(names@) =~= seq![(row.name@, 0int)]);
        let mut all: Vec<Vec<String>> = Vec::new();
        all.push(shown);
        assert(grid(all@) =~= seq![owned(shown@)]);
        let widths = column_widths(headings.as_slice(), all.as_slice());
        print_header(out, headings.as_slice(), name, widths.as_slice());
        print_row(out, "", row.name.as_str(), all[0].as_slice(), name, widths.as_slice());
    }
}

impl Report {
    /// The cells of every row, and those of the totals behind them.
    fn all_cells(&self, fields: Fields, format: Format) -> (all: Vec<Vec<String>>)
        requires
            self.rendered_for(format),
        ensures
            grid(all@) == row_cells(self.rows@, fields, format).push(
                cells_of(self.total, fields, format, owned(self.total_human@)),
            ),
            all@.len() == self.rows@.len() + 1,
    {
        let ghost whole = row_cells(self.rows@, fields, format);
        let mut all: Vec<Vec<String>> = Vec::new();
        let mut index: usize = 0;
        assert(grid(all@) =~= whole.take(0));
        while index < self.rows.len()
            invariant
                index <= self.rows@.len(),
                all@.len() == index,
                self.rendered_for(format),
                whole == row_cells(self.rows@, fields, format),
                grid(all@) == whole.take(index as int),
            decreases self.rows@.len() - index,
        {
            let row = &self.rows[index];
            assert(format == Format::Human ==> self.rows@[index as int].human@.len()
                == FIELD_COUNT);
            let ghost earlier = all@;
            all.push(cells(row.counts, fields, format, row.human.as_slice()));
            assert(grid(all@) =~= grid(earlier).push(whole[index as int]));
            assert(whole.take(index + 1) =~= whole.take(index as int).push(whole[index as int]));
            index += 1;
        }
        assert(whole.take(self.rows@.len() as int) =~= whole);
        let ghost earlier = all@;
        let total = cells(self.total, fields, format, self.total_human.as_slice());
        all.push(total);
        assert(grid(all@) =~= grid(earlier).push(owned(total@)));
        all
    }

    /// The width of the name column.
    fn listed_width(&self) -> (width: usize)
        ensures
            width == widest_name(listed(self.rooted_at(), self.rows@)),
    {
        let prefix: usize = if self.root.is_some() {
            TREE_GLYPH_WIDTH
        } else {
            0
        };
        let ghost whole = listed(self.rooted_at(), self.rows@);
        let mut names: Vec<(&str, usize)> = Vec::new();
        if let Some(root) = &self.root {
            names.push((root.as_str(), 0));
        }
        let ghost lead = names@.len();
        assert(named(names@) =~= whole.take(lead as int));
        let mut index: usize = 0;
        while index < self.rows.len()
            invariant
                index <= self.rows@.len(),
                names@.len() == lead + index,
                lead == if self.root is Some {
                    1nat
                } else {
                    0nat
                },
                prefix == if self.root is Some {
                    TREE_GLYPH_WIDTH
                } else {
                    0
                },
                whole == listed(self.rooted_at(), self.rows@),
                named(names@) == whole.take(lead + index),
                forall|i: int| 0 <= i < names@.len() ==> (#[trigger] names@[i]).1 <= NAME_WIDTH,
            decreases self.rows@.len() - index,
        {
            let ghost earlier = names@;
            names.push((self.rows[index].name.as_str(), prefix));
            proof {
                let at = lead + index;
                assert(whole[at] == (self.rows@[index as int].name@, prefix as int));
                assert(named(names@) =~= named(earlier).push(whole[at]));
                assert(whole.take(at + 1) =~= whole.take(at).push(whole[at]));
            }
            index += 1;
        }
        assert(whole.take(whole.len() as int) =~= whole);
        name_width(names.as_slice())
    }

    fn render_rows(
        &self,
        out: &mut Vec<u8>,
        all: &[Vec<String>],
        name: usize,
        widths: &[usize],
        Ghost(cell_rows): Ghost<Seq<Seq<Seq<char>>>>,
    )
        requires
            self.rows@.len() <= all@.len(),
            self.rows@.len() <= cell_rows.len(),
            forall|i: int|
                0 <= i < self.rows@.len() ==> owned((#[trigger] all@[i])@) == cell_rows[i],
            forall|i: int|
                0 <= i < self.rows@.len() ==> (#[trigger] all@[i])@.len() == widths@.len(),
        ensures
            final(out)@ == old(out)@ + table_rows(
                self.rows@,
                cell_rows,
                self.root is Some,
                name as nat,
                wide(widths@),
                self.rows@.len() as int,
            ),
    {
        let rooted = self.root.is_some();
        let mut index: usize = 0;
        assert(out@ + Seq::<u8>::empty() =~= out@);
        while index < self.rows.len()
            invariant
                index <= self.rows@.len(),
                self.rows@.len() <= all@.len(),
                self.rows@.len() <= cell_rows.len(),
                rooted == self.root is Some,
                forall|i: int|
                    0 <= i < self.rows@.len() ==> owned((#[trigger] all@[i])@) == cell_rows[i],
                forall|i: int|
                    0 <= i < self.rows@.len() ==> (#[trigger] all@[i])@.len() == widths@.len(),
                out@ == old(out)@ + table_rows(
                    self.rows@,
                    cell_rows,
                    rooted,
                    name as nat,
                    wide(widths@),
                    index as int,
                ),
            decreases self.rows@.len() - index,
        {
            let branch = if !rooted {
                ""
            } else if index + 1 == self.rows.len() {
                "└─ "
            } else {
                "├─ "
            };
            assert(all@[index as int]@.len() == widths@.len());
            print_row(
                out,
                branch,
                self.rows[index].name.as_str(),
                all[index].as_slice(),
                name,
                widths,
            );
            proof {
                lemma_append(
                    old(out)@,
                    table_rows(
                        self.rows@,
                        cell_rows,
                        rooted,
                        name as nat,
                        wide(widths@),
                        index as int,
                    ),
                    row_line(
                        branch@,
                        self.rows@[index as int].name@,
                        cell_rows[index as int],
                        name as nat,
                        wide(widths@),
                    ),
                );
            }
            index += 1;
        }
    }

    fn render_table(&self, out: &mut Vec<u8>, fields: Fields, format: Format)
        requires
            self.rendered_for(format),
        ensures
            final(out)@ == old(out)@ + self.table(fields, format),
    {
        broadcast use crate::bytes::group_append;

        let headings = selected_headers(fields);
        let all = self.all_cells(fields, format);
        let ghost cell_rows = row_cells(self.rows@, fields, format);
        let ghost total = cells_of(self.total, fields, format, owned(self.total_human@));
        let count: usize = self.rows.len();
        proof {
            assert(grid(all@)[count as int] == total);
            assert forall|i: int| 0 <= i < all@.len() implies (#[trigger] all@[i])@.len()
                == headings@.len() by {
                assert(grid(all@)[i] == owned(all@[i]@));
                if i < count {
                    let row = self.rows@[i];
                    assert(cell_rows[i] == cells_of(
                        row.counts,
                        fields,
                        format,
                        owned(row.human@),
                    ));
                    lemma_same_width(
                        row.counts,
                        fields,
                        format,
                        owned(row.human@),
                        headings@,
                        all@[i]@,
                    );
                } else {
                    lemma_same_width(
                        self.total,
                        fields,
                        format,
                        owned(self.total_human@),
                        headings@,
                        all@[i]@,
                    );
                }
            }
            assert forall|i: int| 0 <= i < count implies owned((#[trigger] all@[i])@)
                == cell_rows[i] by {
                assert(grid(all@)[i] == owned(all@[i]@));
            }
        }
        let name: usize = self.listed_width();
        let widths = column_widths(headings.as_slice(), all.as_slice());
        print_header(out, headings.as_slice(), name, widths.as_slice());
        if let Some(root) = &self.root {
            print_row(out, "", root.as_str(), all[count].as_slice(), name, widths.as_slice());
        }
        self.render_rows(out, all.as_slice(), name, widths.as_slice(), Ghost(cell_rows));
        print_separator(out, name, widths.as_slice());
        print_totals(out, all[count].as_slice(), name, widths.as_slice());
    }

    /// Write the whole report.
    pub fn render(&self, out: &mut Vec<u8>, fields: Fields, format: Format)
        requires
            self.rendered_for(format),
        ensures
            final(out)@ == old(out)@ + self.printed(fields, format),
    {
        if format == Format::Json {
            self.render_json(out, fields);
        } else if self.rows.len() == 1 && self.root.is_none() {
            self.render_lone_row(out, fields, format);
        } else {
            self.render_table(out, fields, format);
        }
    }
}

/// A row has as many cells as the table has columns.
proof fn lemma_same_width(
    counts: Counts,
    fields: Fields,
    format: Format,
    human: Seq<Seq<char>>,
    headings: Seq<&'static str>,
    shown: Seq<String>,
)
    requires
        texts(headings) == pick(fields.selected(), headers()),
        owned(shown) == cells_of(counts, fields, format, human),
    ensures
        headings.len() == shown.len(),
{
    super::render::lemma_pick_len(
        fields.selected(),
        headers(),
        super::render::all_texts(counts, format, human),
    );
    assert(texts(headings).len() == headings.len());
    assert(owned(shown).len() == shown.len());
}

/// A count goes ahead where it does not count bytes and characters at once, and where a quiet one is
/// not told what to print.
pub proof fn only_options_that_fit_are_run(args: Args)
    ensures
        refusal(args) is None <==> {
            &&& args.posix ==> !args.utf8 && !args.fields@.contains(Field::Chars)
            &&& args.quiet ==> args.format == Format::Table && args.fields@ == seq![
                Field::Lines,
                Field::Words,
                Field::Bytes,
            ]
        },
{
}

/// A directory is labelled with one slash behind its name, and a label with one is kept.
pub proof fn a_directory_is_labelled_with_a_slash(name: Seq<char>)
    ensures
        root_label(name).last() == '/',
        root_label(root_label(name)) == root_label(name),
        name.len() > 0 && name.last() == '/' ==> root_label(name) == name,
        name.len() == 0 || name.last() != '/' ==> root_label(name) == name.push('/'),
{
    reveal_strlit("/");
    assert(name + "/"@ =~= name.push('/'));
}

} // verus!
