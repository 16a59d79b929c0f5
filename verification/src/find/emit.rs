//! How a selected line is written.

use vstd::prelude::*;
use vstd::utf8::encode_utf8;

use crate::bytes::{decimal, lemma_append, lit, put, put_decimal, put_str};
use crate::hashing::{content_hash, format_hash, hash_name, HASH_CHARS};
use crate::json::{json_text_field_to, text_field};
use crate::lines::Newlines;
use crate::sz::hash_of;

use super::matcher::{
    column_of, kept_length, matches_from, trim_to_limit, units, Fit, MatchInfo, Rule,
};
use super::options::{holds_field, Field, OutputConfig, OutputFormat, Show};
use super::search::Search;

verus! {

/// Whether a printed line has its matches wrapped in the highlight color.
#[derive(Clone, Copy, Debug, PartialEq, Eq, Structural)]
pub enum Coloring {
    Plain,
    Matches,
}

/// One line as an emitter sees it: its bytes, where it sits, and how it was selected.
#[derive(Clone, Copy, Debug)]
pub struct LineRecord<'a> {
    /// The line as the newline set cut it, which is what the record prints and matches against.
    pub as_cut: &'a [u8],
    /// The line and its terminator, which is what names it.
    pub whole: &'a [u8],
    pub line_number: usize,
    pub byte_offset: usize,
    /// False for a surrounding context line, which prints `-` where a match prints `:`.
    pub is_match: bool,
    /// The match a column points at, found once where the line was selected.
    pub first_match: Option<MatchInfo>,
}

/// One line as an emitter sees it, as values.
pub ghost struct Record {
    pub as_cut: Seq<u8>,
    pub whole: Seq<u8>,
    pub number: nat,
    pub offset: nat,
    pub is_match: bool,
    pub first: Option<(int, int)>,
}

impl<'a> View for LineRecord<'a> {
    type V = Record;

    open spec fn view(&self) -> Record {
        Record {
            as_cut: self.as_cut@,
            whole: self.whole@,
            number: self.line_number as nat,
            offset: self.byte_offset as nat,
            is_match: self.is_match,
            first: match self.first_match {
                Some(found) => Some((found.offset as int, found.length as int)),
                None => None,
            },
        }
    }
}

impl<'a> LineRecord<'a> {
    /// The match a column points at lies inside the line.
    pub open spec fn wf(&self) -> bool {
        self.first_match matches Some(found) ==> found.inside(self.as_cut@) && found.length > 0
    }
}

/// What a budget keeps of a run of bytes.
pub open spec fn kept_of(run: Seq<u8>, budget: Option<int>, newlines: Newlines) -> Seq<u8> {
    match budget {
        Some(limit) => run.subrange(0, kept_length(run, limit, newlines)),
        None => run,
    }
}

/// Whether a budget runs out inside a run of bytes.
pub open spec fn cut_of(run: Seq<u8>, budget: Option<int>, newlines: Newlines) -> bool {
    budget matches Some(limit) && kept_length(run, limit, newlines) < run.len()
}

/// What is left of a budget behind a run of bytes.
pub open spec fn left_of(run: Seq<u8>, budget: Option<int>, newlines: Newlines) -> Option<int> {
    match budget {
        Some(limit) => Some(limit - units(kept_of(run, budget, newlines), newlines)),
        None => None,
    }
}

/// A limit as a budget still to spend.
pub open spec fn budget_of(limit: Option<usize>) -> Option<int> {
    match limit {
        Some(limit) => Some(limit as int),
        None => None,
    }
}

/// The rest of a line from `from` on against one shared budget, every match behind `start` and in
/// front of `stop`, and whether the budget ran out. The stop is written even where the budget ran
/// out inside the match, so a trimmed line never leaves the terminal colored.
pub open spec fn spans(
    line: Seq<u8>,
    from: int,
    found: Seq<(int, int)>,
    budget: Option<int>,
    newlines: Newlines,
    start: Seq<u8>,
    stop: Seq<u8>,
) -> (Seq<u8>, bool)
    decreases found.len(),
{
    if found.len() == 0 {
        let rest = line.subrange(from, line.len() as int);
        (kept_of(rest, budget, newlines), cut_of(rest, budget, newlines))
    } else {
        let (offset, length) = found[0];
        let gap = line.subrange(from, offset);
        let left = left_of(gap, budget, newlines);
        let text = line.subrange(offset, offset + length);
        if cut_of(gap, budget, newlines) {
            (kept_of(gap, budget, newlines), true)
        } else {
            let head = kept_of(gap, budget, newlines) + start + kept_of(text, left, newlines)
                + stop;
            if cut_of(text, left, newlines) {
                (head, true)
            } else {
                let (rest, cut) = spans(
                    line,
                    offset + length,
                    found.drop_first(),
                    left_of(text, left, newlines),
                    newlines,
                    start,
                    stop,
                );
                (head + rest, cut)
            }
        }
    }
}

/// One match of a line, as a member of a JSON array.
#[verifier::opaque]
pub open spec fn submatch(line: Seq<u8>, offset: int, length: int) -> Seq<u8> {
    lit("{\"match\":") + text_field(line.subrange(offset, offset + length)) + lit(",\"start\":")
        + decimal(offset as nat) + lit(",\"end\":") + decimal((offset + length) as nat) + lit("}")
}

/// Everything that decides how a record is written: the file it came from, the pattern its matches
/// are resolved against, and the resolved output flags.
pub ghost struct Sheet {
    pub path: Seq<u8>,
    pub rule: Rule,
    pub newlines: Newlines,
    pub invert: bool,
    pub config: OutputConfig,
    /// The bytes a heading names beside the path.
    pub heading: Option<Seq<u8>>,
}

impl Sheet {
    /// Whether the record holds match positions to point at. An inverted search selects the lines
    /// that hold none.
    pub open spec fn positioned(self, record: Record) -> bool {
        record.is_match && !self.invert
    }

    /// One column, in its color, and the separator behind it.
    pub open spec fn cell(self, color: &str, text: Seq<u8>, separator: Seq<u8>) -> Seq<u8> {
        lit(color) + text + lit(self.config.colors.reset) + separator
    }

    /// What stands between columns: `-` sets a context line off where a matching line uses `:`.
    pub open spec fn separator(record: Record) -> Seq<u8> {
        if record.is_match {
            lit(":")
        } else {
            lit("-")
        }
    }

    /// The name of the line itself, never of what is printed of it.
    pub open spec fn line_name(self, record: Record) -> Seq<u8> {
        encode_utf8(hash_name(hash_of(record.whole), self.config.hash_width as int))
    }

    /// The column of the record's first match.
    pub open spec fn column(self, record: Record) -> nat {
        match record.first {
            Some((offset, _)) => column_of(record.as_cut, offset, self.newlines),
            None => 1,
        }
    }

    /// The columns that come before a record's text: where it is, and what it is named.
    pub open spec fn prefix(self, record: Record) -> Seq<u8> {
        let colors = self.config.colors;
        let separator = Sheet::separator(record);
        (if self.config.names_path() {
            self.cell(colors.path, self.path, separator)
        } else {
            Seq::empty()
        }) + (if self.config.numbers_lines() {
            self.cell(colors.line_number, decimal(record.number), separator)
        } else {
            Seq::empty()
        }) + (if self.config.numbers_columns() && self.positioned(record) {
            self.cell(colors.column, decimal(self.column(record)), separator)
        } else {
            Seq::empty()
        }) + (if holds_field(self.config.fields, Field::ByteOffset) {
            self.cell(colors.byte_offset, decimal(record.offset), separator)
        } else {
            Seq::empty()
        }) + (if holds_field(self.config.fields, Field::LineHashes) {
            self.cell(colors.hash, self.line_name(record), separator)
        } else {
            Seq::empty()
        })
    }

    /// The matches of a line.
    pub open spec fn found(self, line: Seq<u8>) -> Seq<(int, int)> {
        matches_from(line, self.rule, 0)
    }

    /// A whole line, trimmed to the limit and ending in the mark that tells its reader the rest
    /// was dropped. An escape code is not a character anyone reads, so it spends none of the limit.
    pub open spec fn body(self, line: Seq<u8>, coloring: Coloring) -> Seq<u8> {
        let (text, cut) = self.spans_of(line, coloring);
        text + if cut {
            lit(" [...]")
        } else {
            Seq::empty()
        }
    }

    /// The runs of a line against the limit, and whether the limit cut it.
    pub open spec fn spans_of(self, line: Seq<u8>, coloring: Coloring) -> (Seq<u8>, bool) {
        match coloring {
            Coloring::Plain => spans(
                line,
                0,
                Seq::empty(),
                budget_of(self.config.max_line_length),
                self.newlines,
                Seq::empty(),
                Seq::empty(),
            ),
            Coloring::Matches => spans(
                line,
                0,
                self.found(line),
                budget_of(self.config.max_line_length),
                self.newlines,
                lit(self.config.colors.match_highlight),
                lit(self.config.colors.reset),
            ),
        }
    }

    /// The matches of a record as records of their own, each behind the whole prefix but the first,
    /// whose prefix is already there.
    pub open spec fn matched_parts(
        self,
        record: Record,
        found: Seq<(int, int)>,
        first: bool,
    ) -> Seq<u8>
        decreases found.len(),
    {
        if found.len() == 0 {
            Seq::empty()
        } else {
            let (offset, length) = found[0];
            (if first {
                Seq::empty()
            } else {
                seq![self.config.terminator] + self.prefix(record)
            }) + lit(self.config.colors.match_highlight) + record.as_cut.subrange(
                offset,
                offset + length,
            ) + lit(self.config.colors.reset) + self.matched_parts(
                record,
                found.drop_first(),
                false,
            )
        }
    }

    /// A line's content, reduced to the matches themselves where only they are shown.
    pub open spec fn content(self, record: Record, coloring: Coloring) -> Seq<u8> {
        if self.config.show == Show::Matches && self.positioned(record) {
            self.matched_parts(record, self.found(record.as_cut), true)
        } else {
            self.body(record.as_cut, coloring)
        }
    }

    /// One match of a line in vimgrep format: where it stands, and what is shown of its line.
    #[verifier::opaque]
    pub open spec fn vimgrep_text(
        self,
        record: Record,
        offset: int,
        length: int,
        coloring: Coloring,
    ) -> Seq<u8> {
        self.path + lit(":") + decimal(record.number) + lit(":") + decimal(
            column_of(record.as_cut, offset, self.newlines),
        ) + lit(":") + (if self.config.show == Show::Matches {
            record.as_cut.subrange(offset, offset + length)
        } else {
            self.body(record.as_cut, coloring)
        }) + seq![self.config.terminator]
    }

    /// Every match on its own `file:line:column:text` line.
    pub open spec fn vimgrep_lines(
        self,
        record: Record,
        found: Seq<(int, int)>,
        coloring: Coloring,
    ) -> Seq<u8>
        decreases found.len(),
    {
        if found.len() == 0 {
            Seq::empty()
        } else {
            let (offset, length) = found[0];
            self.vimgrep_text(record, offset, length, coloring) + self.vimgrep_lines(
                record,
                found.drop_first(),
                coloring,
            )
        }
    }

    /// The name of the line, as a field of a JSON record.
    pub open spec fn hash_field(self, record: Record) -> Seq<u8> {
        if holds_field(self.config.fields, Field::LineHashes) {
            lit(",\"line_hash\":\"") + self.line_name(record) + lit("\"")
        } else {
            Seq::empty()
        }
    }

    /// How every JSON record of a line begins.
    pub open spec fn record_head(self, kind: &str, record: Record) -> Seq<u8> {
        lit(kind) + text_field(self.path) + lit(",\"lines\":") + text_field(record.as_cut) + lit(
            ",\"line_number\":",
        ) + decimal(record.number) + lit(",\"absolute_offset\":") + decimal(record.offset)
            + self.hash_field(record)
    }

    /// The matches of a line, as members of a JSON array.
    pub open spec fn submatches(self, line: Seq<u8>, found: Seq<(int, int)>, first: bool) -> Seq<u8>
        decreases found.len(),
    {
        if found.len() == 0 {
            Seq::empty()
        } else {
            let (offset, length) = found[0];
            (if first {
                Seq::empty()
            } else {
                lit(",")
            }) + submatch(line, offset, length) + self.submatches(line, found.drop_first(), false)
        }
    }

    /// One line in JSON Lines format.
    pub open spec fn json_record(self, record: Record) -> Seq<u8> {
        if !record.is_match {
            self.record_head("{\"type\":\"context\",\"data\":{\"path\":", record) + lit("}}\n")
        } else if !self.positioned(record) {
            // An inverted match holds no position, so it carries no submatches.
            self.record_head("{\"type\":\"match\",\"data\":{\"path\":", record) + lit(
                ",\"submatches\":[]}}\n",
            )
        } else {
            self.record_head("{\"type\":\"match\",\"data\":{\"path\":", record) + lit(
                ",\"submatches\":[",
            ) + self.submatches(record.as_cut, self.found(record.as_cut), true) + lit("]}}\n")
        }
    }

    /// A line behind the prefixes the format asks for.
    pub open spec fn line(self, record: Record, coloring: Coloring) -> Seq<u8> {
        match self.config.output_format {
            OutputFormat::Json => self.json_record(record),
            OutputFormat::Vimgrep => if self.positioned(record) {
                self.vimgrep_lines(record, self.found(record.as_cut), coloring)
            } else if record.is_match {
                // An inverted match holds no position, so the line prints at column one.
                self.path + lit(":") + decimal(record.number) + lit(":1:") + self.body(
                    record.as_cut,
                    coloring,
                ) + seq![self.config.terminator]
            } else {
                Seq::empty()
            },
            _ => self.prefix(record) + self.content(record, coloring)
                + seq![self.config.terminator],
        }
    }

    /// A matching line, its matches colored where the format allows.
    pub open spec fn match_line(self, record: Record) -> Seq<u8> {
        self.line(
            record,
            if self.config.colors_matches() && self.positioned(record) {
                Coloring::Matches
            } else {
                Coloring::Plain
            },
        )
    }

    /// Whether the format opens a file with a header.
    pub open spec fn opens_files(self) -> bool {
        self.config.output_format == OutputFormat::Heading || self.config.output_format
            == OutputFormat::Json
    }

    /// The once-per-file header the format calls for.
    pub open spec fn file_heading(self) -> Seq<u8> {
        let colors = self.config.colors;
        match self.config.output_format {
            OutputFormat::Heading => lit(colors.path) + self.path + lit(colors.reset) + (
            match self.heading {
                // Two spaces rather than `:`, which would read as a `file:line` prefix.
                Some(data) => lit("  ") + lit(colors.hash) + encode_utf8(
                    hash_name(hash_of(data), HASH_CHARS as int),
                ) + lit(colors.reset),
                None => Seq::empty(),
            }) + lit("\n"),
            OutputFormat::Json => lit("{\"type\":\"begin\",\"data\":{\"path\":") + text_field(
                self.path,
            ) + lit("}}\n"),
            _ => Seq::empty(),
        }
    }

    /// The divider between groups of lines that do not adjoin.
    pub open spec fn group_separator(self) -> Seq<u8> {
        if self.config.output_format == OutputFormat::Json {
            Seq::empty()
        } else {
            lit(self.config.colors.separator) + lit("--") + lit(self.config.colors.reset) + lit(
                "\n",
            )
        }
    }

    /// A whole region of lines, verbatim. An input whose last line is unterminated still prints as
    /// a whole line.
    pub open spec fn region(self, region: Seq<u8>) -> Seq<u8> {
        (if self.config.names_path() {
            lit(self.config.colors.path) + self.path + lit(self.config.colors.reset) + lit(":")
        } else {
            Seq::empty()
        }) + region + (if region.len() > 0 && region.last() == 0x0A {
            Seq::empty()
        } else {
            seq![self.config.terminator]
        })
    }
}

/// Everything a printed line reads beyond the line itself: the file it came from, the pattern its
/// matches are resolved against, and the resolved output flags.
#[derive(Clone, Copy)]
pub struct Emitter<'a> {
    pub path: &'a str,
    pub search: &'a Search<'a>,
    pub config: &'a OutputConfig,
    /// The bytes a heading names beside the path, hashed on the first record that prints one.
    pub heading_hash: Option<&'a [u8]>,
}

impl<'a> View for Emitter<'a> {
    type V = Sheet;

    open spec fn view(&self) -> Sheet {
        Sheet {
            path: encode_utf8(self.path@),
            rule: self.search.matcher@,
            newlines: self.search.newlines,
            invert: self.search.invert_match,
            config: *self.config,
            heading: match self.heading_hash {
                Some(data) => Some(data@),
                None => None,
            },
        }
    }
}

impl<'a> Emitter<'a> {
    pub open spec fn wf(&self) -> bool {
        self.search.wf()
    }

    /// Whether the record holds match positions to point at.
    pub fn positions_in(&self, record: LineRecord<'_>) -> (yes: bool)
        ensures
            yes == self@.positioned(record@),
    {
        record.is_match && !self.search.invert_match
    }

    /// Emit the once-per-file header the format calls for, on its first printed match.
    pub fn file_heading(&self, out: &mut Vec<u8>, printed: &mut bool)
        ensures
            final(out)@ == old(out)@ + if *old(printed) {
                Seq::empty()
            } else {
                self@.file_heading()
            },
            *final(printed) == (*old(printed) || self@.opens_files()),
    {
        broadcast use crate::bytes::group_append;

        if *printed {
            return;
        }
        match self.config.output_format {
            OutputFormat::Heading => {
                put_str(out, self.config.colors.path);
                put_str(out, self.path);
                put_str(out, self.config.colors.reset);
                // Beside the path, which is the only place a whole-file value belongs in a stream
                // of per-line records.
                if let Some(data) = self.heading_hash {
                    put_str(out, "  ");
                    put_str(out, self.config.colors.hash);
                    put_str(out, format_hash(content_hash(data), HASH_CHARS).as_str());
                    put_str(out, self.config.colors.reset);
                }
                put_str(out, "\n");
                *printed = true;
            },
            // JSON names the file again when it closes it, and that is where the file's hash goes:
            // an opening record is written long before a stream reaches the bytes it would cover.
            OutputFormat::Json => {
                put_str(out, "{\"type\":\"begin\",\"data\":{\"path\":");
                json_text_field_to(out, self.path.as_bytes());
                put_str(out, "}}\n");
                *printed = true;
            },
            _ => {},
        }
    }

    /// The `--` divider between groups of lines that do not adjoin. JSON Lines has no such record,
    /// and every line it emits carries its own number.
    pub fn group_separator(&self, out: &mut Vec<u8>)
        ensures
            final(out)@ == old(out)@ + self@.group_separator(),
    {
        broadcast use crate::bytes::group_append;

        if self.config.output_format == OutputFormat::Json {
            return;
        }
        put_str(out, self.config.colors.separator);
        put_str(out, "--");
        put_str(out, self.config.colors.reset);
        put_str(out, "\n");
    }

    fn put_cell(&self, out: &mut Vec<u8>, color: &str, text: &str, separator: &str)
        ensures
            final(out)@ == old(out)@ + self@.cell(color, lit(text), lit(separator)),
    {
        broadcast use crate::bytes::group_append;

        put_str(out, color);
        put_str(out, text);
        put_str(out, self.config.colors.reset);
        put_str(out, separator);
    }

    fn put_number_cell(&self, out: &mut Vec<u8>, color: &str, number: usize, separator: &str)
        ensures
            final(out)@ == old(out)@ + self@.cell(color, decimal(number as nat), lit(separator)),
    {
        broadcast use crate::bytes::group_append;

        put_str(out, color);
        put_decimal(out, number as u64);
        put_str(out, self.config.colors.reset);
        put_str(out, separator);
    }

    /// Write the columns that come before a record's text. Repeated for every record that one line
    /// gives, so a consumer counting fields reads the same shape on every row.
    pub fn write_prefix(&self, out: &mut Vec<u8>, record: LineRecord<'_>)
        requires
            record.wf(),
        ensures
            final(out)@ == old(out)@ + self@.prefix(record@),
    {
        broadcast use crate::bytes::group_append;

        let colors = self.config.colors;
        let separator = if record.is_match {
            ":"
        } else {
            "-"
        };
        if self.config.shows_path() {
            self.put_cell(out, colors.path, self.path, separator);
        }
        if self.config.line_numbers() {
            self.put_number_cell(out, colors.line_number, record.line_number, separator);
        }
        if self.config.column_numbers() && self.positions_in(record) {
            let column: usize = match record.first_match {
                Some(found) => found.column(record.as_cut, self.search.newlines),
                None => 1,
            };
            self.put_number_cell(out, colors.column, column, separator);
        }
        if self.config.carries(Field::ByteOffset) {
            self.put_number_cell(out, colors.byte_offset, record.byte_offset, separator);
        }
        // Last of the prefix, because it names the line rather than locating it, and because
        // leaving the positional columns contiguous keeps a cut on `:` working.
        if self.config.carries(Field::LineHashes) {
            let name = format_hash(content_hash(record.whole), self.config.hash_width);
            self.put_cell(out, colors.hash, name.as_str(), separator);
        }
    }

    /// Write as much of `run` as the budget still allows, spending what it wrote.
    pub fn write_run(&self, out: &mut Vec<u8>, run: &[u8], budget: &mut Option<usize>) -> (fit: Fit)
        ensures
            final(out)@ == old(out)@ + kept_of(
                run@,
                budget_of(*old(budget)),
                self.search.newlines,
            ),
            fit == if cut_of(run@, budget_of(*old(budget)), self.search.newlines) {
                Fit::Cut
            } else {
                Fit::Whole
            },
            budget_of(*final(budget)) == left_of(
                run@,
                budget_of(*old(budget)),
                self.search.newlines,
            ),
    {
        match *budget {
            None => {
                put(out, run);
                Fit::Whole
            },
            Some(limit) => {
                let (kept, spent, fit) = trim_to_limit(run, limit, self.search.newlines);
                *budget = Some(limit - spent);
                put(out, kept);
                fit
            },
        }
    }

    /// Write the line's runs against one shared budget, wrapping every match in the highlight color
    /// where one was asked for, and stopping where the budget runs out.
    pub fn write_spans(&self, out: &mut Vec<u8>, line: &[u8], coloring: Coloring) -> (fit: Fit)
        requires
            self.wf(),
        ensures
            ({
                let written = self@.spans_of(line@, coloring);
                final(out)@ == old(out)@ + written.0 && fit == if written.1 {
                    Fit::Cut
                } else {
                    Fit::Whole
                }
            }),
    {
        let mut budget = self.config.max_line_length;
        let ghost newlines = self.search.newlines;
        if coloring == Coloring::Plain {
            assert(line@.subrange(0, line@.len() as int) =~= line@);
            return self.write_run(out, line, &mut budget);
        }
        let ghost start = lit(self.config.colors.match_highlight);
        let ghost stop = lit(self.config.colors.reset);
        let ghost whole = self@.spans_of(line@, coloring);
        let mut cursor: usize = 0;
        let mut matches = self.search.matcher.matches(line);
        loop
            invariant
                self.wf(),
                matches.wf(),
                matches.input() == line@,
                matches.rule() == self.search.matcher@,
                matches.at() == cursor,
                cursor <= line@.len(),
                newlines == self.search.newlines,
                start == lit(self.config.colors.match_highlight),
                stop == lit(self.config.colors.reset),
                whole == self@.spans_of(line@, coloring),
                ({
                    let rest = spans(
                        line@,
                        cursor as int,
                        matches.remaining(),
                        budget_of(budget),
                        newlines,
                        start,
                        stop,
                    );
                    old(out)@ + whole.0 == out@ + rest.0 && whole.1 == rest.1
                }),
            ensures
                matches.remaining().len() == 0,
            decreases line@.len() - cursor,
        {
            let found = match matches.next() {
                Some(found) => found,
                None => {
                    break;
                },
            };
            let ghost before = out@;
            let ghost budget_before = budget_of(budget);
            let gap: &[u8] = &line[cursor..found.offset];
            if self.write_run(out, gap, &mut budget) == Fit::Cut {
                return Fit::Cut;
            }
            put_str(out, self.config.colors.match_highlight);
            let text = found.text(line);
            let ghost left = budget_of(budget);
            let fit = self.write_run(out, text, &mut budget);
            put_str(out, self.config.colors.reset);
            proof {
                let head = kept_of(gap@, budget_before, newlines) + start + kept_of(
                    text@,
                    left,
                    newlines,
                ) + stop;
                assert(out@ == before + head) by {
                    broadcast use crate::bytes::group_append;

                }
                let rest = spans(
                    line@,
                    found.offset + found.length,
                    matches.remaining(),
                    left_of(text@, left, newlines),
                    newlines,
                    start,
                    stop,
                );
                lemma_append(before, head, rest.0);
            }
            if fit == Fit::Cut {
                return Fit::Cut;
            }
            assert(found.offset + found.length <= line.len());
            cursor = found.offset + found.length;
        }
        self.write_run(out, &line[cursor..line.len()], &mut budget)
    }

    /// Write a whole line, trimmed to the limit on a character boundary and ending in the mark that
    /// tells its reader the rest was dropped.
    pub fn write_body(&self, out: &mut Vec<u8>, line: &[u8], coloring: Coloring)
        requires
            self.wf(),
        ensures
            final(out)@ == old(out)@ + self@.body(line@, coloring),
    {
        broadcast use crate::bytes::group_append;

        match self.write_spans(out, line, coloring) {
            Fit::Whole => {},
            Fit::Cut => {
                put_str(out, " [...]");
            },
        }
    }

    /// Write a line's content, reduced to the matches themselves where only they are shown.
    pub fn write_content(&self, out: &mut Vec<u8>, record: LineRecord<'_>, coloring: Coloring)
        requires
            self.wf(),
            record.wf(),
        ensures
            final(out)@ == old(out)@ + self@.content(record@, coloring),
    {
        if !(self.config.only_matches() && self.positions_in(record)) {
            self.write_body(out, record.as_cut, coloring);
            return;
        }
        let ghost whole = self@.content(record@, coloring);
        let ghost sheet = self@;
        let mut first = true;
        let mut matches = self.search.matcher.matches(record.as_cut);
        loop
            invariant
                self.wf(),
                record.wf(),
                matches.wf(),
                sheet == self@,
                matches.input() == record.as_cut@,
                matches.rule() == self.search.matcher@,
                matches.at() <= record.as_cut@.len(),
                old(out)@ + whole == out@ + sheet.matched_parts(
                    record@,
                    matches.remaining(),
                    first,
                ),
            ensures
                matches.remaining().len() == 0,
            decreases record.as_cut@.len() - matches.at(),
        {
            let ghost before = out@;
            let ghost leads = first;
            let found = match matches.next() {
                Some(found) => found,
                None => {
                    break;
                },
            };
            if !first {
                out.push(self.config.terminator);
                // Every match is its own record, so it carries the whole prefix rather than
                // trailing the first one's.
                self.write_prefix(out, record);
            }
            put_str(out, self.config.colors.match_highlight);
            put(out, found.text(record.as_cut));
            put_str(out, self.config.colors.reset);
            first = false;
            proof {
                let head = (if leads {
                    Seq::<u8>::empty()
                } else {
                    seq![sheet.config.terminator] + sheet.prefix(record@)
                }) + lit(sheet.config.colors.match_highlight) + record@.as_cut.subrange(
                    found.offset as int,
                    found.offset + found.length,
                ) + lit(sheet.config.colors.reset);
                assert(out@ == before + head) by {
                    broadcast use crate::bytes::group_append;

                }
                let rest = sheet.matched_parts(record@, matches.remaining(), false);
                lemma_append(before, head, rest);
            }
        }
        proof {
            assert(sheet.matched_parts(record@, matches.remaining(), first) =~= Seq::empty());
            assert(out@ + Seq::<u8>::empty() =~= out@);
        }
    }

    /// Write the field that names the line, where one was asked for.
    pub fn json_line_hash(&self, out: &mut Vec<u8>, record: LineRecord<'_>)
        ensures
            final(out)@ == old(out)@ + self@.hash_field(record@),
    {
        broadcast use crate::bytes::group_append;

        if !self.config.carries(Field::LineHashes) {
            return;
        }
        put_str(out, ",\"line_hash\":\"");
        put_str(out, format_hash(content_hash(record.whole), self.config.hash_width).as_str());
        put_str(out, "\"");
    }

    fn json_head(&self, out: &mut Vec<u8>, kind: &str, record: LineRecord<'_>)
        ensures
            final(out)@ == old(out)@ + self@.record_head(kind, record@),
    {
        broadcast use crate::bytes::group_append;

        put_str(out, kind);
        json_text_field_to(out, self.path.as_bytes());
        put_str(out, ",\"lines\":");
        json_text_field_to(out, record.as_cut);
        put_str(out, ",\"line_number\":");
        put_decimal(out, record.line_number as u64);
        put_str(out, ",\"absolute_offset\":");
        put_decimal(out, record.byte_offset as u64);
        self.json_line_hash(out, record);
    }

    fn json_submatches(&self, out: &mut Vec<u8>, line: &[u8])
        requires
            self.wf(),
        ensures
            final(out)@ == old(out)@ + self@.submatches(line@, self@.found(line@), true),
    {
        let ghost sheet = self@;
        let ghost whole = sheet.submatches(line@, sheet.found(line@), true);
        let mut first = true;
        let mut matches = self.search.matcher.matches(line);
        loop
            invariant
                self.wf(),
                matches.wf(),
                sheet == self@,
                matches.input() == line@,
                matches.rule() == self.search.matcher@,
                matches.at() <= line@.len(),
                old(out)@ + whole == out@ + sheet.submatches(line@, matches.remaining(), first),
            ensures
                matches.remaining().len() == 0,
            decreases line@.len() - matches.at(),
        {
            let ghost before = out@;
            let ghost leads = first;
            let found = match matches.next() {
                Some(found) => found,
                None => {
                    break;
                },
            };
            if !first {
                put_str(out, ",");
            }
            first = false;
            self.json_submatch(out, line, found);
            proof {
                let head = (if leads {
                    Seq::<u8>::empty()
                } else {
                    lit(",")
                });
                let member = submatch(line@, found.offset as int, found.length as int);
                let rest = sheet.submatches(line@, matches.remaining(), false);
                assert(out@ == before + (head + member)) by {
                    broadcast use crate::bytes::group_append;

                }
                lemma_append(before, head + member, rest);
            }
        }
        proof {
            assert(sheet.submatches(line@, matches.remaining(), first) =~= Seq::empty());
            assert(out@ + Seq::<u8>::empty() =~= out@);
        }
    }

    fn json_submatch(&self, out: &mut Vec<u8>, line: &[u8], found: MatchInfo)
        requires
            found.inside(line@),
        ensures
            final(out)@ == old(out)@ + submatch(line@, found.offset as int, found.length as int),
    {
        broadcast use crate::bytes::group_append;

        proof {
            reveal(submatch);
        }
        assert(found.offset + found.length <= line.len());
        put_str(out, "{\"match\":");
        json_text_field_to(out, found.text(line));
        put_str(out, ",\"start\":");
        put_decimal(out, found.offset as u64);
        put_str(out, ",\"end\":");
        put_decimal(out, (found.offset + found.length) as u64);
        put_str(out, "}");
    }

    /// Print one line in JSON Lines format.
    pub fn json_line(&self, out: &mut Vec<u8>, record: LineRecord<'_>)
        requires
            self.wf(),
        ensures
            final(out)@ == old(out)@ + self@.json_record(record@),
    {
        broadcast use crate::bytes::group_append;

        if !record.is_match {
            self.json_head(out, "{\"type\":\"context\",\"data\":{\"path\":", record);
            put_str(out, "}}\n");
        } else if !self.positions_in(record) {
            self.json_head(out, "{\"type\":\"match\",\"data\":{\"path\":", record);
            put_str(out, ",\"submatches\":[]}}\n");
        } else {
            self.json_head(out, "{\"type\":\"match\",\"data\":{\"path\":", record);
            put_str(out, ",\"submatches\":[");
            self.json_submatches(out, record.as_cut);
            put_str(out, "]}}\n");
        }
    }

    fn vimgrep_line(
        &self,
        out: &mut Vec<u8>,
        record: LineRecord<'_>,
        found: MatchInfo,
        coloring: Coloring,
    )
        requires
            self.wf(),
            found.inside(record.as_cut@),
            found.length > 0,
        ensures
            final(out)@ == old(out)@ + self@.vimgrep_text(
                record@,
                found.offset as int,
                found.length as int,
                coloring,
            ),
    {
        broadcast use crate::bytes::group_append;

        proof {
            reveal(Sheet::vimgrep_text);
        }
        put_str(out, self.path);
        put_str(out, ":");
        put_decimal(out, record.line_number as u64);
        put_str(out, ":");
        put_decimal(out, found.column(record.as_cut, self.search.newlines) as u64);
        put_str(out, ":");
        if self.config.only_matches() {
            put(out, found.text(record.as_cut));
        } else {
            self.write_body(out, record.as_cut, coloring);
        }
        let ghost before = out@;
        out.push(self.config.terminator);
        assert(out@ =~= before + seq![self.config.terminator]);
    }

    fn vimgrep_matches(&self, out: &mut Vec<u8>, record: LineRecord<'_>, coloring: Coloring)
        requires
            self.wf(),
        ensures
            final(out)@ == old(out)@ + self@.vimgrep_lines(
                record@,
                self@.found(record@.as_cut),
                coloring,
            ),
    {
        let ghost sheet = self@;
        let ghost whole = sheet.vimgrep_lines(record@, sheet.found(record@.as_cut), coloring);
        let mut matches = self.search.matcher.matches(record.as_cut);
        loop
            invariant
                self.wf(),
                matches.wf(),
                sheet == self@,
                matches.input() == record.as_cut@,
                matches.rule() == self.search.matcher@,
                matches.at() <= record.as_cut@.len(),
                old(out)@ + whole == out@ + sheet.vimgrep_lines(
                    record@,
                    matches.remaining(),
                    coloring,
                ),
            ensures
                matches.remaining().len() == 0,
            decreases record.as_cut@.len() - matches.at(),
        {
            let ghost before = out@;
            let found = match matches.next() {
                Some(found) => found,
                None => {
                    break;
                },
            };
            self.vimgrep_line(out, record, found, coloring);
            proof {
                lemma_append(
                    before,
                    sheet.vimgrep_text(
                        record@,
                        found.offset as int,
                        found.length as int,
                        coloring,
                    ),
                    sheet.vimgrep_lines(record@, matches.remaining(), coloring),
                );
            }
        }
        proof {
            assert(sheet.vimgrep_lines(record@, matches.remaining(), coloring) =~= Seq::empty());
            assert(out@ + Seq::<u8>::empty() =~= out@);
        }
    }

    /// Print the line behind the prefixes the format asks for, resolving every position against the
    /// line as it was cut.
    pub fn write_line(&self, out: &mut Vec<u8>, record: LineRecord<'_>, coloring: Coloring)
        requires
            self.wf(),
            record.wf(),
        ensures
            final(out)@ == old(out)@ + self@.line(record@, coloring),
    {
        broadcast use crate::bytes::group_append;

        match self.config.output_format {
            OutputFormat::Json => {
                self.json_line(out, record);
            },
            OutputFormat::Vimgrep => {
                if self.positions_in(record) {
                    self.vimgrep_matches(out, record, coloring);
                } else if record.is_match {
                    put_str(out, self.path);
                    put_str(out, ":");
                    put_decimal(out, record.line_number as u64);
                    put_str(out, ":1:");
                    self.write_body(out, record.as_cut, coloring);
                    self.end_record(out);
                }
            },
            OutputFormat::Standard | OutputFormat::Heading => {
                self.write_prefix(out, record);
                self.write_content(out, record, coloring);
                self.end_record(out);
            },
        }
    }

    fn end_record(&self, out: &mut Vec<u8>)
        ensures
            final(out)@ == old(out)@ + seq![self@.config.terminator],
    {
        out.push(self.config.terminator);
        assert(out@ =~= old(out)@ + seq![self.config.terminator]);
    }

    /// Print a matching line, coloring its matches where the format allows.
    pub fn match_line(&self, out: &mut Vec<u8>, record: LineRecord<'_>)
        requires
            self.wf(),
            record.wf(),
        ensures
            final(out)@ == old(out)@ + self@.match_line(record@),
    {
        // The color decision travels beside the record rather than inside it: the column resolves
        // against the line as it was found, and an escape code ahead of a match would shift that
        // column by its own length.
        let coloring = if self.config.highlights() && self.positions_in(record) {
            Coloring::Matches
        } else {
            Coloring::Plain
        };
        self.write_line(out, record, coloring);
    }

    /// Print one line with the prefixes its format asks for.
    pub fn line(&self, out: &mut Vec<u8>, record: LineRecord<'_>)
        requires
            self.wf(),
            record.wf(),
        ensures
            final(out)@ == old(out)@ + self@.line(record@, Coloring::Plain),
    {
        self.write_line(out, record, Coloring::Plain);
    }

    /// Write a whole multi-line region verbatim, which is what a multiline search prints when no
    /// per-line prefix is asked for.
    pub fn region(&self, out: &mut Vec<u8>, region: &[u8])
        ensures
            final(out)@ == old(out)@ + self@.region(region@),
    {
        broadcast use crate::bytes::group_append;

        if self.config.shows_path() {
            put_str(out, self.config.colors.path);
            put_str(out, self.path);
            put_str(out, self.config.colors.reset);
            put_str(out, ":");
        }
        put(out, region);
        if region.len() == 0 || region[region.len() - 1] != 0x0A {
            self.end_record(out);
        }
    }
}

} // verus!
