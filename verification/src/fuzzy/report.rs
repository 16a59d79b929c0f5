//! What a fuzzy search says: the lines that survived, in the order they are reported, and the
//! records about them.
//!
//! Scores are numbers the engine computes. They come in here as what they are ordered by and as the
//! text they are shown as.

use vstd::prelude::*;
use vstd::string::StringExecFns;
use vstd::utf8::encode_utf8;

use crate::bytes::{decimal, lemma_append, lemma_ascii_bytes, lit, put, put_decimal, put_str};
use crate::json::{json_text_field_to, text_field, Terminator};
use crate::lines::{lines, LineIter, Newlines};
use crate::sorting::{ordered, sort, Ranked};
use crate::status::{Failure, Status};

use super::keyboards::Keyboard;
use super::options::{holds_field, Args, Field, Format, SearchConfig, Show};
use super::rewrites::Located;
use super::tables::texts;
use super::vocabulary::{query_of, reachable, Route, Vocabulary};

verus! {

/// Everything the writer needs, decided once.
#[derive(Clone, Copy, Debug, PartialEq, Eq, Structural)]
pub struct OutputConfig {
    pub line_numbers: bool,
    pub scores: bool,
    pub show: Show,
    pub format: Format,
    /// Prefix each record with its file name, as for several inputs.
    pub prefix: bool,
    pub summary: bool,
    pub terminator: Terminator,
}

impl OutputConfig {
    /// How a run over this many inputs reports. Ranked lines show what they are ranked by.
    pub fn of(args: &Args, inputs: usize) -> (config: Self)
        ensures
            config == (OutputConfig {
                line_numbers: args.fields@.contains(Field::LineNumbers),
                scores: args.fields@.contains(Field::Scores) || args.top_k is Some,
                show: match args.show {
                    Some(show) => show,
                    None => Show::Lines,
                },
                format: match args.format {
                    Some(format) => format,
                    None => Format::Text,
                },
                prefix: inputs > 1,
                summary: args.summary,
                terminator: if args.null {
                    Terminator::Null
                } else {
                    Terminator::Newline
                },
            }),
    {
        OutputConfig {
            line_numbers: holds_field(args.fields.as_slice(), Field::LineNumbers),
            scores: holds_field(args.fields.as_slice(), Field::Scores)
                || args.top_k.is_some(),
            show: match args.show {
                Some(show) => show,
                None => Show::default(),
            },
            format: match args.format {
                Some(format) => format,
                None => Format::default(),
            },
            prefix: inputs > 1,
            summary: args.summary,
            terminator: Terminator::from_null(args.null),
        }
    }
}

/// A line that matched: where it stands, what it is ranked by, and how its score is shown.
#[derive(Clone, Copy, Debug)]
pub struct Survivor<'a> {
    /// How many lines stand before it in its input.
    pub index: usize,
    pub line: &'a [u8],
    /// Orders lines as their scores do, the higher the better.
    pub rank: u32,
    pub score: &'a str,
}

impl<'a> Ranked for Survivor<'a> {
    open spec fn first(self, other: Self) -> bool {
        self.rank > other.rank || self.rank == other.rank && self.index < other.index
    }

    fn goes_first(&self, other: &Self) -> (yes: bool) {
        self.rank > other.rank || (self.rank == other.rank && self.index < other.index)
    }

    proof fn lemma_not_both(one: Self, two: Self) {
    }

    proof fn lemma_chain(one: Self, two: Self, three: Self) {
    }
}

/// Whether these are the best of some lines, the best first: the front of all of them put in order.
pub open spec fn best_of(
    kept: Seq<Survivor<'_>>,
    all: Seq<Survivor<'_>>,
    ranking: Seq<Survivor<'_>>,
    top: int,
) -> bool {
    &&& ordered(ranking, true)
    &&& ranking.to_multiset() == all.to_multiset()
    &&& ranking.len() == all.len()
    &&& kept == if top < ranking.len() {
        ranking.take(top)
    } else {
        ranking
    }
}

/// Keep the lines in the order of their input, or the best `top` of them, the best first and the
/// earlier first among equals.
pub fn rank<'a>(survivors: Vec<Survivor<'a>>, top: Option<usize>) -> (kept: Vec<Survivor<'a>>)
    ensures
        match top {
            None => kept@ == survivors@,
            Some(top) => exists|ranking: Seq<Survivor<'a>>| #[trigger]
                best_of(kept@, survivors@, ranking, top as int),
        },
{
    match top {
        None => survivors,
        Some(top) => {
            let mut kept = sort(survivors);
            let ghost ranking = kept@;
            if top < kept.len() {
                kept.truncate(top);
                assert(kept@ =~= ranking.take(top as int));
            }
            assert(best_of(kept@, survivors@, ranking, top as int));
            kept
        },
    }
}

/// Cut one input into the lines that are searched.
pub fn search_lines<'a>(data: &'a [u8], utf8: bool) -> (all: Vec<&'a [u8]>)
    ensures
        ({
            let newlines = if utf8 {
                Newlines::Unicode
            } else {
                Newlines::Lf
            };
            let cut = lines(data@, 0, newlines);
            &&& all@.len() == cut.len()
            &&& forall|i: int| 0 <= i < cut.len() ==> (#[trigger] all@[i])@ == cut[i].as_cut(data@)
        }),
{
    let newlines = Newlines::from_utf8(utf8);
    let ghost cut = lines(data@, 0, newlines);
    let mut all: Vec<&'a [u8]> = Vec::new();
    let mut rest = LineIter::new(data, newlines);
    assert(cut.subrange(0, cut.len() as int) =~= cut);
    loop
        invariant
            rest.wf(),
            rest.input() == data@,
            all@.len() <= cut.len(),
            rest.remaining() == cut.subrange(all@.len() as int, cut.len() as int),
            forall|i: int|
                0 <= i < all@.len() ==> (#[trigger] all@[i])@ == cut[i].as_cut(data@),
        ensures
            all@.len() == cut.len(),
        decreases cut.len() - all@.len(),
    {
        match rest.next() {
            Some(line) => {
                proof {
                    assert(cut.subrange(all@.len() as int, cut.len() as int).drop_first()
                        =~= cut.subrange((all@.len() + 1) as int, cut.len() as int));
                }
                all.push(line);
            },
            None => {
                break;
            },
        }
    }
    all
}

/// How one match is written: a JSON object, or the line behind whatever columns were asked for.
pub open spec fn match_record(
    config: OutputConfig,
    path: Seq<char>,
    number: nat,
    line: Seq<u8>,
    score: Seq<char>,
) -> Seq<u8> {
    if config.format == Format::Json {
        lit("{\"type\":\"match\",\"data\":{\"path\":") + text_field(encode_utf8(path)) + lit(
            ",\"lines\":",
        ) + text_field(line) + lit(",\"line_number\":") + decimal(number) + (if config.scores {
            lit(",\"score\":") + encode_utf8(score)
        } else {
            Seq::empty()
        }) + lit(",\"submatches\":[]}}\n")
    } else {
        column(config.prefix, encode_utf8(path)) + column(config.line_numbers, decimal(number))
            + column(config.scores, encode_utf8(score)) + line + seq![config.terminator.byte()]
    }
}

/// A column in front of a record, where it is asked for.
pub open spec fn column(asked: bool, text: Seq<u8>) -> Seq<u8> {
    if asked {
        text + lit(":")
    } else {
        Seq::empty()
    }
}

fn put_column(output: &mut Vec<u8>, asked: bool, text: &str)
    ensures
        final(output)@ == old(output)@ + column(asked, encode_utf8(text@)),
{
    if asked {
        put_str(output, text);
        put_str(output, ":");
    }
    assert(output@ =~= old(output)@ + column(asked, encode_utf8(text@)));
}

fn put_number_column(output: &mut Vec<u8>, asked: bool, number: usize)
    ensures
        final(output)@ == old(output)@ + column(asked, decimal(number as nat)),
{
    if asked {
        put_decimal(output, number as u64);
        put_str(output, ":");
    }
    assert(output@ =~= old(output)@ + column(asked, decimal(number as nat)));
}

/// Write one match.
pub fn write_match(
    output: &mut Vec<u8>,
    config: &OutputConfig,
    path: &str,
    number: usize,
    line: &[u8],
    score: &str,
)
    ensures
        final(output)@ == old(output)@ + match_record(
            *config,
            path@,
            number as nat,
            line@,
            score@,
        ),
{
    if config.format == Format::Json {
        write_match_json(output, config, path, number, line, score);
        return;
    }
    broadcast use crate::bytes::group_append;

    put_column(output, config.prefix, path);
    put_number_column(output, config.line_numbers, number);
    put_column(output, config.scores, score);
    put(output, line);
    put(output, &[config.terminator.as_byte()]);
    assert([config.terminator.byte()]@ =~= seq![config.terminator.byte()]);
}

fn write_match_json(
    output: &mut Vec<u8>,
    config: &OutputConfig,
    path: &str,
    number: usize,
    line: &[u8],
    score: &str,
)
    requires
        config.format == Format::Json,
    ensures
        final(output)@ == old(output)@ + match_record(
            *config,
            path@,
            number as nat,
            line@,
            score@,
        ),
{
    broadcast use crate::bytes::group_append;

    put_str(output, "{\"type\":\"match\",\"data\":{\"path\":");
    json_text_field_to(output, path.as_bytes());
    put_str(output, ",\"lines\":");
    json_text_field_to(output, line);
    put_str(output, ",\"line_number\":");
    put_decimal(output, number as u64);
    if config.scores {
        put_str(output, ",\"score\":");
        put_str(output, score);
    }
    put_str(output, ",\"submatches\":[]}}\n");
}

/// One count per input.
pub open spec fn count_record(config: OutputConfig, path: Seq<char>, count: nat) -> Seq<u8> {
    if config.format == Format::Json {
        lit("{\"type\":\"count\",\"data\":{\"path\":") + text_field(encode_utf8(path)) + lit(
            ",\"count\":",
        ) + decimal(count) + lit("}}\n")
    } else {
        column(config.prefix, encode_utf8(path)) + decimal(count) + seq![config.terminator.byte()]
    }
}

/// Write one count record.
pub fn write_count(output: &mut Vec<u8>, config: &OutputConfig, path: &str, count: usize)
    ensures
        final(output)@ == old(output)@ + count_record(*config, path@, count as nat),
{
    if config.format == Format::Json {
        put_str(output, "{\"type\":\"count\",\"data\":{\"path\":");
        json_text_field_to(output, path.as_bytes());
        put_str(output, ",\"count\":");
        put_decimal(output, count as u64);
        put_str(output, "}}\n");
    } else {
        put_column(output, config.prefix, path);
        put_decimal(output, count as u64);
        output.push(config.terminator.as_byte());
    }
    assert(output@ =~= old(output)@ + count_record(*config, path@, count as nat));
}

/// One path, for the two modes that report inputs rather than lines.
pub open spec fn path_record(config: OutputConfig, path: Seq<char>) -> Seq<u8> {
    if config.format == Format::Json {
        lit("{\"type\":\"path\",\"data\":{\"path\":") + text_field(encode_utf8(path)) + lit("}}\n")
    } else {
        encode_utf8(path) + seq![config.terminator.byte()]
    }
}

/// Write one path record.
pub fn write_path(output: &mut Vec<u8>, config: &OutputConfig, path: &str)
    ensures
        final(output)@ == old(output)@ + path_record(*config, path@),
{
    if config.format == Format::Json {
        put_str(output, "{\"type\":\"path\",\"data\":{\"path\":");
        json_text_field_to(output, path.as_bytes());
        put_str(output, "}}\n");
    } else {
        put_str(output, path);
        output.push(config.terminator.as_byte());
    }
    assert(output@ =~= old(output)@ + path_record(*config, path@));
}

/// The matching lines, one behind the other.
pub open spec fn line_records(
    config: OutputConfig,
    path: Seq<char>,
    survivors: Seq<Survivor<'_>>,
) -> Seq<u8>
    decreases survivors.len(),
{
    if survivors.len() == 0 {
        Seq::empty()
    } else {
        let last = survivors.last();
        line_records(config, path, survivors.drop_last()) + match_record(
            config,
            path,
            (last.index + 1) as nat,
            last.line@,
            last.score@,
        )
    }
}

/// Whether a span lies in the line it was located in.
pub open spec fn lies_in(located: Located, survivors: Seq<Survivor<'_>>) -> bool {
    located.line_index < survivors.len() && located.byte_offset + located.byte_length
        <= survivors[located.line_index as int].line@.len()
}

/// The matched parts of the lines, one behind the other.
pub open spec fn span_records(
    config: OutputConfig,
    path: Seq<char>,
    survivors: Seq<Survivor<'_>>,
    spans: Seq<Located>,
) -> Seq<u8>
    decreases spans.len(),
{
    if spans.len() == 0 {
        Seq::empty()
    } else {
        let located = spans.last();
        let line = survivors[located.line_index as int];
        span_records(config, path, survivors, spans.drop_last()) + match_record(
            config,
            path,
            (line.index + 1) as nat,
            line.line@.subrange(
                located.byte_offset as int,
                located.byte_offset + located.byte_length,
            ),
            line.score@,
        )
    }
}

/// What one input is reported as.
pub open spec fn input_report(
    config: OutputConfig,
    path: Seq<char>,
    survivors: Seq<Survivor<'_>>,
    spans: Seq<Located>,
) -> Seq<u8> {
    match config.show {
        Show::Count => count_record(config, path, survivors.len()),
        Show::Files => if survivors.len() > 0 {
            path_record(config, path)
        } else {
            Seq::empty()
        },
        Show::FilesWithout => if survivors.len() == 0 {
            path_record(config, path)
        } else {
            Seq::empty()
        },
        Show::Lines => line_records(config, path, survivors),
        Show::Matches => span_records(config, path, survivors, spans),
    }
}

/// Report one input. The spans are looked at only where the matched parts are asked for.
pub fn report_input(
    output: &mut Vec<u8>,
    config: &OutputConfig,
    path: &str,
    survivors: &[Survivor<'_>],
    spans: &[Located],
)
    requires
        forall|i: int|
            0 <= i < survivors@.len() ==> (#[trigger] survivors@[i]).index < usize::MAX,
        config.show == Show::Matches ==> forall|i: int|
            0 <= i < spans@.len() ==> lies_in(#[trigger] spans@[i], survivors@),
    ensures
        final(output)@ == old(output)@ + input_report(*config, path@, survivors@, spans@),
{
    match config.show {
        Show::Count => {
            write_count(output, config, path, survivors.len());
        },
        Show::Files => {
            if survivors.len() > 0 {
                write_path(output, config, path);
            } else {
                assert(output@ =~= old(output)@ + Seq::<u8>::empty());
            }
        },
        Show::FilesWithout => {
            if survivors.len() == 0 {
                write_path(output, config, path);
            } else {
                assert(output@ =~= old(output)@ + Seq::<u8>::empty());
            }
        },
        Show::Lines => {
            write_lines(output, config, path, survivors);
        },
        Show::Matches => {
            write_spans(output, config, path, survivors, spans);
        },
    }
}

fn write_lines(
    output: &mut Vec<u8>,
    config: &OutputConfig,
    path: &str,
    survivors: &[Survivor<'_>],
)
    requires
        forall|i: int|
            0 <= i < survivors@.len() ==> (#[trigger] survivors@[i]).index < usize::MAX,
    ensures
        final(output)@ == old(output)@ + line_records(*config, path@, survivors@),
{
    let mut index: usize = 0;
    assert(survivors@.take(0) =~= Seq::empty());
    assert(output@ =~= old(output)@ + Seq::<u8>::empty());
    while index < survivors.len()
        invariant
            index <= survivors@.len(),
            forall|i: int|
                0 <= i < survivors@.len() ==> (#[trigger] survivors@[i]).index < usize::MAX,
            output@ == old(output)@ + line_records(
                *config,
                path@,
                survivors@.take(index as int),
            ),
        decreases survivors@.len() - index,
    {
        let one = survivors[index];
        let ghost now = survivors@.take(index + 1);
        proof {
            assert(now.drop_last() =~= survivors@.take(index as int));
            assert(now.last() == survivors@[index as int]);
        }
        write_match(output, config, path, one.index + 1, one.line, one.score);
        proof {
            lemma_append(
                old(output)@,
                line_records(*config, path@, survivors@.take(index as int)),
                match_record(*config, path@, (one.index + 1) as nat, one.line@, one.score@),
            );
        }
        index += 1;
    }
    assert(survivors@.take(index as int) =~= survivors@);
}

fn write_spans(
    output: &mut Vec<u8>,
    config: &OutputConfig,
    path: &str,
    survivors: &[Survivor<'_>],
    spans: &[Located],
)
    requires
        forall|i: int|
            0 <= i < survivors@.len() ==> (#[trigger] survivors@[i]).index < usize::MAX,
        forall|i: int| 0 <= i < spans@.len() ==> lies_in(#[trigger] spans@[i], survivors@),
    ensures
        final(output)@ == old(output)@ + span_records(*config, path@, survivors@, spans@),
{
    let mut index: usize = 0;
    assert(spans@.take(0) =~= Seq::empty());
    assert(output@ =~= old(output)@ + Seq::<u8>::empty());
    while index < spans.len()
        invariant
            index <= spans@.len(),
            forall|i: int|
                0 <= i < survivors@.len() ==> (#[trigger] survivors@[i]).index < usize::MAX,
            forall|i: int| 0 <= i < spans@.len() ==> lies_in(#[trigger] spans@[i], survivors@),
            output@ == old(output)@ + span_records(
                *config,
                path@,
                survivors@,
                spans@.take(index as int),
            ),
        decreases spans@.len() - index,
    {
        let located = spans[index];
        assert(lies_in(spans@[index as int], survivors@));
        let one = survivors[located.line_index];
        assert(one == survivors@[located.line_index as int]);
        assert(one.line.len() <= usize::MAX);
        let start: usize = located.byte_offset;
        let end: usize = located.byte_offset + located.byte_length;
        let span: &[u8] = &one.line[start..end];
        let ghost now = spans@.take(index + 1);
        proof {
            assert(now.drop_last() =~= spans@.take(index as int));
            assert(now.last() == located);
        }
        write_match(output, config, path, one.index + 1, span, one.score);
        proof {
            lemma_append(
                old(output)@,
                span_records(*config, path@, survivors@, spans@.take(index as int)),
                match_record(*config, path@, (one.index + 1) as nat, span@, one.score@),
            );
        }
        index += 1;
    }
    assert(spans@.take(index as int) =~= spans@);
}

/// Whether a located span lies in the line it was located in.
pub fn span_lies_in(located: &Located, survivors: &[Survivor<'_>]) -> (yes: bool)
    ensures
        yes == lies_in(*located, survivors@),
{
    if located.line_index >= survivors.len() {
        return false;
    }
    let length: usize = survivors[located.line_index].line.len();
    located.byte_length <= length && located.byte_offset <= length - located.byte_length
}

/// What the whole run found.
#[derive(Clone, Copy, Debug, PartialEq, Eq, Structural)]
pub struct Outcome {
    pub total: usize,
    pub readable: usize,
}

impl Default for Outcome {
    fn default() -> (outcome: Self)
        ensures
            outcome == (Outcome { total: 0, readable: 0 }),
    {
        Outcome { total: 0, readable: 0 }
    }
}

impl Outcome {
    /// Count one more readable input, and how many of its lines survived.
    pub fn searched(&mut self, count: usize)
        requires
            old(self).total + count <= usize::MAX,
            old(self).readable < usize::MAX,
        ensures
            final(self).total == old(self).total + count,
            final(self).readable == old(self).readable + 1,
    {
        self.total = self.total + count;
        self.readable = self.readable + 1;
    }

    /// How the run ends. One that could read nothing could not run.
    pub fn status(&self) -> (status: Status)
        ensures
            status == if self.readable == 0 {
                Status::Error
            } else if self.total > 0 {
                Status::Success
            } else {
                Status::NoResult
            },
    {
        if self.readable == 0 {
            Status::Error
        } else {
            Status::from_found(self.total > 0)
        }
    }
}

/// The record that closes a JSON stream.
pub open spec fn summary_record(outcome: Outcome, inputs: nat) -> Seq<u8> {
    lit("{\"type\":\"summary\",\"data\":{\"matched_lines\":") + decimal(outcome.total as nat) + lit(
        ",\"readable_inputs\":",
    ) + decimal(outcome.readable as nat) + lit(",\"total_inputs\":") + decimal(inputs) + lit(
        "}}\n",
    )
}

/// The sentence about a run.
pub open spec fn summary_line(outcome: Outcome, inputs: nat) -> Seq<u8> {
    lit("matched ") + decimal(outcome.total as nat) + lit(" lines in ") + decimal(
        outcome.readable as nat,
    ) + lit(" of ") + decimal(inputs) + lit(" inputs\n")
}

/// Write the one summary closing the run: a record in a JSON stream, where it belongs to the stream
/// it closes, and otherwise a sentence among the notes, where it cannot be mistaken for a match.
pub fn write_summary(
    output: &mut Vec<u8>,
    notes: &mut Vec<u8>,
    config: &OutputConfig,
    outcome: &Outcome,
    inputs: usize,
)
    ensures
        config.format == Format::Json ==> final(output)@ == old(output)@ + summary_record(
            *outcome,
            inputs as nat,
        ) && final(notes)@ == old(notes)@,
        config.format == Format::Text ==> final(output)@ == old(output)@ && final(notes)@
            == old(notes)@ + summary_line(*outcome, inputs as nat),
{
    if config.format == Format::Json {
        put_str(output, "{\"type\":\"summary\",\"data\":{\"matched_lines\":");
        put_decimal(output, outcome.total as u64);
        put_str(output, ",\"readable_inputs\":");
        put_decimal(output, outcome.readable as u64);
        put_str(output, ",\"total_inputs\":");
        put_decimal(output, inputs as u64);
        put_str(output, "}}\n");
        assert(output@ =~= old(output)@ + summary_record(*outcome, inputs as nat));
        return;
    }
    put_str(notes, "matched ");
    put_decimal(notes, outcome.total as u64);
    put_str(notes, " lines in ");
    put_decimal(notes, outcome.readable as u64);
    put_str(notes, " of ");
    put_decimal(notes, inputs as u64);
    put_str(notes, " inputs\n");
    assert(notes@ =~= old(notes)@ + summary_line(*outcome, inputs as nat));
}

/// These texts with a comma and a space between them.
pub open spec fn listed(all: Seq<Seq<char>>) -> Seq<char>
    decreases all.len(),
{
    if all.len() == 0 {
        Seq::empty()
    } else if all.len() == 1 {
        all[0]
    } else {
        listed(all.drop_last()) + ", "@ + all.last()
    }
}

fn list_of(all: &[String]) -> (list: String)
    ensures
        list@ == listed(texts(all@)),
{
    let ghost every = texts(all@);
    let mut list = String::new();
    let mut index: usize = 0;
    assert(every.take(0) =~= Seq::empty());
    while index < all.len()
        invariant
            index <= all@.len(),
            every == texts(all@),
            list@ == listed(every.take(index as int)),
        decreases all@.len() - index,
    {
        let ghost now = every.take(index + 1);
        proof {
            assert(now.drop_last() =~= every.take(index as int));
            assert(now.last() == all@[index as int]@);
        }
        if index > 0 {
            list.append(", ");
        }
        list.append(all[index].as_str());
        assert(list@ =~= listed(now));
        index += 1;
    }
    assert(every.take(index as int) =~= every);
    list
}

/// The dictionary of a run, or what is wrong where its queries expand to nothing.
pub fn build_vocabulary(
    patterns: &[String],
    config: &SearchConfig,
    keyboard: &Keyboard,
    table: &str,
) -> (built: Result<Vocabulary, Failure>)
    requires
        keyboard.wf(),
    ensures
        ({
            let query = query_of(
                config.max_distance as nat,
                config.alphabet,
                keyboard@,
                config.dictionary,
                table@,
            );
            match built {
                Ok(vocabulary) => vocabulary.is_for(query, texts(patterns@))
                    && vocabulary.needles@.len() > 0,
                Err(failure) => (forall|route: Route| !#[trigger]
                    reachable(query, texts(patterns@), route)) && (
                failure matches Failure::Unresolved { path, subject, note } && path@ == "-"@
                    && subject@ == listed(texts(patterns@)) && note@
                    == "every query was empty; pass a pattern with at least one character"@),
            }
        }),
{
    let vocabulary = Vocabulary::build(
        patterns,
        config.max_distance,
        config.alphabet,
        keyboard,
        config.dictionary,
        table,
    );
    if vocabulary.is_empty() {
        proof {
            assert(texts(vocabulary.needles@) =~= Seq::empty());
        }
        return Err(
            Failure::Unresolved {
                path: String::from_str("-"),
                subject: list_of(patterns),
                note: "every query was empty; pass a pattern with at least one character",
            },
        );
    }
    Ok(vocabulary)
}

/// An input with matches is listed among the files and one without among those without, each once and
/// on a line of its own; counted, every input is.
pub proof fn an_input_is_listed_by_its_matches(
    config: OutputConfig,
    path: Seq<char>,
    survivors: Seq<Survivor<'_>>,
    spans: Seq<Located>,
)
    requires
        config.format != Format::Json,
    ensures
        ({
            let report = input_report(config, path, survivors, spans);
            let listed = encode_utf8(path).push(config.terminator.byte());
            &&& config.show == Show::Files ==> report == if survivors.len() > 0 {
                listed
            } else {
                Seq::empty()
            }
            &&& config.show == Show::FilesWithout ==> report == if survivors.len() > 0 {
                Seq::empty()
            } else {
                listed
            }
            &&& config.show == Show::Count && !config.prefix ==> report == decimal(
                survivors.len(),
            ).push(config.terminator.byte())
        }),
{
}

/// A printed line is its own bytes behind its number, counted from one, and ends once.
pub proof fn a_line_is_printed_with_its_number(
    config: OutputConfig,
    path: Seq<char>,
    survivors: Seq<Survivor<'_>>,
    last: Survivor<'_>,
)
    requires
        config.format != Format::Json,
        !config.prefix,
        !config.scores,
    ensures
        line_records(config, path, survivors.push(last)) == line_records(config, path, survivors) + (
        if config.line_numbers {
            decimal((last.index + 1) as nat).push(':' as u8)
        } else {
            Seq::empty()
        }) + last.line@.push(config.terminator.byte()),
{
    assert(survivors.push(last).drop_last() =~= survivors);
    assert(lit(":") =~= seq![':' as u8]) by {
        reveal_strlit(":");
        lemma_ascii_bytes(":"@);
    }
}

} // verus!
