//! A whole run: what every input is searched with, and what the inputs amount to together.

use vstd::prelude::*;
use vstd::utf8::encode_utf8;

use crate::bytes::{
    a_number_is_written_in_tens, byte_position, decimal, lemma_byte_position, lit, put_decimal, put_str,
};
use crate::json::{json_text_field_to, text_field, Terminator};
use crate::lines::Newlines;
use crate::status::Tally;
use crate::sz::find_byte;

use super::files::{found_in, search_whole};
use super::matcher::{uses_unicode, Matcher};
use super::options::{refusal, shown, Args, Context, Format, Inputs, Match, Reporting, Show};
use super::search::{LineCounting, Search};
use super::window::{FileResult, Stop};

verus! {

/// How much of an input is looked at to tell whether it is binary.
pub const SNIFFED_BYTES: usize = 8192;

/// Whether an input appears to be binary: a NUL byte stands near its start.
pub open spec fn looks_binary(data: Seq<u8>) -> bool {
    exists|at: int| 0 <= at < data.len() && at < SNIFFED_BYTES && #[trigger] data[at] == 0
}

/// Whether `data` appears to be binary, which a NUL byte in its first 8 KB tells.
pub fn is_binary(data: &[u8]) -> (binary: bool)
    ensures
        binary == looks_binary(data@),
{
    let length: usize = if data.len() < SNIFFED_BYTES {
        data.len()
    } else {
        SNIFFED_BYTES
    };
    let start: &[u8] = &data[0..length];
    let found = find_byte(start, 0).is_some();
    proof {
        lemma_byte_position(start@, 0, 0);
        let at = byte_position(start@, 0, 0);
        if at < start@.len() {
            assert(data@[at] == 0);
        } else {
            assert forall|at: int| 0 <= at < data@.len() && at < SNIFFED_BYTES implies
                #[trigger] data@[at] != 0 by {
                assert(start@[at] == data@[at]);
            }
        }
    }
    found
}

/// The path the standard input reports itself under, in records and in diagnostics.
pub const STDIN_NAME: &'static str = "-";

/// What a summary reports, summed over the walk.
#[derive(Clone, Copy, Debug, PartialEq, Eq, Structural)]
pub struct Summary {
    pub files_searched: usize,
    pub files_matched: usize,
    pub lines_searched: usize,
    pub matches_found: usize,
    pub bytes_searched: usize,
}

impl Default for Summary {
    fn default() -> (summary: Self)
        ensures
            summary == (Summary {
                files_searched: 0,
                files_matched: 0,
                lines_searched: 0,
                matches_found: 0,
                bytes_searched: 0,
            }),
    {
        Summary {
            files_searched: 0,
            files_matched: 0,
            lines_searched: 0,
            matches_found: 0,
            bytes_searched: 0,
        }
    }
}

/// The run's totals and the questions the exit code asks of them.
#[derive(Clone, Copy, Debug)]
pub struct Outcome {
    pub summary: Summary,
    pub tally: Tally,
    pub max_reached: bool,
}

impl Default for Outcome {
    fn default() -> (outcome: Self)
        ensures
            outcome.summary == (Summary {
                files_searched: 0,
                files_matched: 0,
                lines_searched: 0,
                matches_found: 0,
                bytes_searched: 0,
            }),
            outcome.tally.failure_count() == 0,
            !outcome.tally.has_produced(),
            !outcome.max_reached,
    {
        Outcome { summary: Summary::default(), tally: Tally::default(), max_reached: false }
    }
}

impl Outcome {
    /// Whether one more input of `bytes` bytes, `lines` lines and `matches` matches can be counted.
    pub open spec fn has_room_for(&self, bytes: nat, lines: nat, matches: nat) -> bool {
        &&& self.summary.files_matched < usize::MAX
        &&& self.summary.lines_searched + lines <= usize::MAX
        &&& self.summary.matches_found + matches <= usize::MAX
        &&& self.summary.bytes_searched + bytes <= usize::MAX
    }
}

/// What every input of this run is searched and reported with.
#[derive(Clone, Copy, Debug)]
pub struct Session<'a> {
    pub search: Search<'a>,
    pub reporting: Reporting,
    pub show: Show,
    pub format: Format,
    pub terminator: u8,
    pub inputs: Inputs,
    /// Whether binary inputs are searched too.
    pub binary: bool,
}

impl<'a> Session<'a> {
    /// One input's matching-line count, as a record.
    pub open spec fn count_record(&self, path: Seq<u8>, count: nat) -> Seq<u8> {
        if self.format == Format::Json {
            lit("{\"type\":\"count\",\"data\":{\"path\":") + text_field(path) + lit(",\"count\":")
                + decimal(count) + lit("}}\n")
        } else if self.inputs == Inputs::Many {
            path + lit(":") + decimal(count) + seq![self.terminator]
        } else {
            decimal(count) + seq![self.terminator]
        }
    }

    /// One input's path, as a record.
    pub open spec fn path_record(&self, path: Seq<u8>) -> Seq<u8> {
        if self.format == Format::Json {
            lit("{\"type\":\"file\",\"data\":{\"path\":") + text_field(path) + lit("}}\n")
        } else {
            path + seq![self.terminator]
        }
    }

    /// The record the record kind asks of one input. Only files with matches are counted over a
    /// walk: listing every file without any buries the answer.
    pub open spec fn file_record(&self, path: Seq<u8>, matches: nat) -> Seq<u8> {
        match self.show {
            Show::Lines | Show::Matches => Seq::empty(),
            Show::Count => if matches > 0 || self.inputs == Inputs::One {
                self.count_record(path, matches)
            } else {
                Seq::empty()
            },
            Show::Files => if matches > 0 {
                self.path_record(path)
            } else {
                Seq::empty()
            },
            Show::FilesWithout => if matches == 0 {
                self.path_record(path)
            } else {
                Seq::empty()
            },
        }
    }

    /// Whether one input is a result of this run.
    pub open spec fn is_result(&self, matches: nat) -> bool {
        if self.show == Show::FilesWithout {
            matches == 0
        } else {
            matches > 0
        }
    }

    /// Whether `next` is `before` with one more input reported.
    pub open spec fn reported(
        &self,
        before: Outcome,
        next: Outcome,
        lines: nat,
        matches: nat,
    ) -> bool {
        &&& next.summary.lines_searched == before.summary.lines_searched + lines
        &&& next.summary.matches_found == before.summary.matches_found + matches
        &&& next.summary.files_matched == before.summary.files_matched + if matches > 0 {
            1int
        } else {
            0
        }
        &&& next.tally.failure_count() == before.tally.failure_count()
        &&& next.tally.has_produced() == (before.tally.has_produced() || self.is_result(matches))
    }

    /// Whether this is the session that valid arguments ask for.
    pub open spec fn answers(&self, args: Args, inputs: Inputs, is_terminal: bool) -> bool {
        let unicode = args.utf8 || args.ignore_case;
        &&& self.search.matcher.pattern@ == encode_utf8(args.pattern@)
        &&& self.search.matcher.ignore_case == args.ignore_case
        &&& self.search.matcher.whole_word == (args.match_kind == Match::Word)
        &&& self.search.matcher.unicode == unicode
        &&& self.search.newlines == if unicode {
            Newlines::Unicode
        } else {
            Newlines::Lf
        }
        &&& self.search.multiline == args.multiline
        &&& self.search.invert_match == args.invert_match
        &&& self.search.max_matches == args.max_matches
        &&& self.search.line_counting == if args.summary || args.format == Format::Json {
            LineCounting::Reported
        } else {
            LineCounting::Ignored
        }
        &&& self.show == shown(args)
        &&& self.format == args.format
        &&& self.terminator == if args.null {
            0u8
        } else {
            0x0Au8
        }
        &&& self.inputs == inputs
        &&& self.binary == args.binary
        &&& match self.reporting {
            Reporting::Tally { stop_at_first } => (args.quiet || shown(args) == Show::Count
                || shown(args) == Show::Files || shown(args) == Show::FilesWithout)
                && stop_at_first == (!args.summary && (args.quiet || shown(args) != Show::Count)),
            Reporting::Print(config) => !args.quiet && Context::asked(args) == (Context {
                before: 0,
                after: 0,
            }) && config.resolves(args, shown(args), inputs, is_terminal),
            Reporting::PrintContext(config, lines) => !args.quiet && lines == Context::asked(args)
                && lines != (Context { before: 0, after: 0 }) && config.resolves(
                args,
                shown(args),
                inputs,
                is_terminal,
            ),
        }
    }

    /// One session for the whole run. `is_terminal` answers what an automatic color choice asks of
    /// the destination.
    pub fn new(args: &'a Args, inputs: Inputs, is_terminal: bool) -> (session: Self)
        requires
            refusal(*args) is None,
        ensures
            session.answers(*args, inputs, is_terminal),
            session.search.wf(),
    {
        let show = match args.show {
            Some(show) => show,
            None => Show::Lines,
        };
        let unicode = uses_unicode(args.utf8, args.ignore_case);
        let pattern = args.pattern.as_str().as_bytes();
        proof {
            vstd::utf8::encode_utf8_decode_utf8(args.pattern@);
            if pattern@.len() == 0 {
                assert(pattern@ =~= Seq::empty());
                assert(vstd::utf8::decode_utf8(pattern@) =~= Seq::<char>::empty());
            }
        }
        Session {
            search: Search {
                matcher: Matcher {
                    pattern,
                    ignore_case: args.ignore_case,
                    whole_word: args.match_kind == Match::Word,
                    unicode,
                },
                newlines: Newlines::from_utf8(unicode),
                multiline: args.multiline,
                invert_match: args.invert_match,
                max_matches: args.max_matches,
                line_counting: if args.summary || args.format == Format::Json {
                    LineCounting::Reported
                } else {
                    LineCounting::Ignored
                },
            },
            // One dispatch decision for the whole run: what the per-line loop remembers.
            reporting: Reporting::pick(args, show, Context::of(args), inputs, is_terminal),
            show,
            format: args.format,
            terminator: Terminator::from_null(args.null).as_byte(),
            inputs,
            binary: args.binary,
        }
    }

    /// Whether the input is binary and binary inputs are not asked for.
    pub fn skips(&self, data: &[u8]) -> (yes: bool)
        ensures
            yes == (!self.binary && looks_binary(data@)),
    {
        !self.binary && is_binary(data)
    }

    /// Emit one input's matching-line count.
    pub fn write_count(&self, out: &mut Vec<u8>, path: &str, count: usize)
        ensures
            final(out)@ == old(out)@ + self.count_record(encode_utf8(path@), count as nat),
    {
        broadcast use crate::bytes::group_append;

        if self.format == Format::Json {
            put_str(out, "{\"type\":\"count\",\"data\":{\"path\":");
            json_text_field_to(out, path.as_bytes());
            put_str(out, ",\"count\":");
            put_decimal(out, count as u64);
            put_str(out, "}}\n");
            return;
        }
        if self.inputs == Inputs::Many {
            put_str(out, path);
            put_str(out, ":");
        }
        put_decimal(out, count as u64);
        let ghost before = out@;
        out.push(self.terminator);
        assert(out@ =~= before + seq![self.terminator]);
    }

    /// Emit one input's path.
    pub fn write_path(&self, out: &mut Vec<u8>, path: &str)
        ensures
            final(out)@ == old(out)@ + self.path_record(encode_utf8(path@)),
    {
        broadcast use crate::bytes::group_append;

        if self.format == Format::Json {
            put_str(out, "{\"type\":\"file\",\"data\":{\"path\":");
            json_text_field_to(out, path.as_bytes());
            put_str(out, "}}\n");
            return;
        }
        put_str(out, path);
        let ghost before = out@;
        out.push(self.terminator);
        assert(out@ =~= before + seq![self.terminator]);
    }

    /// Fold one input's totals into the run and emit the record the record kind asks for.
    pub fn report(&self, out: &mut Vec<u8>, path: &str, result: &FileResult, outcome: &mut Outcome)
        requires
            old(outcome).has_room_for(0, result.lines_searched as nat, result.match_count as nat),
        ensures
            final(out)@ == old(out)@ + self.file_record(
                encode_utf8(path@),
                result.match_count as nat,
            ),
            self.reported(
                *old(outcome),
                *final(outcome),
                result.lines_searched as nat,
                result.match_count as nat,
            ),
            final(outcome).summary.files_searched == old(outcome).summary.files_searched,
            final(outcome).summary.bytes_searched == old(outcome).summary.bytes_searched,
            final(outcome).max_reached == old(outcome).max_reached,
    {
        broadcast use crate::bytes::group_append;

        outcome.summary.lines_searched = outcome.summary.lines_searched + result.lines_searched;
        outcome.summary.matches_found = outcome.summary.matches_found + result.match_count;
        let matched = result.match_count > 0;
        if matched {
            outcome.summary.files_matched = outcome.summary.files_matched + 1;
        }
        match self.show {
            Show::Lines | Show::Matches => {
                if matched {
                    outcome.tally.produced();
                }
            },
            Show::Count => {
                if matched {
                    outcome.tally.produced();
                }
                if matched || self.inputs == Inputs::One {
                    self.write_count(out, path, result.match_count);
                }
            },
            Show::Files => {
                if matched {
                    outcome.tally.produced();
                    self.write_path(out, path);
                }
            },
            Show::FilesWithout => {
                if !matched {
                    outcome.tally.produced();
                    self.write_path(out, path);
                }
            },
        }
    }

    /// Fold what a searched input gave into the run: its bytes, its cap and its record.
    pub fn settle(&self, out: &mut Vec<u8>, path: &str, result: &FileResult, outcome: &mut Outcome)
        requires
            old(outcome).has_room_for(
                result.bytes_searched as nat,
                result.lines_searched as nat,
                result.match_count as nat,
            ),
        ensures
            final(out)@ == old(out)@ + self.file_record(
                encode_utf8(path@),
                result.match_count as nat,
            ),
            self.reported(
                *old(outcome),
                *final(outcome),
                result.lines_searched as nat,
                result.match_count as nat,
            ),
            final(outcome).summary.files_searched == old(outcome).summary.files_searched,
            final(outcome).summary.bytes_searched == old(outcome).summary.bytes_searched
                + result.bytes_searched,
            final(outcome).max_reached == (old(outcome).max_reached || result.flow == Some(
                Stop::MaxMatches,
            )),
    {
        outcome.summary.bytes_searched = outcome.summary.bytes_searched + result.bytes_searched;
        outcome.max_reached = outcome.max_reached || result.capped();
        self.report(out, path, result, outcome);
    }

    /// Fold a streamed input into the run: what searching it gave, or nothing but the input itself
    /// where it was binary and passed over.
    pub fn settle_stream(
        &self,
        out: &mut Vec<u8>,
        path: &str,
        result: Option<&FileResult>,
        outcome: &mut Outcome,
    )
        requires
            old(outcome).summary.files_searched < usize::MAX,
            result matches Some(result) ==> old(outcome).has_room_for(
                result.bytes_searched as nat,
                result.lines_searched as nat,
                result.match_count as nat,
            ),
        ensures
            final(outcome).summary.files_searched == old(outcome).summary.files_searched + 1,
            match result {
                Some(result) => {
                    &&& final(out)@ == old(out)@ + self.file_record(
                        encode_utf8(path@),
                        result.match_count as nat,
                    )
                    &&& self.reported(
                        *old(outcome),
                        *final(outcome),
                        result.lines_searched as nat,
                        result.match_count as nat,
                    )
                    &&& final(outcome).summary.bytes_searched == old(
                        outcome,
                    ).summary.bytes_searched + result.bytes_searched
                    &&& final(outcome).max_reached == (old(outcome).max_reached || result.flow
                        == Some(Stop::MaxMatches))
                },
                None => {
                    &&& final(out)@ == old(out)@
                    &&& final(outcome).summary == (Summary {
                        files_searched: (old(outcome).summary.files_searched + 1) as usize,
                        ..old(outcome).summary
                    })
                    &&& final(outcome).tally == old(outcome).tally
                    &&& final(outcome).max_reached == old(outcome).max_reached
                },
            },
    {
        outcome.summary.files_searched = outcome.summary.files_searched + 1;
        if let Some(result) = result {
            self.settle(out, path, result, outcome);
        }
    }

    /// Search one input that is all here, and fold what it found into the run. A binary input is
    /// passed over rather than searched, but it was measured getting here.
    pub fn search_input(&self, data: &[u8], path: &str, out: &mut Vec<u8>, outcome: &mut Outcome)
        requires
            self.search.wf(),
            data@.len() < usize::MAX,
            old(outcome).has_room_for(data@.len(), data@.len() + 1, data@.len()),
            old(outcome).summary.files_searched < usize::MAX,
        ensures
            final(outcome).summary.files_searched == old(outcome).summary.files_searched + 1,
            final(outcome).summary.bytes_searched == old(outcome).summary.bytes_searched
                + data@.len(),
            !self.binary && looks_binary(data@) ==> {
                &&& final(out)@ == old(out)@
                &&& final(outcome).summary.files_matched == old(outcome).summary.files_matched
                &&& final(outcome).summary.lines_searched == old(outcome).summary.lines_searched
                &&& final(outcome).summary.matches_found == old(outcome).summary.matches_found
                &&& final(outcome).tally == old(outcome).tally
                &&& final(outcome).max_reached == old(outcome).max_reached
            },
            self.binary || !looks_binary(data@) ==> {
                let found = found_in(path, &self.search, &self.reporting, data@);
                &&& final(out)@ == old(out)@ + found.bytes + self.file_record(
                    encode_utf8(path@),
                    found.matches,
                )
                &&& self.reported(*old(outcome), *final(outcome), found.lines, found.matches)
                &&& final(outcome).max_reached == (old(outcome).max_reached || found.flow == Some(
                    Stop::MaxMatches,
                ))
            },
    {
        outcome.summary.files_searched = outcome.summary.files_searched + 1;
        if self.skips(data) {
            outcome.summary.bytes_searched = outcome.summary.bytes_searched + data.len();
            return;
        }
        let result = search_whole(data, path, &self.search, &self.reporting, out);
        self.settle(out, path, &result, outcome);
    }
}

/// How many inputs a run reads: more than one name, or a directory among them, means many.
pub fn inputs_of(args: &Args, any_directory: bool) -> (inputs: Inputs)
    ensures
        inputs == if args.inputs@.len() > 1 || any_directory {
            Inputs::Many
        } else {
            Inputs::One
        },
{
    if args.inputs.len() > 1 || any_directory {
        Inputs::Many
    } else {
        Inputs::One
    }
}

/// The run's totals as one more record on the stream they describe.
pub open spec fn summary_record(summary: Summary, seconds: Seq<u8>) -> Seq<u8> {
    lit("{\"type\":\"summary\",\"data\":{\"files_searched\":") + decimal(
        summary.files_searched as nat,
    ) + lit(",\"files_matched\":") + decimal(summary.files_matched as nat) + lit(
        ",\"lines_searched\":",
    ) + decimal(summary.lines_searched as nat) + lit(",\"matches_found\":") + decimal(
        summary.matches_found as nat,
    ) + lit(",\"bytes_searched\":") + decimal(summary.bytes_searched as nat) + lit(
        ",\"seconds\":",
    ) + seconds + lit("}}\n")
}

/// The run's totals as prose.
pub open spec fn summary_text(
    summary: Summary,
    seconds: Seq<u8>,
    megabytes: Seq<u8>,
    rate: Option<Seq<u8>>,
) -> Seq<u8> {
    lit("\nSummary:\n  Files searched: ") + decimal(summary.files_searched as nat) + lit(
        "\n  Files matched:  ",
    ) + decimal(summary.files_matched as nat) + lit("\n  Lines searched: ") + decimal(
        summary.lines_searched as nat,
    ) + lit("\n  Matches found:  ") + decimal(summary.matches_found as nat) + lit(
        "\n  Bytes searched: ",
    ) + decimal(summary.bytes_searched as nat) + lit(" (") + megabytes + lit(
        " MB)\n  Time elapsed:   ",
    ) + seconds + lit("s\n") + (match rate {
        Some(rate) => lit("  Throughput:     ") + rate + lit(" MB/s\n"),
        None => Seq::empty(),
    })
}

/// Report the run's totals. In JSON they are one more record on the stream they describe, so it
/// still parses line by line. In text they are prose, and prose goes to the notes: a paragraph in
/// the middle of the matches is not a match. The elapsed seconds, the megabytes and the rate come
/// already rendered.
pub fn print_summary(
    out: &mut Vec<u8>,
    notes: &mut Vec<u8>,
    format: Format,
    summary: &Summary,
    seconds: &str,
    megabytes: &str,
    rate: Option<&str>,
)
    ensures
        format == Format::Json ==> final(out)@ == old(out)@ + summary_record(
            *summary,
            encode_utf8(seconds@),
        ) && final(notes)@ == old(notes)@,
        format != Format::Json ==> final(out)@ == old(out)@ && final(notes)@ == old(notes)@
            + summary_text(
            *summary,
            encode_utf8(seconds@),
            encode_utf8(megabytes@),
            match rate {
                Some(rate) => Some(encode_utf8(rate@)),
                None => None,
            },
        ),
{
    broadcast use crate::bytes::group_append;

    if format == Format::Json {
        put_str(out, "{\"type\":\"summary\",\"data\":{\"files_searched\":");
        put_decimal(out, summary.files_searched as u64);
        put_str(out, ",\"files_matched\":");
        put_decimal(out, summary.files_matched as u64);
        put_str(out, ",\"lines_searched\":");
        put_decimal(out, summary.lines_searched as u64);
        put_str(out, ",\"matches_found\":");
        put_decimal(out, summary.matches_found as u64);
        put_str(out, ",\"bytes_searched\":");
        put_decimal(out, summary.bytes_searched as u64);
        put_str(out, ",\"seconds\":");
        put_str(out, seconds);
        put_str(out, "}}\n");
        return;
    }
    put_str(notes, "\nSummary:\n  Files searched: ");
    put_decimal(notes, summary.files_searched as u64);
    put_str(notes, "\n  Files matched:  ");
    put_decimal(notes, summary.files_matched as u64);
    put_str(notes, "\n  Lines searched: ");
    put_decimal(notes, summary.lines_searched as u64);
    put_str(notes, "\n  Matches found:  ");
    put_decimal(notes, summary.matches_found as u64);
    put_str(notes, "\n  Bytes searched: ");
    put_decimal(notes, summary.bytes_searched as u64);
    put_str(notes, " (");
    put_str(notes, megabytes);
    put_str(notes, " MB)\n  Time elapsed:   ");
    put_str(notes, seconds);
    put_str(notes, "s\n");
    if let Some(rate) = rate {
        put_str(notes, "  Throughput:     ");
        put_str(notes, rate);
        put_str(notes, " MB/s\n");
    }
}

/// A NUL byte among the first 8192 makes an input binary, and nothing else does.
pub proof fn a_nul_near_the_start_is_binary(data: Seq<u8>)
    ensures
        looks_binary(data) <==> data.take(
            if data.len() < 8192 {
                data.len() as int
            } else {
                8192
            },
        ).contains(0u8),
{
    let start = data.take(
        if data.len() < 8192 {
            data.len() as int
        } else {
            8192
        },
    );
    if looks_binary(data) {
        let at = choose|at: int|
            0 <= at < data.len() && at < SNIFFED_BYTES && #[trigger] data[at] == 0;
        assert(start[at] == 0);
    }
    if start.contains(0u8) {
        let at = start.index_of(0u8);
        assert(data[at] == 0);
    }
}

/// An input with matches is listed among the files and one without among those without, each once and
/// on a line of its own, and every input that is listed is a result. A walk counts the files that
/// match, a single input is counted whatever it holds, and lines leave no record of the input.
pub proof fn a_file_is_listed_by_its_matches(session: Session, path: Seq<u8>, matches: nat)
    requires
        session.format != Format::Json,
    ensures
        ({
            let record = session.file_record(path, matches);
            let listed = path + seq![session.terminator];
            &&& session.show == Show::Files ==> record == if matches > 0 {
                listed
            } else {
                Seq::empty()
            }
            &&& session.show == Show::FilesWithout ==> record == if matches > 0 {
                Seq::empty()
            } else {
                listed
            }
            &&& session.show == Show::Count ==> (record.len() == 0 <==> matches == 0
                && session.inputs == Inputs::Many)
            &&& session.show == Show::Lines || session.show == Show::Matches ==> record.len() == 0
            &&& session.is_result(matches) <==> ((matches > 0) != (session.show
                == Show::FilesWithout))
        }),
{
    a_number_is_written_in_tens(matches);
}

/// One more input adds its lines and its matches to the totals, counts as matched where it has any,
/// and fails nothing.
pub proof fn an_input_adds_to_the_totals(
    session: Session,
    before: Outcome,
    next: Outcome,
    lines: nat,
    matches: nat,
)
    requires
        session.reported(before, next, lines, matches),
    ensures
        next.summary.lines_searched - before.summary.lines_searched == lines,
        next.summary.matches_found - before.summary.matches_found == matches,
        next.summary.files_matched - before.summary.files_matched == if matches == 0 {
            0int
        } else {
            1
        },
        next.tally.failure_count() == before.tally.failure_count(),
        before.tally.has_produced() ==> next.tally.has_produced(),
        !before.tally.has_produced() ==> (next.tally.has_produced() <==> if session.show
            == Show::FilesWithout {
            matches == 0
        } else {
            matches > 0
        }),
{
}

} // verus!
