//! One deduplicating run: what its arguments must satisfy, what it produces, and what it reports.

use vstd::prelude::*;
use vstd::string::StringExecFns;

use crate::bytes::{decimal, lit, put_decimal, put_str};
use crate::destination::Destination;
use crate::json::Terminator;
use crate::lines::lines;
use crate::status::{status_of, Status};
use crate::text::same_text;

use super::lines::{
    dedup_to_writer, deduplicated, manageable, newlines_for, summary_record, unique_lines,
    write_summary_json, OutputConfig, Rendering,
};

verus! {

/// How records are rendered.
#[derive(Clone, Copy, PartialEq, Eq, Structural, Debug)]
pub enum Format {
    Text,
    Json,
}

/// What a run is asked to do.
pub struct Args {
    /// Input file; `-` or nothing is the standard input.
    pub input: Option<String>,
    /// Write to this file instead of the standard output.
    pub output: Option<String>,
    /// Rewrite the input file.
    pub in_place: bool,
    /// Deduplicate the input and write nothing.
    pub dry_run: bool,
    /// Fold case when comparing lines; implies `utf8`.
    pub ignore_case: bool,
    /// Treat the input as UTF-8 text.
    pub utf8: bool,
    pub format: Format,
    /// Print one line about the whole run.
    pub summary: bool,
    /// NUL-terminate each output record instead of newline.
    pub null: bool,
    /// Suppress all output.
    pub quiet: bool,
}

/// Whether two of the options given exclude each other.
pub open spec fn excluded(args: Args) -> bool {
    ||| args.output is Some && (args.in_place || args.dry_run || args.quiet)
    ||| args.in_place && (args.dry_run || args.null || args.quiet)
    ||| args.dry_run && (args.summary || args.quiet)
    ||| args.quiet && (args.null || args.summary)
}

/// What a run whose arguments do not fit together is answered.
pub open spec fn refusal(args: Args) -> Option<Seq<char>> {
    if excluded(args) {
        Some("these options cannot be used together"@)
    } else if args.format == Format::Json && args.null {
        Some("--format json cannot be combined with --null"@)
    } else if args.format == Format::Json && args.quiet {
        Some("--format json cannot be combined with --quiet"@)
    } else if args.in_place && (args.input is None || args.input->0@ == "-"@) {
        Some("--in-place requires a file argument (cannot rewrite stdin)"@)
    } else {
        None
    }
}

/// Check every constraint that spans arguments or depends on their values.
pub fn validate(args: &Args) -> (checked: Result<(), String>)
    ensures
        match checked {
            Ok(_) => refusal(*args) is None,
            Err(message) => refusal(*args) == Some(message@),
        },
{
    if (args.output.is_some() && (args.in_place || args.dry_run || args.quiet)) || (args.in_place
        && (args.dry_run || args.null || args.quiet)) || (args.dry_run && (args.summary
        || args.quiet)) || (args.quiet && (args.null || args.summary)) {
        return Err(String::from_str("these options cannot be used together"));
    }
    if args.format == Format::Json {
        if args.null {
            return Err(String::from_str("--format json cannot be combined with --null"));
        }
        if args.quiet {
            return Err(String::from_str("--format json cannot be combined with --quiet"));
        }
    }
    if args.in_place {
        let stdin = match &args.input {
            Some(path) => same_text(path.as_str(), "-"),
            None => true,
        };
        if stdin {
            return Err(
                String::from_str("--in-place requires a file argument (cannot rewrite stdin)"),
            );
        }
    }
    Ok(())
}

/// Where a run's surviving lines land. Rewriting the input is opt-in: the default writes to the
/// standard output, so piping a run's output away cannot destroy its input.
pub fn destination<'a>(args: &'a Args) -> (to: Destination<'a>)
    requires
        refusal(*args) is None,
    ensures
        match to {
            Destination::Replacing(path) => args.in_place && (args.input matches Some(input)
                && path@ == input@),
            Destination::Discard => !args.in_place && (args.dry_run || args.quiet),
            Destination::Creating(path) => !args.in_place && !args.dry_run && !args.quiet && (
            args.output matches Some(output) && path@ == output@ && output@ != "-"@),
            Destination::Stdout => !args.in_place && !args.dry_run && !args.quiet && (args.output
                is None || args.output->0@ == "-"@),
        },
{
    if args.in_place {
        if let Some(path) = &args.input {
            return Destination::Replacing(path.as_str());
        }
    }
    if args.dry_run || args.quiet {
        return Destination::Discard;
    }
    match &args.output {
        Some(path) => if same_text(path.as_str(), "-") {
            Destination::Stdout
        } else {
            Destination::Creating(path.as_str())
        },
        None => Destination::Stdout,
    }
}

/// The name a run's input goes by.
pub open spec fn input_name(args: Args) -> Seq<char> {
    match args.input {
        Some(path) => path@,
        None => "-"@,
    }
}

/// How a run writes its surviving lines. A file rewritten in place keeps every terminator it
/// arrived with, so nothing but the duplicates changes.
pub open spec fn rendering_of(args: Args) -> Rendering {
    if args.in_place {
        Rendering::Verbatim
    } else if args.format == Format::Json && !args.dry_run {
        Rendering::Json
    } else {
        Rendering::Terminated(
            if args.null {
                Terminator::Null
            } else {
                Terminator::Newline
            },
        )
    }
}

/// Whether a run takes its input for UTF-8. Case folding is a Unicode operation, so it brings the
/// Unicode newline set with it.
pub open spec fn reads_utf8(args: Args) -> bool {
    args.utf8 || args.ignore_case
}

/// What a finished run says about itself. One without a record stream still owes its one summary
/// record.
pub open spec fn notes_of(args: Args, unique: nat, total: nat) -> Seq<u8> {
    if args.format == Format::Json {
        if args.in_place || args.dry_run {
            summary_record(input_name(args), unique, total)
        } else {
            Seq::empty()
        }
    } else if args.summary || args.dry_run {
        decimal(unique) + lit(" unique lines of ") + decimal(total) + lit("\n")
    } else {
        Seq::empty()
    }
}

/// What a run produced: the surviving lines for its destination, what it says about itself, and
/// how it ends.
#[derive(Debug)]
pub struct Finished {
    pub content: Vec<u8>,
    pub notes: Vec<u8>,
    pub status: Status,
}

/// Carry out one run on the bytes it read.
pub fn run(args: &Args, data: &[u8]) -> (finished: Finished)
    requires
        refusal(*args) is None,
        manageable(lines(data@, 0, newlines_for(reads_utf8(*args))), args.ignore_case),
    ensures
        ({
            let utf8 = reads_utf8(*args);
            let unique = unique_lines(data@, args.ignore_case, utf8).len();
            let total = lines(data@, 0, newlines_for(utf8)).len();
            &&& finished.content@ == deduplicated(
                data@,
                args.ignore_case,
                utf8,
                rendering_of(*args),
                input_name(*args),
            )
            &&& finished.notes@ == notes_of(*args, unique, total)
            &&& finished.status == status_of(
                false,
                if args.quiet {
                    unique < total
                } else {
                    unique > 0
                },
            )
        }),
{
    let utf8 = args.utf8 || args.ignore_case;
    let name: &str = match &args.input {
        Some(path) => path.as_str(),
        None => "-",
    };
    let rendering = if args.in_place {
        Rendering::Verbatim
    } else if args.format == Format::Json && !args.dry_run {
        Rendering::Json
    } else {
        Rendering::Terminated(Terminator::from_null(args.null))
    };
    let config = OutputConfig { rendering, path: name };
    let mut content: Vec<u8> = Vec::new();
    let counts = dedup_to_writer(data, &mut content, args.ignore_case, utf8, &config);
    assert(content@ =~= deduplicated(data@, args.ignore_case, utf8, rendering, name@));
    let mut notes: Vec<u8> = Vec::new();
    if args.format == Format::Json {
        if args.in_place || args.dry_run {
            write_summary_json(&mut notes, name, counts);
        }
    } else if args.summary || args.dry_run {
        put_decimal(&mut notes, counts.unique as u64);
        put_str(&mut notes, " unique lines of ");
        put_decimal(&mut notes, counts.total as u64);
        put_str(&mut notes, "\n");
    }
    assert(notes@ =~= notes_of(*args, counts.unique as nat, counts.total as nat));
    let found = if args.quiet {
        counts.dropped_any()
    } else {
        counts.unique > 0
    };
    Finished { content, notes, status: Status::from_found(found) }
}

/// A run goes ahead where its result has one destination, where a quiet or counting run is asked for
/// nothing that it would not print, and where only a named file is rewritten.
pub proof fn only_options_that_fit_are_run(args: Args)
    ensures
        refusal(args) is None <==> {
            &&& !(args.output is Some && args.in_place)
            &&& !(args.dry_run && (args.output is Some || args.in_place))
            &&& !(args.dry_run && args.summary)
            &&& args.quiet ==> !args.in_place && !args.dry_run && !args.summary && !args.null
                && args.output is None && args.format != Format::Json
            &&& args.null ==> !args.in_place && args.format != Format::Json
            &&& args.in_place ==> args.input is Some && args.input->0@ != "-"@
        },
{
}

/// A file rewritten in place keeps its terminators; a stream ends every line alike, and JSON is
/// written only where there is a stream to write.
pub proof fn a_rewritten_file_keeps_its_terminators(args: Args)
    ensures
        rendering_of(args) is Verbatim <==> args.in_place,
        rendering_of(args) is Json <==> args.format == Format::Json && !args.in_place
            && !args.dry_run,
        args.format != Format::Json && !args.in_place ==> rendering_of(args)
            == Rendering::Terminated(
            if args.null {
                Terminator::Null
            } else {
                Terminator::Newline
            },
        ),
        args.ignore_case ==> reads_utf8(args),
        !args.ignore_case ==> reads_utf8(args) == args.utf8,
        (args.in_place || args.dry_run) && args.format == Format::Json ==> forall|
            unique: nat,
            total: nat,
        |
            (#[trigger] notes_of(args, unique, total)) == summary_record(
                input_name(args),
                unique,
                total,
            ),
{
}

} // verus!
