//! One extracting run: what its arguments must satisfy, and what it writes.

use vstd::prelude::*;
use vstd::string::StringExecFns;
use vstd::utf8::encode_utf8;

use crate::json::Terminator;
use crate::lines::Newlines;
use crate::status::{status_of, Status};
use crate::text::lemma_text_bytes;

use super::columns::{indices_of, parse_columns, selected_columns};
use super::extract::{
    extract_data, line_texts, reach, record_count, records, ColsState, ColumnSelection, Cutting,
    OutputConfig, Writing,
};

verus! {

/// How records are rendered.
#[derive(Clone, Copy, PartialEq, Eq, Structural, Debug)]
pub enum Format {
    /// The selected columns, joined by the output delimiter.
    Text,
    /// JSON Lines, one record per output line.
    Json,
}

/// What a run is asked to do.
pub struct Args {
    /// Input file; `-` or nothing is the standard input.
    pub input: Option<String>,
    /// Columns to extract: single (2), list (1,3,5), or range (2-5).
    pub columns: String,
    /// Column delimiter.
    pub delimiter: String,
    /// Output delimiter, the input delimiter where none is given.
    pub output_delimiter: Option<String>,
    /// Only output lines with at least this many columns.
    pub min_columns: Option<usize>,
    /// Treat the input as UTF-8 text.
    pub utf8: bool,
    /// The rendering that was asked for, text where none was.
    pub format: Option<Format>,
    /// NUL-terminate each output record instead of newline.
    pub null: bool,
    /// Suppress all output.
    pub quiet: bool,
}

/// What a run whose arguments do not fit together is answered.
pub open spec fn refusal(args: Args) -> Option<Seq<char>> {
    if args.quiet && (args.format is Some || args.null || args.output_delimiter is Some) {
        Some("these options cannot be used together"@)
    } else if args.delimiter@.len() == 0 {
        Some("--delimiter cannot be empty"@)
    } else if args.format == Some(Format::Json) && args.output_delimiter is Some {
        Some("--format json nests columns, so --output-delimiter has no effect"@)
    } else if args.format == Some(Format::Json) && args.null {
        Some("--format json cannot be combined with --null"@)
    } else {
        None
    }
}

/// Whether a run renders JSON.
pub fn renders_json(args: &Args) -> (yes: bool)
    ensures
        yes == (args.format == Some(Format::Json)),
{
    match args.format {
        Some(format) => format == Format::Json,
        None => false,
    }
}

/// Check every constraint that spans arguments or depends on their values.
pub fn validate(args: &Args) -> (checked: Result<(), String>)
    ensures
        match checked {
            Ok(_) => refusal(*args) is None,
            Err(message) => refusal(*args) == Some(message@),
        },
{
    if args.quiet && (args.format.is_some() || args.null || args.output_delimiter.is_some()) {
        return Err(String::from_str("these options cannot be used together"));
    }
    if args.delimiter.as_str().is_empty() {
        return Err(String::from_str("--delimiter cannot be empty"));
    }
    if renders_json(args) {
        if args.output_delimiter.is_some() {
            return Err(
                String::from_str(
                    "--format json nests columns, so --output-delimiter has no effect",
                ),
            );
        }
        if args.null {
            return Err(String::from_str("--format json cannot be combined with --null"));
        }
    }
    Ok(())
}

/// The name a run's input goes by.
pub open spec fn input_name(args: Args) -> Seq<char> {
    match args.input {
        Some(path) => path@,
        None => "-"@,
    }
}

/// What a run extracts, `indices` being the columns it names. A minimum tests the total column
/// count, so only a run without one may stop splitting early.
pub open spec fn cutting(args: Args, indices: Seq<int>) -> Cutting {
    Cutting {
        indices,
        limit: if args.min_columns is None {
            Some(reach(indices) as usize)
        } else {
            None
        },
        delimiter: encode_utf8(args.delimiter@),
        min_columns: args.min_columns,
    }
}

/// How a run writes its records.
pub open spec fn writing(args: Args) -> Writing {
    Writing {
        json: args.format == Some(Format::Json),
        terminator: if args.null {
            Terminator::Null
        } else {
            Terminator::Newline
        },
        between: match args.output_delimiter {
            Some(delimiter) => encode_utf8(delimiter@),
            None => encode_utf8(args.delimiter@),
        },
        path: input_name(args),
    }
}

/// The selection that `args` ask for, `indices` being the columns they name.
pub fn selection_of<'a>(args: &'a Args, indices: &'a [usize]) -> (selection: ColumnSelection<'a>)
    requires
        refusal(*args) is None,
        forall|i: int| 0 <= i < indices@.len() ==> #[trigger] indices@[i] < usize::MAX,
    ensures
        selection@ == cutting(*args, indices_of(indices@)),
        selection.delimiter@.len() > 0,
{
    proof {
        lemma_text_bytes(args.delimiter@);
    }
    ColumnSelection::new(indices, args.delimiter.as_str().as_bytes(), args.min_columns)
}

/// How the records that `args` ask for are written.
pub fn config_of<'a>(args: &'a Args) -> (config: OutputConfig<'a>)
    ensures
        config@ == writing(*args),
{
    let output_delimiter: &[u8] = match &args.output_delimiter {
        Some(delimiter) => delimiter.as_str().as_bytes(),
        None => args.delimiter.as_str().as_bytes(),
    };
    OutputConfig {
        json: renders_json(args),
        terminator: Terminator::from_null(args.null),
        output_delimiter,
        path: match &args.input {
            Some(path) => path.as_str(),
            None => "-",
        },
    }
}

/// The newline set of a run.
pub open spec fn newlines_of(args: Args) -> Newlines {
    if args.utf8 {
        Newlines::Unicode
    } else {
        Newlines::Lf
    }
}

/// Carry out one run on the bytes it read. A quiet run still extracts, so the record count that
/// answers it stays honest.
pub fn run(args: &Args, data: &[u8], output: &mut Vec<u8>) -> (outcome: Result<Status, String>)
    requires
        data@.len() < usize::MAX,
    ensures
        match outcome {
            Err(message) => final(output)@ == old(output)@ && (refusal(*args) == Some(message@)
                || refusal(*args) is None && selected_columns(args.columns@) == Err::<
                Seq<int>,
                Seq<char>,
            >(message@)),
            Ok(status) => refusal(*args) is None && (selected_columns(args.columns@) matches Ok(
                indices,
            ) && {
                let texts = line_texts(data@, newlines_of(*args));
                &&& final(output)@ == if args.quiet {
                    old(output)@
                } else {
                    old(output)@ + records(cutting(*args, indices), writing(*args), texts, 0)
                }
                &&& status == status_of(
                    false,
                    record_count(cutting(*args, indices), texts) > 0,
                )
            }),
        },
{
    if let Err(message) = validate(args) {
        return Err(message);
    }
    let indices: Vec<usize> = match parse_columns(args.columns.as_str()) {
        Ok(indices) => indices,
        Err(message) => {
            return Err(message);
        },
    };
    let selection = selection_of(args, indices.as_slice());
    let config = config_of(args);
    let newlines = Newlines::from_utf8(args.utf8);
    let mut state = ColsState::default();
    if args.quiet {
        let mut discarded: Vec<u8> = Vec::new();
        extract_data(data, &mut state, &selection, newlines, &config, &mut discarded);
    } else {
        extract_data(data, &mut state, &selection, newlines, &config, output);
    }
    Ok(Status::from_found(state.emitted > 0))
}

/// A run goes ahead where it has a delimiter to split on, and where a quiet or a JSON run is asked for
/// nothing that it would not print.
pub proof fn only_options_that_fit_are_run(args: Args)
    ensures
        refusal(args) is None <==> {
            &&& args.delimiter@.len() > 0
            &&& args.quiet ==> args.format is None && !args.null && args.output_delimiter is None
            &&& args.format == Some(Format::Json) ==> !args.null && args.output_delimiter is None
        },
{
}

/// Records are put together with the output delimiter, which is the delimiter they were split on
/// unless another is given.
pub proof fn fields_are_joined_as_they_were_split(args: Args)
    ensures
        args.output_delimiter is None ==> writing(args).between == encode_utf8(args.delimiter@),
        args.output_delimiter matches Some(between) ==> writing(args).between == encode_utf8(
            between@,
        ),
        args.min_columns is Some ==> forall|indices: Seq<int>|
            (#[trigger] cutting(args, indices)).limit is None,
        forall|indices: Seq<int>|
            (#[trigger] cutting(args, indices)).min_columns == args.min_columns && cutting(
                args,
                indices,
            ).indices == indices,
{
}

} // verus!
