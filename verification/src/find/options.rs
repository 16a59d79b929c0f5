//! What a search was asked for, and how its records are to be written.

use vstd::prelude::*;
use vstd::string::StringExecFns;

use crate::args::{to_uppercase, uppercase};
use crate::hashing::DEFAULT_HASH_WIDTH;
use crate::json::Terminator;
use crate::text::{chars_of, same_text};

verus! {

/// One column a record can carry. [`Show`] picks which records the run emits; the fields pick what
/// each of them says.
#[derive(Clone, Copy, Debug, PartialEq, Eq, Structural)]
pub enum Field {
    /// The 1-based line number.
    LineNumbers,
    /// The 1-based column of the first match on the line.
    ColumnNumbers,
    /// The line's byte offset from the start of the input.
    ByteOffset,
    /// A hash of the line's content, which survives edits elsewhere in the file.
    LineHashes,
    /// A hash of the whole file, as a replacement can be pinned to.
    FileHash,
}

impl Field {
    /// The bit this field takes in a set of fields.
    pub open spec fn mask(self) -> u8 {
        match self {
            Field::LineNumbers => 1,
            Field::ColumnNumbers => 2,
            Field::ByteOffset => 4,
            Field::LineHashes => 8,
            Field::FileHash => 16,
        }
    }

    /// The bit this field takes in a set of fields.
    pub fn bit(self) -> (bit: u8)
        ensures
            bit == self.mask(),
    {
        match self {
            Field::LineNumbers => 1,
            Field::ColumnNumbers => 2,
            Field::ByteOffset => 4,
            Field::LineHashes => 8,
            Field::FileHash => 16,
        }
    }

    /// The bits of every named field, which is the whole set in one word.
    pub fn bits(fields: &[Field]) -> (bits: u8)
        ensures
            forall|field: Field| #[trigger] holds_field(bits, field) <==> fields@.contains(field),
    {
        let mut bits: u8 = 0;
        let mut index: usize = 0;
        proof {
            assert forall|field: Field| !#[trigger] holds_field(bits, field) by {
                lemma_no_bits(field.mask());
            }
        }
        while index < fields.len()
            invariant
                index <= fields@.len(),
                forall|field: Field| #[trigger]
                    holds_field(bits, field) <==> fields@.take(index as int).contains(field),
            decreases fields@.len() - index,
        {
            let ghost before = bits;
            let ghost added = fields@[index as int];
            bits = bits | fields[index].bit();
            proof {
                let seen = fields@.take(index as int);
                let next = fields@.take(index + 1);
                assert(next =~= seen.push(added));
                assert forall|field: Field| #[trigger]
                    holds_field(bits, field) <==> next.contains(field) by {
                    lemma_bits_join(before, added.mask(), field.mask());
                    assert(seen.contains(field) == holds_field(before, field));
                    assert(next.contains(field) <==> seen.contains(field) || field == added) by {
                        if seen.contains(field) {
                            let at = choose|at: int| 0 <= at < seen.len() && seen[at] == field;
                            assert(next[at] == field);
                        }
                        assert(next[index as int] == added);
                    }
                }
            }
            index += 1;
        }
        assert(fields@.take(fields@.len() as int) =~= fields@);
        bits
    }
}

/// Whether a set of fields, packed into bits, holds `field`.
pub open spec fn holds_field(bits: u8, field: Field) -> bool {
    bits & field.mask() != 0
}

proof fn lemma_no_bits(mask: u8)
    ensures
        0u8 & mask == 0,
{
    assert(0u8 & mask == 0) by (bit_vector);
}

proof fn lemma_bits_join(bits: u8, added: u8, mask: u8)
    requires
        added == 1 || added == 2 || added == 4 || added == 8 || added == 16,
        mask == 1 || mask == 2 || mask == 4 || mask == 8 || mask == 16,
    ensures
        (bits | added) & mask != 0 <==> bits & mask != 0 || added == mask,
{
    assert((bits | added) & mask != 0 <==> bits & mask != 0 || added == mask) by (bit_vector)
        requires
            added == 1 || added == 2 || added == 4 || added == 8 || added == 16,
            mask == 1 || mask == 2 || mask == 4 || mask == 8 || mask == 16,
    ;
}

/// Which record kind the run emits.
#[derive(Clone, Copy, Debug, PartialEq, Eq, Structural)]
pub enum Show {
    /// Every selected line.
    Lines,
    /// Only the matched parts of selected lines.
    Matches,
    /// One count per input.
    Count,
    /// The path of every input that matched.
    Files,
    /// The path of every input that did not match.
    FilesWithout,
}

/// How records are rendered.
#[derive(Clone, Copy, Debug, PartialEq, Eq, Structural)]
pub enum Format {
    /// The matching line, with any requested fields ahead of it.
    Text,
    /// JSON Lines, one object per match plus begin and end records.
    Json,
    /// `path:line:column:text`, which editors follow back to the match.
    Vimgrep,
}

/// What the pattern is matched against.
#[derive(Clone, Copy, Debug, PartialEq, Eq, Structural)]
pub enum Match {
    /// A literal substring, matched anywhere in the line.
    Substring,
    /// The same substring, but only where a whole word.
    Word,
}

/// When matches are colored.
#[derive(Clone, Copy, Debug, PartialEq, Eq, Structural)]
pub enum ColorChoice {
    Auto,
    Always,
    Never,
}

/// The choice a text names, whatever the case of its letters.
pub open spec fn named_choice(text: Seq<char>) -> Option<ColorChoice> {
    let upper = uppercase(text);
    if upper == "AUTO"@ {
        Some(ColorChoice::Auto)
    } else if upper == "ALWAYS"@ || upper == "YES"@ {
        Some(ColorChoice::Always)
    } else if upper == "NEVER"@ || upper == "NO"@ {
        Some(ColorChoice::Never)
    } else {
        None
    }
}

impl ColorChoice {
    /// Read a choice by name.
    pub fn parse(text: &str) -> (choice: Result<ColorChoice, String>)
        ensures
            match choice {
                Ok(choice) => named_choice(text@) == Some(choice),
                Err(message) => named_choice(text@) is None && message@
                    == "Invalid color choice: "@ + text@,
            },
    {
        let chars = chars_of(text);
        let upper = to_uppercase(chars.as_slice());
        if same_text(upper.as_str(), "AUTO") {
            Ok(ColorChoice::Auto)
        } else if same_text(upper.as_str(), "ALWAYS") || same_text(upper.as_str(), "YES") {
            Ok(ColorChoice::Always)
        } else if same_text(upper.as_str(), "NEVER") || same_text(upper.as_str(), "NO") {
            Ok(ColorChoice::Never)
        } else {
            let mut message = String::from_str("Invalid color choice: ");
            message.append(text);
            Err(message)
        }
    }
}

/// What a search was asked for.
#[derive(Debug)]
pub struct Args {
    /// The literal pattern.
    pub pattern: String,
    /// The files and directories to search, or `-` for the standard input.
    pub inputs: Vec<String>,
    pub show: Option<Show>,
    pub format: Format,
    /// Which columns each record carries.
    pub fields: Vec<Field>,
    /// How many characters of a line hash to print.
    pub hash_width: Option<usize>,
    pub match_kind: Match,
    pub ignore_case: bool,
    /// Lines of context before a match.
    pub before_context: usize,
    /// Lines of context after a match.
    pub after_context: usize,
    /// Lines of context on both sides, overriding both.
    pub context: Option<usize>,
    pub utf8: bool,
    /// Whether the pattern may match across line boundaries.
    pub multiline: bool,
    /// Whether the lines that do not match are shown instead.
    pub invert_match: bool,
    /// Stop after this many matches.
    pub max_matches: Option<usize>,
    /// Suppress all output.
    pub quiet: bool,
    /// Report totals for the whole run.
    pub summary: bool,
    pub color: ColorChoice,
    /// Group matches by file under a header.
    pub heading: bool,
    /// Trim printed lines to this many units.
    pub max_line_length: Option<usize>,
    /// NUL-terminate each output record.
    pub null: bool,
    /// Search binary files too.
    pub binary: bool,
}

/// What `--show` asks for, lines unless it was given.
pub open spec fn shown(args: Args) -> Show {
    match args.show {
        Some(show) => show,
        None => Show::Lines,
    }
}

/// Whether any surrounding lines were asked for.
pub open spec fn asks_for_context(args: Args) -> bool {
    args.context is Some || args.before_context > 0 || args.after_context > 0
}

/// Whether two of the options given exclude each other.
pub open spec fn excluded(args: Args) -> bool {
    ||| args.quiet && (args.show is Some || args.format != Format::Text || args.null
        || args.fields@.len() > 0 || args.heading || args.color != ColorChoice::Auto
        || args.max_line_length is Some || asks_for_context(args))
    ||| args.context is Some && (args.before_context > 0 || args.after_context > 0)
    ||| args.multiline && args.invert_match
}

/// Whether the run names each file once rather than on every record, which is where a whole-file
/// value can go.
pub open spec fn naming_files_once(args: Args) -> bool {
    args.format == Format::Json || args.heading
}

/// The name of a record kind.
pub open spec fn show_name(show: Show) -> Seq<char> {
    match show {
        Show::Lines => "lines"@,
        Show::Matches => "matches"@,
        Show::Count => "count"@,
        Show::Files => "files"@,
        Show::FilesWithout => "files-without"@,
    }
}

/// The name of a field.
pub open spec fn field_name(field: Field) -> Seq<char> {
    match field {
        Field::LineNumbers => "line-numbers"@,
        Field::ColumnNumbers => "column-numbers"@,
        Field::ByteOffset => "byte-offset"@,
        Field::LineHashes => "line-hashes"@,
        Field::FileHash => "file-hash"@,
    }
}

/// The first option that decorates a line, which a record naming a whole file has no room for.
pub open spec fn decoration(args: Args) -> Option<Seq<char>> {
    if args.fields@.len() > 0 {
        Some("--fields"@)
    } else if args.heading {
        Some("--heading"@)
    } else if args.max_line_length is Some {
        Some("--max-line-length"@)
    } else if asks_for_context(args) {
        Some("--context"@)
    } else {
        None
    }
}

/// The first of these fields, from `from` on, that JSON emits on every record anyway.
pub open spec fn first_carried(fields: Seq<Field>, from: int) -> Option<Field>
    decreases fields.len() - from,
{
    if from < 0 || from >= fields.len() {
        None
    } else if fields[from] == Field::LineNumbers || fields[from] == Field::ColumnNumbers
        || fields[from] == Field::ByteOffset {
        Some(fields[from])
    } else {
        first_carried(fields, from + 1)
    }
}

/// The first option that the format leaves nothing to do for.
pub open spec fn redundant(args: Args) -> Option<Seq<char>> {
    match args.format {
        // JSON escapes nothing, names its file in every record and reproduces whole lines.
        Format::Json => if args.null {
            Some("--null"@)
        } else if args.heading {
            Some("--heading"@)
        } else if args.color != ColorChoice::Auto {
            Some("--color"@)
        } else if args.max_line_length is Some {
            Some("--max-line-length"@)
        } else {
            None
        },
        // Vimgrep names its file, line and column in every record, and a fifth column would be a
        // different format wearing its name.
        Format::Vimgrep => if args.heading {
            Some("--heading"@)
        } else if args.fields@.len() > 0 {
            Some("--fields"@)
        } else if args.color != ColorChoice::Auto {
            Some("--color"@)
        } else {
            None
        },
        Format::Text => None,
    }
}

/// The name of a format.
pub open spec fn format_name(format: Format) -> Seq<char> {
    match format {
        Format::Text => "text"@,
        Format::Json => "json"@,
        Format::Vimgrep => "vimgrep"@,
    }
}

/// What a search whose arguments do not fit together is answered. Every pair refused here is inert
/// by construction, not merely for some inputs, which is why silence would misreport what the run
/// did.
pub open spec fn refusal(args: Args) -> Option<Seq<char>> {
    let whole_files = shown(args) == Show::Count || shown(args) == Show::Files || shown(args)
        == Show::FilesWithout;
    if excluded(args) {
        Some("these options cannot be used together"@)
    } else if args.pattern@.len() == 0 {
        Some("pattern cannot be empty"@)
    } else if args.quiet && args.max_matches is Some && !args.summary {
        Some("--quiet stops at the first match, so it cannot be combined with --max-matches"@)
    } else if args.invert_match && shown(args) == Show::Matches {
        Some(
            "--invert-match selects the lines that hold no match, so --show matches has nothing to print"@,
        )
    } else if whole_files && decoration(args) is Some {
        Some(
            "--show "@ + show_name(shown(args))
                + " emits one record per file, so it cannot be combined with "@ + decoration(
                args,
            )->0,
        )
    } else if args.hash_width is Some && !args.fields@.contains(Field::LineHashes) {
        Some("--hash-width sizes a line hash, so it needs --fields line-hashes"@)
    } else if args.multiline && args.fields@.contains(Field::ColumnNumbers) {
        Some(
            "--multiline matches across lines, so --fields column-numbers has no column to resolve"@,
        )
    } else if args.fields@.contains(Field::FileHash) && !naming_files_once(args) {
        Some("--fields file-hash names a whole file, so it needs --format json or --heading"@)
    } else if args.format == Format::Json && first_carried(args.fields@, 0) is Some {
        let name = field_name(first_carried(args.fields@, 0)->0);
        Some(
            "--format json already carries "@ + name + ", so --fields "@ + name
                + " is not allowed"@,
        )
    } else if redundant(args) is Some {
        Some(
            "--format "@ + format_name(args.format) + " cannot be combined with "@ + redundant(
                args,
            )->0,
        )
    } else {
        None
    }
}

fn includes(fields: &[Field], wanted: Field) -> (found: bool)
    ensures
        found == fields@.contains(wanted),
{
    let mut index: usize = 0;
    while index < fields.len()
        invariant
            index <= fields@.len(),
            forall|at: int| 0 <= at < index ==> fields@[at] != wanted,
        decreases fields@.len() - index,
    {
        if fields[index] == wanted {
            assert(fields@[index as int] == wanted);
            return true;
        }
        index += 1;
    }
    false
}

/// Whether the run names each file once rather than on every record.
pub fn names_files_once(args: &Args) -> (once: bool)
    ensures
        once == naming_files_once(*args),
{
    args.format == Format::Json || args.heading
}

fn name_of_show(show: Show) -> (name: &'static str)
    ensures
        name@ == show_name(show),
{
    match show {
        Show::Lines => "lines",
        Show::Matches => "matches",
        Show::Count => "count",
        Show::Files => "files",
        Show::FilesWithout => "files-without",
    }
}

fn name_of_field(field: Field) -> (name: &'static str)
    ensures
        name@ == field_name(field),
{
    match field {
        Field::LineNumbers => "line-numbers",
        Field::ColumnNumbers => "column-numbers",
        Field::ByteOffset => "byte-offset",
        Field::LineHashes => "line-hashes",
        Field::FileHash => "file-hash",
    }
}

fn find_decoration(args: &Args) -> (flag: Option<&'static str>)
    ensures
        match flag {
            Some(flag) => decoration(*args) == Some(flag@),
            None => decoration(*args) is None,
        },
{
    if args.fields.len() > 0 {
        Some("--fields")
    } else if args.heading {
        Some("--heading")
    } else if args.max_line_length.is_some() {
        Some("--max-line-length")
    } else if args.context.is_some() || args.before_context > 0 || args.after_context > 0 {
        Some("--context")
    } else {
        None
    }
}

fn find_carried(fields: &[Field]) -> (field: Option<Field>)
    ensures
        field == first_carried(fields@, 0),
{
    let mut index: usize = 0;
    while index < fields.len()
        invariant
            index <= fields@.len(),
            first_carried(fields@, 0) == first_carried(fields@, index as int),
        decreases fields@.len() - index,
    {
        let field = fields[index];
        if field == Field::LineNumbers || field == Field::ColumnNumbers || field
            == Field::ByteOffset {
            return Some(field);
        }
        index += 1;
    }
    None
}

fn find_redundant(args: &Args) -> (flag: Option<&'static str>)
    ensures
        match flag {
            Some(flag) => redundant(*args) == Some(flag@),
            None => redundant(*args) is None,
        },
{
    let colored = args.color != ColorChoice::Auto;
    match args.format {
        Format::Json => if args.null {
            Some("--null")
        } else if args.heading {
            Some("--heading")
        } else if colored {
            Some("--color")
        } else if args.max_line_length.is_some() {
            Some("--max-line-length")
        } else {
            None
        },
        Format::Vimgrep => if args.heading {
            Some("--heading")
        } else if args.fields.len() > 0 {
            Some("--fields")
        } else if colored {
            Some("--color")
        } else {
            None
        },
        Format::Text => None,
    }
}

fn are_excluded(args: &Args) -> (yes: bool)
    ensures
        yes == excluded(*args),
{
    let around = args.context.is_some() || args.before_context > 0 || args.after_context > 0;
    (args.quiet && (args.show.is_some() || args.format != Format::Text || args.null
        || args.fields.len() > 0 || args.heading || args.color != ColorChoice::Auto
        || args.max_line_length.is_some() || around)) || (args.context.is_some() && (
    args.before_context > 0 || args.after_context > 0)) || (args.multiline && args.invert_match)
}

/// Check every constraint that spans arguments or depends on their values.
pub fn validate(args: &Args) -> (checked: Result<(), String>)
    ensures
        match checked {
            Ok(_) => refusal(*args) is None,
            Err(message) => refusal(*args) == Some(message@),
        },
{
    if are_excluded(args) {
        return Err(String::from_str("these options cannot be used together"));
    }
    if args.pattern.as_str().is_empty() {
        return Err(String::from_str("pattern cannot be empty"));
    }
    // A quiet run stops at the first match, where a cap changes nothing — except under a summary,
    // which keeps the tally running and whose totals the cap does bound.
    if args.quiet && args.max_matches.is_some() && !args.summary {
        return Err(
            String::from_str(
                "--quiet stops at the first match, so it cannot be combined with --max-matches",
            ),
        );
    }
    let show = match args.show {
        Some(show) => show,
        None => Show::Lines,
    };
    if args.invert_match && show == Show::Matches {
        return Err(
            String::from_str(
                "--invert-match selects the lines that hold no match, so --show matches has nothing to print",
            ),
        );
    }
    // A record naming a whole file carries no position, no line and no trimmed text.
    if show == Show::Count || show == Show::Files || show == Show::FilesWithout {
        if let Some(flag) = find_decoration(args) {
            let mut message = String::from_str("--show ");
            message.append(name_of_show(show));
            message.append(" emits one record per file, so it cannot be combined with ");
            message.append(flag);
            return Err(message);
        }
    }
    // Sizing a hash that is never printed is inert for every value of the flag.
    if args.hash_width.is_some() && !includes(args.fields.as_slice(), Field::LineHashes) {
        return Err(
            String::from_str("--hash-width sizes a line hash, so it needs --fields line-hashes"),
        );
    }
    // A multiline match crosses lines, so no single line holds a column to point at, and every
    // record would report column one.
    if args.multiline && includes(args.fields.as_slice(), Field::ColumnNumbers) {
        return Err(
            String::from_str(
                "--multiline matches across lines, so --fields column-numbers has no column to resolve",
            ),
        );
    }
    if includes(args.fields.as_slice(), Field::FileHash) && !names_files_once(args) {
        return Err(
            String::from_str(
                "--fields file-hash names a whole file, so it needs --format json or --heading",
            ),
        );
    }
    // JSON emits the line number and the offset on every record, so asking for those again is
    // redundant; the two hashes are not, since neither is emitted unasked. Only some values
    // conflict, so the message names the one that did rather than the flag.
    if args.format == Format::Json {
        if let Some(field) = find_carried(args.fields.as_slice()) {
            let mut message = String::from_str("--format json already carries ");
            message.append(name_of_field(field));
            message.append(", so --fields ");
            message.append(name_of_field(field));
            message.append(" is not allowed");
            return Err(message);
        }
    }
    if let Some(flag) = find_redundant(args) {
        let mut message = String::from_str("--format ");
        message.append(
            match args.format {
                Format::Text => "text",
                Format::Json => "json",
                Format::Vimgrep => "vimgrep",
            },
        );
        message.append(" cannot be combined with ");
        message.append(flag);
        return Err(message);
    }
    Ok(())
}

/// ANSI color codes.
#[derive(Clone, Copy, Debug)]
pub struct Colors {
    pub path: &'static str,
    pub line_number: &'static str,
    pub column: &'static str,
    pub byte_offset: &'static str,
    pub hash: &'static str,
    pub match_highlight: &'static str,
    pub reset: &'static str,
    pub separator: &'static str,
}

impl Colors {
    pub fn enabled() -> (colors: Self)
        ensures
            colors.path@ == "\x1b[1;35m"@,
            colors.line_number@ == "\x1b[32m"@,
            colors.column@ == "\x1b[32m"@,
            colors.byte_offset@ == "\x1b[36m"@,
            colors.hash@ == "\x1b[33m"@,
            colors.match_highlight@ == "\x1b[1;31m"@,
            colors.reset@ == "\x1b[0m"@,
            colors.separator@ == "\x1b[36m"@,
            colors.match_highlight@.len() > 0,
    {
        proof {
            reveal_strlit("\x1b[1;31m");
        }
        Colors {
            path: "\x1b[1;35m",
            line_number: "\x1b[32m",
            column: "\x1b[32m",
            byte_offset: "\x1b[36m",
            hash: "\x1b[33m",
            match_highlight: "\x1b[1;31m",
            reset: "\x1b[0m",
            separator: "\x1b[36m",
        }
    }

    pub fn disabled() -> (colors: Self)
        ensures
            colors.none(),
    {
        proof {
            reveal_strlit("");
        }
        Colors {
            path: "",
            line_number: "",
            column: "",
            byte_offset: "",
            hash: "",
            match_highlight: "",
            reset: "",
            separator: "",
        }
    }

    /// Whether nothing is colored at all.
    pub open spec fn none(self) -> bool {
        &&& self.path@.len() == 0
        &&& self.line_number@.len() == 0
        &&& self.column@.len() == 0
        &&& self.byte_offset@.len() == 0
        &&& self.hash@.len() == 0
        &&& self.match_highlight@.len() == 0
        &&& self.reset@.len() == 0
        &&& self.separator@.len() == 0
    }
}

/// The layout of what a run prints.
#[derive(Clone, Copy, Debug, PartialEq, Eq, Structural)]
pub enum OutputFormat {
    /// `file:line:text`, with the columns asked for.
    Standard,
    /// Grouped by file under its name.
    Heading,
    /// `file:line:column:text`, every match on a line of its own.
    Vimgrep,
    /// JSON Lines.
    Json,
}

/// How many inputs the run reads, which is what decides whether a record names its file.
#[derive(Clone, Copy, Debug, PartialEq, Eq, Structural)]
pub enum Inputs {
    One,
    Many,
}

/// Everything the line emitters read, resolved once from the flags.
#[derive(Clone, Copy, Debug)]
pub struct OutputConfig {
    pub output_format: OutputFormat,
    pub colors: Colors,
    /// The columns each record carries, packed by [`Field::bits`].
    pub fields: u8,
    /// How many characters of a line hash are printed.
    pub hash_width: usize,
    pub show: Show,
    pub inputs: Inputs,
    pub max_line_length: Option<usize>,
    /// What ends every emitted record.
    pub terminator: u8,
}

impl OutputConfig {
    /// Whether a record names the file it came from, which a heading writes once instead.
    pub open spec fn names_path(self) -> bool {
        self.inputs == Inputs::Many && self.output_format != OutputFormat::Heading
    }

    /// Whether a record carries its line number, which `path:line:column:text` does unasked.
    pub open spec fn numbers_lines(self) -> bool {
        holds_field(self.fields, Field::LineNumbers) || self.output_format == OutputFormat::Vimgrep
    }

    /// Whether a record carries the column of its first match.
    pub open spec fn numbers_columns(self) -> bool {
        holds_field(self.fields, Field::ColumnNumbers) || self.output_format
            == OutputFormat::Vimgrep
    }

    /// Whether a printed matching line has its matches wrapped in color codes.
    pub open spec fn colors_matches(self) -> bool {
        &&& self.match_coded()
        &&& self.show != Show::Matches
        &&& self.output_format != OutputFormat::Json
        &&& self.output_format != OutputFormat::Vimgrep
    }

    /// Whether there is a code to color a match with.
    pub open spec fn match_coded(self) -> bool {
        self.colors.match_highlight@.len() > 0
    }

    /// Whether a record carries a prefix that has to be resolved per line.
    pub open spec fn resolves_lines(self) -> bool {
        self.numbers_lines() || holds_field(self.fields, Field::ByteOffset) || holds_field(
            self.fields,
            Field::LineHashes,
        )
    }

    /// Whether the named column is printed.
    pub fn carries(&self, field: Field) -> (yes: bool)
        ensures
            yes == holds_field(self.fields, field),
    {
        self.fields & field.bit() != 0
    }

    /// Whether a record names the file it came from, which a heading writes once instead.
    pub fn shows_path(&self) -> (yes: bool)
        ensures
            yes == self.names_path(),
    {
        self.inputs == Inputs::Many && self.output_format != OutputFormat::Heading
    }

    /// Whether a record carries its line number.
    pub fn line_numbers(&self) -> (yes: bool)
        ensures
            yes == self.numbers_lines(),
    {
        self.carries(Field::LineNumbers) || self.output_format == OutputFormat::Vimgrep
    }

    /// Whether a record carries the column of its first match.
    pub fn column_numbers(&self) -> (yes: bool)
        ensures
            yes == self.numbers_columns(),
    {
        self.carries(Field::ColumnNumbers) || self.output_format == OutputFormat::Vimgrep
    }

    /// Whether a record is reduced to the matched parts of its line.
    pub fn only_matches(&self) -> (yes: bool)
        ensures
            yes == (self.show == Show::Matches),
    {
        self.show == Show::Matches
    }

    /// Whether a printed matching line has its matches wrapped in color codes. A record reduced to
    /// its matches, JSON and vimgrep reproduce the match text themselves.
    pub fn highlights(&self) -> (yes: bool)
        ensures
            yes == self.colors_matches(),
    {
        !self.colors.match_highlight.is_empty() && !self.only_matches() && self.output_format
            != OutputFormat::Json && self.output_format != OutputFormat::Vimgrep
    }

    /// Whether a record carries a prefix that has to be resolved per line, which is what makes a
    /// multiline search print its region line by line rather than as one slice.
    ///
    /// Columns are absent because a multiline region holds none to resolve.
    pub fn annotates_lines(&self) -> (yes: bool)
        ensures
            yes == self.resolves_lines(),
    {
        self.line_numbers() || self.carries(Field::ByteOffset) || self.carries(Field::LineHashes)
    }

    /// Collapse the output flags into the form every emitter reads. `is_terminal` answers what an
    /// automatic color choice asks of the destination.
    pub fn new(args: &Args, show: Show, inputs: Inputs, is_terminal: bool) -> (config: Self)
        ensures
            config.resolves(*args, show, inputs, is_terminal),
    {
        let output_format = match args.format {
            Format::Json => OutputFormat::Json,
            Format::Vimgrep => OutputFormat::Vimgrep,
            Format::Text => if args.heading {
                OutputFormat::Heading
            } else {
                OutputFormat::Standard
            },
        };
        // JSON carries its own structure, so escape codes would corrupt it.
        let use_color = match args.color {
            ColorChoice::Always => true,
            ColorChoice::Never => false,
            ColorChoice::Auto => is_terminal && output_format != OutputFormat::Json,
        };
        OutputConfig {
            output_format,
            colors: if use_color {
                Colors::enabled()
            } else {
                Colors::disabled()
            },
            fields: Field::bits(args.fields.as_slice()),
            hash_width: match args.hash_width {
                Some(width) => width,
                None => DEFAULT_HASH_WIDTH,
            },
            show,
            inputs,
            max_line_length: args.max_line_length,
            terminator: Terminator::from_null(args.null).as_byte(),
        }
    }

    /// Whether this is what the flags ask for.
    pub open spec fn resolves(
        self,
        args: Args,
        show: Show,
        inputs: Inputs,
        is_terminal: bool,
    ) -> bool {
        &&& self.output_format == match args.format {
            Format::Json => OutputFormat::Json,
            Format::Vimgrep => OutputFormat::Vimgrep,
            Format::Text => if args.heading {
                OutputFormat::Heading
            } else {
                OutputFormat::Standard
            },
        }
        &&& {
            let colored = match args.color {
                ColorChoice::Always => true,
                ColorChoice::Never => false,
                ColorChoice::Auto => is_terminal && args.format != Format::Json,
            };
            &&& colored ==> self.match_coded() && self.colors.reset@ == "\x1b[0m"@
                && self.colors.match_highlight@ == "\x1b[1;31m"@ && self.colors.path@
                == "\x1b[1;35m"@ && self.colors.line_number@ == "\x1b[32m"@ && self.colors.column@
                == "\x1b[32m"@ && self.colors.byte_offset@ == "\x1b[36m"@ && self.colors.hash@
                == "\x1b[33m"@ && self.colors.separator@ == "\x1b[36m"@
            &&& !colored ==> self.colors.none()
        }
        &&& forall|field: Field| #[trigger]
            holds_field(self.fields, field) <==> args.fields@.contains(field)
        &&& self.hash_width == match args.hash_width {
            Some(width) => width,
            None => DEFAULT_HASH_WIDTH,
        }
        &&& self.show == show
        &&& self.inputs == inputs
        &&& self.max_line_length == args.max_line_length
        &&& self.terminator == if args.null {
            0u8
        } else {
            0x0Au8
        }
    }
}

/// Lines of context requested on each side of a match.
#[derive(Clone, Copy, Debug, PartialEq, Eq, Structural)]
pub struct Context {
    pub before: usize,
    pub after: usize,
}

impl Context {
    /// No surrounding lines.
    pub fn none() -> (context: Self)
        ensures
            context == (Context { before: 0, after: 0 }),
    {
        Context { before: 0, after: 0 }
    }

    /// The lines a run asks for: one number for both sides, or one for each.
    pub open spec fn asked(args: Args) -> Context {
        match args.context {
            Some(lines) => Context { before: lines, after: lines },
            None => Context { before: args.before_context, after: args.after_context },
        }
    }

    /// The lines a run asks for: one number for both sides, or one for each.
    pub fn of(args: &Args) -> (context: Self)
        ensures
            context == Context::asked(*args),
    {
        match args.context {
            Some(lines) => Context { before: lines, after: lines },
            None => Context { before: args.before_context, after: args.after_context },
        }
    }
}

/// What the per-line loop must remember between lines, decided once from the flags.
#[derive(Clone, Copy, Debug)]
pub enum Reporting {
    /// Two counters. Serves quiet runs and the three record kinds that name no line.
    Tally { stop_at_first: bool },
    /// Counters plus a heading bit. Serves every format without context lines.
    Print(OutputConfig),
    /// Counters, heading, a look-behind ring and group separators. Serves the context flags.
    PrintContext(OutputConfig, Context),
}

/// Where a file's hash is printed, which is what decides whether it is computed at all.
#[derive(Clone, Copy, Debug, PartialEq, Eq, Structural)]
pub enum HashPlacement {
    Absent,
    /// Beside the path in a heading, over the bytes the heading names.
    Heading,
    /// On the JSON record that closes the file, once every window is read.
    ClosingRecord,
}

impl Reporting {
    /// The emitter this reporting prints through, absent for the tally.
    pub open spec fn emits(self) -> Option<OutputConfig> {
        match self {
            Reporting::Tally { .. } => None,
            Reporting::Print(config) => Some(config),
            Reporting::PrintContext(config, _) => Some(config),
        }
    }

    /// Where this run prints a file's hash.
    pub open spec fn places_hash(self) -> HashPlacement {
        match self.emits() {
            Some(config) => if holds_field(config.fields, Field::FileHash) {
                match config.output_format {
                    OutputFormat::Heading => HashPlacement::Heading,
                    OutputFormat::Json => HashPlacement::ClosingRecord,
                    _ => HashPlacement::Absent,
                }
            } else {
                HashPlacement::Absent
            },
            None => HashPlacement::Absent,
        }
    }

    /// The surrounding lines this reporting prints.
    pub open spec fn surrounds(self) -> Context {
        match self {
            Reporting::PrintContext(_, context) => context,
            _ => Context { before: 0, after: 0 },
        }
    }

    /// Pick the reporting: existence only, plain printing, or printing with context.
    pub fn pick(
        args: &Args,
        show: Show,
        context: Context,
        inputs: Inputs,
        is_terminal: bool,
    ) -> (reporting: Self)
        ensures
            match reporting {
                // Counting must see every line. Existence answers need only one hit, except under
                // a summary, whose totals would otherwise describe a prefix of the file.
                Reporting::Tally { stop_at_first } => (args.quiet || show == Show::Count || show
                    == Show::Files || show == Show::FilesWithout) && stop_at_first == (
                !args.summary && (args.quiet || show != Show::Count)),
                Reporting::Print(config) => !args.quiet && (show == Show::Lines || show
                    == Show::Matches) && context == (Context { before: 0, after: 0 })
                    && config.resolves(*args, show, inputs, is_terminal),
                Reporting::PrintContext(config, lines) => !args.quiet && (show == Show::Lines
                    || show == Show::Matches) && context != (Context { before: 0, after: 0 })
                    && lines == context && config.resolves(*args, show, inputs, is_terminal),
            },
    {
        if args.quiet {
            return Reporting::Tally { stop_at_first: !args.summary };
        }
        match show {
            Show::Count => Reporting::Tally { stop_at_first: false },
            Show::Files | Show::FilesWithout => Reporting::Tally { stop_at_first: !args.summary },
            Show::Lines | Show::Matches => {
                let config = OutputConfig::new(args, show, inputs, is_terminal);
                if context.before == 0 && context.after == 0 {
                    Reporting::Print(config)
                } else {
                    Reporting::PrintContext(config, context)
                }
            },
        }
    }

    /// The emitter this reporting prints through, absent for the tally.
    pub fn config(&self) -> (config: Option<&OutputConfig>)
        ensures
            match config {
                Some(config) => self.emits() == Some(*config),
                None => self.emits() is None,
            },
    {
        match self {
            Reporting::Tally { .. } => None,
            Reporting::Print(config) => Some(config),
            Reporting::PrintContext(config, _) => Some(config),
        }
    }

    /// Where this run prints a file's hash, which is what decides whether it is computed at all: a
    /// file that matched nothing never pays for a token nothing names.
    pub fn hash_placement(&self) -> (placement: HashPlacement)
        ensures
            placement == self.places_hash(),
    {
        match self.config() {
            Some(config) => if config.carries(Field::FileHash) {
                match config.output_format {
                    OutputFormat::Heading => HashPlacement::Heading,
                    OutputFormat::Json => HashPlacement::ClosingRecord,
                    OutputFormat::Standard | OutputFormat::Vimgrep => HashPlacement::Absent,
                }
            } else {
                HashPlacement::Absent
            },
            None => HashPlacement::Absent,
        }
    }

    /// The surrounding lines this reporting prints, none for the two that print none.
    pub fn context(&self) -> (context: Context)
        ensures
            context == self.surrounds(),
    {
        match self {
            Reporting::PrintContext(_, context) => *context,
            _ => Context::none(),
        }
    }
}

/// A search goes ahead where it has a pattern and where nothing it is asked for would come to nothing:
/// a quiet one is not told what to print, a record for a whole file is not asked for a line's columns,
/// and no format is asked for what it carries already or has no place for.
pub proof fn only_options_that_fit_are_run(args: Args)
    ensures
        refusal(args) is None <==> {
            let whole_files = args.show == Some(Show::Count) || args.show == Some(Show::Files)
                || args.show == Some(Show::FilesWithout);
            let context = args.context is Some || args.before_context > 0 || args.after_context
                > 0;
            &&& args.pattern@.len() > 0
            &&& args.quiet ==> args.show is None && args.format == Format::Text && !args.null
                && args.fields@.len() == 0 && !args.heading && args.color == ColorChoice::Auto
                && args.max_line_length is None && !context
            &&& args.quiet && args.max_matches is Some ==> args.summary
            &&& args.context is Some ==> args.before_context == 0 && args.after_context == 0
            &&& args.multiline ==> !args.invert_match && !args.fields@.contains(
                Field::ColumnNumbers,
            )
            &&& args.invert_match ==> args.show != Some(Show::Matches)
            &&& whole_files ==> args.fields@.len() == 0 && !args.heading
                && args.max_line_length is None && !context
            &&& args.hash_width is Some ==> args.fields@.contains(Field::LineHashes)
            &&& args.fields@.contains(Field::FileHash) ==> args.format == Format::Json
                || args.heading
            &&& args.format == Format::Json ==> !args.null && !args.heading && args.color
                == ColorChoice::Auto && args.max_line_length is None && !args.fields@.contains(
                Field::LineNumbers,
            ) && !args.fields@.contains(Field::ColumnNumbers) && !args.fields@.contains(
                Field::ByteOffset,
            )
            &&& args.format == Format::Vimgrep ==> !args.heading && args.fields@.len() == 0
                && args.color == ColorChoice::Auto
        },
{
    lemma_carried(args.fields@, 0);
}

proof fn lemma_carried(fields: Seq<Field>, from: int)
    requires
        0 <= from <= fields.len(),
    ensures
        first_carried(fields, from) is Some <==> exists|i: int|
            from <= i < fields.len() && (#[trigger] fields[i] == Field::LineNumbers || fields[i]
                == Field::ColumnNumbers || fields[i] == Field::ByteOffset),
    decreases fields.len() - from,
{
    if from < fields.len() {
        lemma_carried(fields, from + 1);
    }
}

/// Lines are asked for on both sides of a match at once, or on each side by itself.
pub proof fn context_is_asked_for_by_side(args: Args)
    ensures
        args.context matches Some(lines) ==> Context::asked(args).before == lines
            && Context::asked(args).after == lines,
        args.context is None ==> Context::asked(args).before == args.before_context
            && Context::asked(args).after == args.after_context,
{
}

/// A choice of colors is named in either case, and no text names two of them.
pub proof fn a_color_choice_is_named_in_either_case(text: Seq<char>)
    ensures
        named_choice(uppercase(text)) == named_choice(text),
        named_choice("auto"@) == Some(ColorChoice::Auto),
        named_choice("always"@) == Some(ColorChoice::Always),
        named_choice("yes"@) == Some(ColorChoice::Always),
        named_choice("never"@) == Some(ColorChoice::Never),
        named_choice("no"@) == Some(ColorChoice::Never),
        text.len() == 0 ==> named_choice(text) is None,
{
    assert(uppercase(uppercase(text)) =~= uppercase(text));
    reveal_strlit("auto");
    reveal_strlit("always");
    reveal_strlit("yes");
    reveal_strlit("never");
    reveal_strlit("no");
    reveal_strlit("AUTO");
    reveal_strlit("ALWAYS");
    reveal_strlit("YES");
    reveal_strlit("NEVER");
    reveal_strlit("NO");
    assert(uppercase("auto"@) =~= "AUTO"@);
    assert(uppercase("always"@) =~= "ALWAYS"@);
    assert(uppercase("yes"@) =~= "YES"@);
    assert(uppercase("never"@) =~= "NEVER"@);
    assert(uppercase("no"@) =~= "NO"@);
    assert(uppercase(text).len() == text.len());
    assert("YES"@[0] == 'Y' && "NO"@[0] == 'N');
}

/// Without colors asked for, a terminal gets them and nothing else does, and JSON never; a name is
/// printed in eight characters unless another width is given, and a record ends in a line feed unless
/// a NUL is asked for.
pub proof fn what_is_not_asked_for_is_chosen(
    config: OutputConfig,
    args: Args,
    show: Show,
    inputs: Inputs,
    is_terminal: bool,
)
    requires
        config.resolves(args, show, inputs, is_terminal),
    ensures
        args.color == ColorChoice::Auto && (!is_terminal || args.format == Format::Json)
            ==> config.colors.none(),
        args.color == ColorChoice::Auto && is_terminal && args.format != Format::Json
            ==> config.match_coded(),
        args.color == ColorChoice::Never ==> config.colors.none(),
        args.color == ColorChoice::Always ==> config.match_coded(),
        args.hash_width is None ==> config.hash_width == 8,
        args.hash_width matches Some(width) ==> config.hash_width == width,
        config.terminator == if args.null {
            0u8
        } else {
            '\n' as u8
        },
        args.format == Format::Text ==> (config.output_format == OutputFormat::Heading
            <==> args.heading),
{
}

} // verus!
