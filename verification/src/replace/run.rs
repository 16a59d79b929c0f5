//! One replacing run: what its arguments must satisfy, what it produces, and what it reports.

use vstd::prelude::*;
use vstd::string::StringExecFns;
use vstd::utf8::encode_utf8;

use crate::bytes::{bool_text, decimal, lit, put_bool, put_decimal, put_str};
use crate::destination::Destination;
use crate::hashing::{
    a_full_name_reads_back, content_hash, hash_name, name_mask, name_refusal, name_value,
    parse_content_hash, parse_hash_prefix, token_refusal, HashPrefix, HashingWriter,
};
use crate::json::{hex_digit, json_text_field_to, lower_hex, text_field};
use crate::lines::Newlines;
use crate::replace::named::{
    apply_splices, in_order, many_named_note, patched, patches, resolve_lines, resolved,
    unnamed_note, Occurrences, Placement, Splice,
};
use crate::replace::substring::{at_most, count_matches, match_count, replace_to, replaced};
use crate::status::{status_of, Failure, Status};
use crate::sz::hash_of;
use crate::text::{lemma_text_bytes, same_text};

verus! {

/// How records are rendered.
#[derive(Clone, Copy, PartialEq, Eq, Structural, Debug)]
pub enum Format {
    Text,
    Json,
}

/// How the pattern is interpreted.
#[derive(Clone, Copy, PartialEq, Eq, Structural, Debug)]
pub enum Match {
    /// A literal substring, matched anywhere.
    Substring,
    /// A line name.
    LineHash,
}

/// What a run is asked to do.
pub struct Args {
    /// Substring to search for, or the name of a line.
    pub pattern: String,
    /// Replacement string.
    pub replacement: String,
    /// Input file; `-` or nothing is the standard input.
    pub input: Option<String>,
    /// Write to this file instead of the standard output.
    pub output: Option<String>,
    /// Rewrite the input file.
    pub in_place: bool,
    /// Report what would be replaced without writing anything.
    pub dry_run: bool,
    /// Refuse the edit unless the input still hashes to this.
    pub expect_hash: Option<u64>,
    pub match_kind: Match,
    /// Insert the replacement after the matched line rather than over it.
    pub after: bool,
    /// Insert the replacement before the matched line rather than over it.
    pub before: bool,
    /// Split lines on the Unicode newline set rather than LF alone.
    pub utf8: bool,
    pub occurrences: Occurrences,
    /// Fold case when searching.
    pub ignore_case: bool,
    pub format: Format,
    /// Print one line about the whole run.
    pub summary: bool,
    /// Suppress all output.
    pub quiet: bool,
}

/// Whether two of the options given exclude each other.
pub open spec fn excluded(args: Args) -> bool {
    ||| args.output is Some && (args.in_place || args.dry_run || args.quiet)
    ||| args.in_place && (args.dry_run || args.quiet)
    ||| args.dry_run && (args.quiet || args.summary)
    ||| args.after && args.before
    ||| args.quiet && args.summary
}

/// Whether the transformed bytes leave the standard output free.
pub open spec fn diverted(args: Args) -> bool {
    args.in_place || args.dry_run || (args.output matches Some(path) && path@ != "-"@)
}

/// What a run whose arguments do not fit together is answered.
pub open spec fn refusal(args: Args) -> Option<Seq<char>> {
    if excluded(args) {
        Some("these options cannot be used together"@)
    } else if args.pattern@.len() == 0 {
        Some("pattern cannot be empty"@)
    } else if args.match_kind == Match::LineHash && args.ignore_case {
        // A name is read in either case already, and there is no substring to fold.
        Some("--match line-hash cannot be combined with --ignore-case"@)
    } else if args.match_kind == Match::LineHash && (args.after || args.before)
        && args.replacement@.len() == 0 {
        Some(
            "--after and --before insert a line, so the replacement cannot be empty; an empty replacement deletes the line it names instead"@,
        )
    } else if args.match_kind == Match::LineHash && name_refusal(args.pattern@) is Some {
        name_refusal(args.pattern@)
    } else if args.match_kind == Match::Substring && (args.after || args.before) {
        Some("--after and --before place a line, so they need --match line-hash"@)
    } else if args.match_kind == Match::Substring && args.utf8 {
        Some("--utf8 chooses how lines are split, so it needs --match line-hash"@)
    } else if args.format == Format::Json && args.quiet {
        Some("--format json cannot be combined with --quiet"@)
    } else if args.format == Format::Json && !diverted(args) {
        // The summary record must never share the standard output with the transformed bytes.
        Some("--format json requires --output, --in-place or --dry-run"@)
    } else if args.in_place && (args.input is None || args.input->0@ == "-"@) {
        Some("--in-place requires a file argument (cannot rewrite stdin)"@)
    } else {
        None
    }
}

/// Check every constraint that spans arguments or depends on their values.
pub fn validate(args: &Args) -> (checked: Result<(), String>)
    ensures
        match checked {
            Ok(_) => refusal(*args) is None,
            Err(message) => refusal(*args) == Some(message@),
        },
{
    if (args.output.is_some() && (args.in_place || args.dry_run || args.quiet)) || (args.in_place
        && (args.dry_run || args.quiet)) || (args.dry_run && (args.quiet || args.summary)) || (
    args.after && args.before) || (args.quiet && args.summary) {
        return Err(String::from_str("these options cannot be used together"));
    }
    if args.pattern.as_str().is_empty() {
        return Err(String::from_str("pattern cannot be empty"));
    }
    if args.match_kind == Match::LineHash {
        if args.ignore_case {
            return Err(
                String::from_str("--match line-hash cannot be combined with --ignore-case"),
            );
        }
        // An insertion with nothing to insert is inert by construction, except on a file's last
        // unterminated line, where it would quietly add a terminator nobody asked for.
        if (args.after || args.before) && args.replacement.as_str().is_empty() {
            return Err(
                String::from_str(
                    "--after and --before insert a line, so the replacement cannot be empty; an empty replacement deletes the line it names instead",
                ),
            );
        }
        if let Err(message) = parse_hash_prefix(args.pattern.as_str()) {
            return Err(message);
        }
    } else if args.after || args.before {
        return Err(
            String::from_str("--after and --before place a line, so they need --match line-hash"),
        );
    } else if args.utf8 {
        return Err(
            String::from_str("--utf8 chooses how lines are split, so it needs --match line-hash"),
        );
    }
    if args.format == Format::Json {
        if args.quiet {
            return Err(String::from_str("--format json cannot be combined with --quiet"));
        }
        let elsewhere = match &args.output {
            Some(path) => !same_text(path.as_str(), "-"),
            None => false,
        };
        if !(args.in_place || args.dry_run || elsewhere) {
            return Err(
                String::from_str("--format json requires --output, --in-place or --dry-run"),
            );
        }
    }
    if args.in_place {
        let stdin = match &args.input {
            Some(path) => same_text(path.as_str(), "-"),
            None => true,
        };
        if stdin {
            return Err(
                String::from_str("--in-place requires a file argument (cannot rewrite stdin)"),
            );
        }
    }
    Ok(())
}

/// Whether a run only counts: nothing it produces is kept.
pub open spec fn counting_only(args: Args) -> bool {
    args.dry_run || args.quiet
}

/// Where a run's transformed bytes land.
pub fn destination<'a>(args: &'a Args) -> (to: Destination<'a>)
    requires
        refusal(*args) is None,
    ensures
        match to {
            Destination::Discard => counting_only(*args),
            Destination::Replacing(path) => !counting_only(*args) && args.in_place && (
            args.input matches Some(input) && path@ == input@),
            Destination::Creating(path) => !counting_only(*args) && !args.in_place && (
            args.output matches Some(output) && path@ == output@ && output@ != "-"@),
            Destination::Stdout => !counting_only(*args) && !args.in_place && (
            args.output is None || args.output->0@ == "-"@),
        },
{
    if args.dry_run || args.quiet {
        return Destination::Discard;
    }
    if args.in_place {
        if let Some(path) = &args.input {
            return Destination::Replacing(path.as_str());
        }
    }
    match &args.output {
        Some(path) => if same_text(path.as_str(), "-") {
            Destination::Stdout
        } else {
            Destination::Creating(path.as_str())
        },
        None => Destination::Stdout,
    }
}

/// Sixteen to the power of `count`.
pub open spec fn sixteens(count: int) -> int
    decreases count,
{
    if count <= 0 {
        1
    } else {
        16 * sixteens(count - 1)
    }
}

/// The low `count` hexadecimal digits of `value`, most significant first.
pub open spec fn hex_digits(value: int, count: int) -> Seq<u8>
    decreases count,
{
    if count <= 0 {
        Seq::empty()
    } else {
        hex_digits(value / 16, count - 1).push(hex_digit(value % 16))
    }
}

/// A hash as sixteen hexadecimal digits.
pub open spec fn hex_hash(value: u64) -> Seq<u8> {
    hex_digits(value as int, 16)
}

fn put_hex_digits(out: &mut Vec<u8>, value: u64, count: u8)
    ensures
        final(out)@ == old(out)@ + hex_digits(value as int, count as int),
    decreases count,
{
    if count > 0 {
        put_hex_digits(out, value / 16, count - 1);
        out.push(lower_hex((value % 16) as u8));
    }
}

/// Append a hash as sixteen hexadecimal digits.
pub fn put_hex_hash(out: &mut Vec<u8>, value: u64)
    ensures
        final(out)@ == old(out)@ + hex_hash(value),
{
    put_hex_digits(out, value, 16);
}

/// The value of a hexadecimal digit in either case.
pub open spec fn hex_digit_value(byte: u8) -> Option<int> {
    if 0x30 <= byte <= 0x39 {
        Some(byte - 0x30)
    } else if 0x61 <= byte <= 0x66 {
        Some(byte - 0x57)
    } else if 0x41 <= byte <= 0x46 {
        Some(byte - 0x37)
    } else {
        None
    }
}

/// The number that these hexadecimal digits spell, where every one of them is one.
pub open spec fn hex_number(text: Seq<u8>) -> Option<int>
    decreases text.len(),
{
    if text.len() == 0 {
        Some(0)
    } else {
        match (hex_number(text.drop_last()), hex_digit_value(text.last())) {
            (Some(high), Some(low)) => Some(high * 16 + low),
            _ => None,
        }
    }
}

/// The hash that a token spells in sixteen hexadecimal digits, in either case.
pub open spec fn token_value(value: Seq<char>) -> Option<int> {
    let text = encode_utf8(value);
    if text.len() == 16 {
        hex_number(text)
    } else {
        None
    }
}

/// The hash a token spells: sixteen hexadecimal digits, as a summary prints it, or the full-width
/// name that a search prints for a file, and nothing shorter than either.
pub open spec fn expected_hash(value: Seq<char>) -> Option<int> {
    if token_value(value) is Some {
        token_value(value)
    } else if token_refusal(value) is None {
        Some(name_value(encode_utf8(value)))
    } else {
        None
    }
}

/// What a token that spells no hash is answered.
pub open spec fn token_message(value: Seq<char>) -> Seq<char> {
    "`"@ + value
        + "` is not a content hash, which is 16 hexadecimal digits, as --summary prints it, or 13 characters, as `sz-find --fields file-hash` prints it"@
}

proof fn lemma_hex_bound(text: Seq<u8>)
    ensures
        hex_number(text) matches Some(number) ==> 0 <= number < sixteens(text.len() as int),
    decreases text.len(),
{
    if text.len() > 0 {
        lemma_hex_bound(text.drop_last());
    }
}

proof fn lemma_sixteens(count: int)
    requires
        0 <= count <= 16,
    ensures
        1 <= sixteens(count) <= 0x1_0000_0000_0000_0000,
        count <= 15 ==> sixteens(count) <= 0x1000_0000_0000_0000,
{
    reveal_with_fuel(sixteens, 17);
}

/// Parse the token a run expects its input to hash to. A truncated paste is refused rather than
/// zero-extended: it would stand in for some other file.
pub fn parse_expected_hash(value: &str) -> (parsed: Result<u64, String>)
    ensures
        match parsed {
            Ok(hash) => expected_hash(value@) == Some(hash as int),
            Err(message) => expected_hash(value@) is None && message@ == token_message(value@),
        },
{
    let text: &[u8] = value.as_bytes();
    let mut number: u64 = 0;
    let mut index: usize = 0;
    let mut valid = text.len() == 16;
    assert(text@.take(0) =~= Seq::empty());
    while valid && index < 16
        invariant
            index <= 16,
            valid ==> text@.len() == 16,
            valid ==> hex_number(text@.take(index as int)) == Some(number as int),
            !valid ==> token_value(value@) is None,
            text@ == encode_utf8(value@),
        decreases 16 - index,
    {
        let byte: u8 = text[index];
        let ghost next = text@.take(index + 1);
        proof {
            assert(next.drop_last() =~= text@.take(index as int));
            assert(next.last() == byte);
            lemma_hex_bound(text@.take(index as int));
            lemma_sixteens(index as int);
        }
        let digit: Option<u64> = if 0x30 <= byte && byte <= 0x39 {
            Some((byte - 0x30) as u64)
        } else if 0x61 <= byte && byte <= 0x66 {
            Some((byte - 0x57) as u64)
        } else if 0x41 <= byte && byte <= 0x46 {
            Some((byte - 0x37) as u64)
        } else {
            None
        };
        match digit {
            Some(digit) => {
                number = number * 16 + digit;
            },
            None => {
                proof {
                    lemma_no_hex(text@, index as int);
                }
                valid = false;
            },
        }
        index += 1;
    }
    if valid {
        assert(text@.take(16) =~= text@);
        return Ok(number);
    }
    match parse_content_hash(value) {
        Ok(hash) => Ok(hash),
        Err(_) => {
            let mut message = String::from_str("`");
            message.append(value);
            message.append(
                "` is not a content hash, which is 16 hexadecimal digits, as --summary prints it, or 13 characters, as `sz-find --fields file-hash` prints it",
            );
            Err(message)
        },
    }
}

proof fn lemma_no_hex(text: Seq<u8>, at: int)
    requires
        0 <= at < text.len(),
        hex_digit_value(text[at]) is None,
    ensures
        hex_number(text) is None,
    decreases text.len(),
{
    if at < text.len() - 1 {
        assert(text.drop_last()[at] == text[at]);
        lemma_no_hex(text.drop_last(), at);
    }
}

/// The token a run reports is the token the next run expects: a hash rendered in a summary reads
/// back as itself.
pub proof fn a_reported_hash_reads_back(hash: u64, text: Seq<char>)
    requires
        encode_utf8(text) == hex_hash(hash),
    ensures
        expected_hash(text) == Some(hash as int),
{
    lemma_hex_digits(hash as int, 16);
    reveal_with_fuel(sixteens, 17);
    assert(sixteens(16) == 0x1_0000_0000_0000_0000);
    vstd::arithmetic::div_mod::lemma_small_mod(hash as nat, 0x1_0000_0000_0000_0000);
}

/// The name a search prints for a file is a token that a run expects: the full-width name of any
/// hash reads back as that hash.
pub proof fn a_printed_name_reads_back(hash: u64)
    ensures
        expected_hash(hash_name(hash, 13)) == Some(hash as int),
{
    a_full_name_reads_back(hash);
}

proof fn lemma_hex_digits(value: int, count: int)
    requires
        0 <= value,
        0 <= count,
    ensures
        hex_digits(value, count).len() == count,
        hex_number(hex_digits(value, count)) == Some(value % sixteens(count)),
    decreases count,
{
    if count > 0 {
        lemma_hex_digits(value / 16, count - 1);
        let text = hex_digits(value, count);
        assert(text.drop_last() =~= hex_digits(value / 16, count - 1));
        let unit = sixteens(count - 1);
        lemma_sixteens_positive(count - 1);
        vstd::arithmetic::div_mod::lemma_breakdown(value, 16, unit);
    } else {
        assert(value % 1 == 0);
    }
}

proof fn lemma_sixteens_positive(count: int)
    ensures
        sixteens(count) >= 1,
    decreases count,
{
    if count > 0 {
        lemma_sixteens_positive(count - 1);
    }
}

/// The summary of a finished run.
pub struct Summary<'a> {
    pub path: &'a str,
    pub replacements: usize,
    pub dry_run: bool,
    /// What the input hashed to, and what the output did. Both are present exactly when the run
    /// was asked to report them.
    pub hashes: Option<(u64, u64)>,
}

/// The summary as one JSON record.
pub open spec fn summary_record(
    path: Seq<char>,
    replacements: nat,
    dry_run: bool,
    hashes: Option<(u64, u64)>,
) -> Seq<u8> {
    lit("{\"type\":\"summary\",\"data\":{\"path\":") + text_field(encode_utf8(path)) + lit(
        ",\"replacements\":",
    ) + decimal(replacements) + lit(",\"dry_run\":") + bool_text(dry_run) + (match hashes {
        Some((before, after)) => lit(",\"hash_before\":\"") + hex_hash(before) + lit(
            "\",\"hash_after\":\"",
        ) + hex_hash(after) + lit("\""),
        None => Seq::empty(),
    }) + lit("}}\n")
}

/// Append the summary as one JSON record. The transformed bytes never share the standard output
/// with it.
pub fn write_summary_json(output: &mut Vec<u8>, summary: &Summary<'_>)
    ensures
        final(output)@ == old(output)@ + summary_record(
            summary.path@,
            summary.replacements as nat,
            summary.dry_run,
            summary.hashes,
        ),
{
    broadcast use crate::bytes::group_append;

    put_str(output, "{\"type\":\"summary\",\"data\":{\"path\":");
    json_text_field_to(output, summary.path.as_bytes());
    put_str(output, ",\"replacements\":");
    put_decimal(output, summary.replacements as u64);
    put_str(output, ",\"dry_run\":");
    put_bool(output, summary.dry_run);
    match summary.hashes {
        Some((before, after)) => {
            put_str(output, ",\"hash_before\":\"");
            put_hex_hash(output, before);
            put_str(output, "\",\"hash_after\":\"");
            put_hex_hash(output, after);
            put_str(output, "\"");
        },
        None => {},
    }
    put_str(output, "}}\n");
}

/// The summary as one line of text.
pub open spec fn summary_line(
    replacements: nat,
    dry_run: bool,
    hashes: Option<(u64, u64)>,
) -> Seq<u8> {
    (if dry_run {
        lit("Would replace ")
    } else {
        lit("Replaced ")
    }) + decimal(replacements) + lit(" occurrence(s)") + (match hashes {
        Some((before, after)) => (if dry_run {
            lit("; content would be ")
        } else {
            lit("; content is ")
        }) + hex_hash(after),
        None => Seq::empty(),
    }) + lit("\n")
}

/// Append the one-line text summary, behind whatever `output` already holds.
pub fn write_summary_text(output: &mut Vec<u8>, summary: &Summary<'_>)
    ensures
        final(output)@ == old(output)@ + summary_line(
            summary.replacements as nat,
            summary.dry_run,
            summary.hashes,
        ),
{
    broadcast use crate::bytes::group_append;

    if summary.dry_run {
        put_str(output, "Would replace ");
    } else {
        put_str(output, "Replaced ");
    }
    put_decimal(output, summary.replacements as u64);
    put_str(output, " occurrence(s)");
    match summary.hashes {
        Some((before, after)) => {
            if summary.dry_run {
                put_str(output, "; content would be ");
            } else {
                put_str(output, "; content is ");
            }
            put_hex_hash(output, after);
        },
        None => {},
    }
    put_str(output, "\n");
}

/// How many matches the substring mode acts on, or how many there are where the mode asserts
/// exactly one and there are others.
pub open spec fn limit_of(args: Args, data: Seq<u8>) -> Result<nat, nat> {
    match args.occurrences {
        Occurrences::All => Ok(usize::MAX as nat),
        Occurrences::First => Ok(1),
        Occurrences::One => {
            let count = match_count(data, encode_utf8(args.pattern@), args.ignore_case);
            if count == 1 {
                Ok(1)
            } else {
                Err(count)
            }
        },
    }
}

/// The note a pattern that has to match once and matches nothing is answered with.
pub open spec fn unmatched_note() -> Seq<char> {
    "matches nothing, and --occurrences one asserts exactly one"@
}

/// The note a pattern that has to match once and matches several times is answered with.
pub open spec fn many_matched_note() -> Seq<char> {
    "extend the pattern until it is unique, or pass --occurrences all or first"@
}

/// How many matches the substring mode acts on, refusing where the mode asserts exactly one and
/// the input holds none or several.
pub fn substring_limit(args: &Args, data: &[u8], path: &str) -> (limit: Result<usize, Failure>)
    requires
        args.pattern@.len() > 0,
    ensures
        match (limit_of(*args, data@), limit) {
            (Ok(expected), Ok(limit)) => limit == expected,
            (Err(count), Err(failure)) => if count == 0 {
                failure matches Failure::Unresolved { path: at, subject, note } && at@ == path@
                    && subject@ == args.pattern@ && note@ == unmatched_note()
            } else {
                failure matches Failure::Ambiguous { path: at, subject, matches, note } && at@
                    == path@ && subject@ == args.pattern@ && matches == count && note@
                    == many_matched_note()
            },
            _ => false,
        },
{
    match args.occurrences {
        Occurrences::All => Ok(usize::MAX),
        Occurrences::First => Ok(1),
        // Exactly one, in both directions: refusing only the ambiguous side would let the
        // assertion pass on a pattern that matches nothing.
        Occurrences::One => {
            proof {
                lemma_text_bytes(args.pattern@);
            }
            let count: usize = count_matches(
                data,
                args.pattern.as_str().as_bytes(),
                args.ignore_case,
            );
            if count == 1 {
                Ok(1)
            } else if count == 0 {
                Err(
                    Failure::Unresolved {
                        path: String::from_str(path),
                        subject: args.pattern.clone(),
                        note: "matches nothing, and --occurrences one asserts exactly one",
                    },
                )
            } else {
                Err(
                    Failure::Ambiguous {
                        path: String::from_str(path),
                        subject: args.pattern.clone(),
                        matches: count,
                        note:
                            "extend the pattern until it is unique, or pass --occurrences all or first",
                    },
                )
            }
        },
    }
}

/// What a run writes, however its target was addressed.
pub enum Edit<'a> {
    /// Every match of a literal pattern, up to the limit.
    Substring { pattern: &'a [u8], replacement: &'a [u8], ignore_case: bool, limit: usize },
    /// Named lines, already resolved.
    Lines(Vec<Splice>),
}

/// Everything the replacement needs that does not depend on where it is written.
pub struct Substitution<'a> {
    pub data: &'a [u8],
    pub edit: Edit<'a>,
    /// Whether the produced bytes are hashed on their way out. A run that reports no hash pays
    /// for none.
    pub hashed: bool,
}

/// What a finished run produced: how many replacements it made, how many bytes it read, and the
/// hash of what it wrote when one was asked for.
pub struct Produced {
    pub replacements: usize,
    pub bytes: usize,
    pub hash: Option<u64>,
}

impl<'a> Substitution<'a> {
    pub open spec fn wf(&self) -> bool {
        match self.edit {
            Edit::Substring { pattern, replacement, ignore_case, limit } => pattern@.len() > 0,
            Edit::Lines(splices) => in_order(patches(splices@), 0, self.data@.len() as int),
        }
    }

    /// What the substitution writes.
    pub open spec fn content(&self) -> Seq<u8> {
        match self.edit {
            Edit::Substring { pattern, replacement, ignore_case, limit } => replaced(
                self.data@,
                pattern@,
                replacement@,
                ignore_case,
                limit as nat,
            ),
            Edit::Lines(splices) => patched(self.data@, patches(splices@), 0),
        }
    }

    /// How many replacements it makes.
    pub open spec fn count(&self) -> nat {
        match self.edit {
            Edit::Substring { pattern, replacement, ignore_case, limit } => at_most(
                match_count(self.data@, pattern@, ignore_case),
                limit as nat,
            ),
            Edit::Lines(splices) => splices@.len(),
        }
    }

    /// Append what the substitution writes to `out`, and count.
    pub fn emit(&self, out: &mut Vec<u8>) -> (counted: (usize, usize))
        requires
            self.wf(),
        ensures
            final(out)@ == old(out)@ + self.content(),
            counted.0 == self.count(),
            counted.1 == self.data@.len(),
    {
        match &self.edit {
            Edit::Substring { pattern, replacement, ignore_case, limit } => {
                let count: usize = replace_to(
                    self.data,
                    pattern,
                    replacement,
                    *ignore_case,
                    *limit,
                    out,
                );
                (count, self.data.len())
            },
            Edit::Lines(splices) => {
                apply_splices(self.data, splices.as_slice(), out);
                (splices.len(), self.data.len())
            },
        }
    }

    /// Append what the substitution writes to `out`, hashing it on the way when asked — the hash
    /// of what was written is the token the next edit expects.
    pub fn write_to(&self, out: &mut Vec<u8>) -> (produced: Produced)
        requires
            self.wf(),
        ensures
            final(out)@ == old(out)@ + self.content(),
            produced.replacements == self.count(),
            produced.bytes == self.data@.len(),
            produced.hash == if self.hashed {
                Some(hash_of(self.content()))
            } else {
                None
            },
    {
        let start: usize = out.len();
        let (replacements, bytes) = self.emit(out);
        if !self.hashed {
            return Produced { replacements, bytes, hash: None };
        }
        let mut hashing = HashingWriter::new();
        let written: &[u8] = out.as_slice();
        hashing.write_all(&written[start..written.len()]);
        assert(hashing.written() =~= self.content());
        Produced { replacements, bytes, hash: Some(hashing.digest()) }
    }
}

/// The name a run's input goes by.
pub open spec fn input_name(args: Args) -> Seq<char> {
    match args.input {
        Some(path) => path@,
        None => "-"@,
    }
}

/// Whether a run reports the hashes of what it read and wrote.
pub open spec fn reports_hashes(args: Args) -> bool {
    args.summary || args.dry_run || args.format == Format::Json
}

/// Where a run places the replacement.
pub open spec fn placement_of(args: Args) -> Placement {
    if args.after {
        Placement::After
    } else if args.before {
        Placement::Before
    } else {
        Placement::Over
    }
}

/// Which newline set splits a run's lines.
pub open spec fn newlines_of(args: Args) -> Newlines {
    if args.utf8 {
        Newlines::Unicode
    } else {
        Newlines::Lf
    }
}

/// What an edit writes and how many replacements it makes.
pub ghost struct Edited {
    pub content: Seq<u8>,
    pub replacements: nat,
}

/// What a run's pattern pins where it is a line name.
pub open spec fn pinned(args: Args) -> HashPrefix {
    let name = encode_utf8(args.pattern@);
    HashPrefix { value: name_value(name) as u64, mask: name_mask(name.len() as int) }
}

/// What a run makes of its input, or how many things its pattern picked out where it had to be
/// one.
pub open spec fn edited(args: Args, data: Seq<u8>) -> Result<Edited, nat> {
    let replacement = encode_utf8(args.replacement@);
    match args.match_kind {
        Match::LineHash => match resolved(
            data,
            newlines_of(args),
            pinned(args),
            placement_of(args),
            args.occurrences,
            replacement,
        ) {
            Ok(all) => Ok(Edited { content: patched(data, all, 0), replacements: all.len() }),
            Err(count) => Err(count),
        },
        Match::Substring => {
            let pattern = encode_utf8(args.pattern@);
            match limit_of(args, data) {
                Ok(limit) => Ok(
                    Edited {
                        content: replaced(data, pattern, replacement, args.ignore_case, limit),
                        replacements: at_most(
                            match_count(data, pattern, args.ignore_case),
                            limit,
                        ),
                    },
                ),
                Err(count) => Err(count),
            }
        },
    }
}

/// What a finished run says about itself.
pub open spec fn summary_of(args: Args, data: Seq<u8>, done: Edited) -> Seq<u8> {
    let hashes = if reports_hashes(args) {
        Some((hash_of(data), hash_of(done.content)))
    } else {
        None
    };
    if args.format == Format::Json {
        summary_record(input_name(args), done.replacements, args.dry_run, hashes)
    } else if args.summary || args.dry_run {
        summary_line(done.replacements, args.dry_run, hashes)
    } else {
        Seq::empty()
    }
}

/// How a finished run ends: the stream was produced whether or not it changed, while counting
/// alone reports matches.
pub open spec fn ending(args: Args, data: Seq<u8>, done: Edited) -> Status {
    status_of(
        false,
        if counting_only(args) {
            done.replacements > 0
        } else {
            data.len() > 0
        },
    )
}

/// Whether this is the failure of a pattern that had to pick out one thing and picked out `count`.
pub open spec fn refuses(args: Args, failure: Failure, count: nat) -> bool {
    let by_name = args.match_kind == Match::LineHash;
    if count == 0 {
        failure matches Failure::Unresolved { path, subject, note } && path@ == input_name(args)
            && subject@ == args.pattern@ && note@ == if by_name {
            unnamed_note()
        } else {
            unmatched_note()
        }
    } else {
        failure matches Failure::Ambiguous { path, subject, matches, note } && path@
            == input_name(args) && subject@ == args.pattern@ && matches == count && note@
            == if by_name {
            many_named_note()
        } else {
            many_matched_note()
        }
    }
}

/// What a run produced: the transformed bytes for its destination, what it says about itself, and
/// how it ends.
#[derive(Debug)]
pub struct Finished {
    pub content: Vec<u8>,
    pub notes: Vec<u8>,
    pub status: Status,
}

/// Carry out one run on the bytes it read. A refused edit is settled before anything is produced,
/// so there is nothing to retract.
pub fn run(args: &Args, data: &[u8]) -> (outcome: Result<Finished, Failure>)
    requires
        refusal(*args) is None,
    ensures
        ({
            let stale = args.expect_hash matches Some(expected) && expected != hash_of(data@);
            match outcome {
                Err(Failure::Stale { path, expected, actual }) => stale && path@ == input_name(
                    *args,
                ) && args.expect_hash == Some(expected) && actual == hash_of(data@),
                Err(failure) => !stale && (edited(*args, data@) matches Err(count) && refuses(
                    *args,
                    failure,
                    count,
                )),
                Ok(finished) => !stale && (edited(*args, data@) matches Ok(done)
                    && finished.content@ == done.content && finished.notes@ == summary_of(
                    *args,
                    data@,
                    done,
                ) && finished.status == ending(*args, data@, done)),
            }
        }),
{
    let name: &str = match &args.input {
        Some(path) => path.as_str(),
        None => "-",
    };
    let reports = args.summary || args.dry_run || args.format == Format::Json;
    // Only a run that compares or reports a hash pays for one.
    let mut hash_before: u64 = 0;
    if args.expect_hash.is_some() || reports {
        hash_before = content_hash(data);
    }
    if let Some(expected) = args.expect_hash {
        if hash_before != expected {
            return Err(
                Failure::Stale { path: String::from_str(name), expected, actual: hash_before },
            );
        }
    }
    let mut prefix = HashPrefix { value: 0, mask: 0 };
    if args.match_kind == Match::LineHash {
        if let Ok(parsed) = parse_hash_prefix(args.pattern.as_str()) {
            prefix = parsed;
        }
        assert(prefix == pinned(*args));
    }
    let ghost expected_edit = edited(*args, data@);
    let edit = match args.match_kind {
        Match::LineHash => {
            let newlines = Newlines::from_utf8(args.utf8);
            let placement = if args.after {
                Placement::After
            } else if args.before {
                Placement::Before
            } else {
                Placement::Over
            };
            match resolve_lines(
                data,
                newlines,
                prefix,
                placement,
                args.occurrences,
                args.replacement.as_str(),
                name,
                args.pattern.as_str(),
            ) {
                Ok(splices) => Edit::Lines(splices),
                Err(failure) => {
                    assert(expected_edit is Err);
                    return Err(failure);
                },
            }
        },
        Match::Substring => match substring_limit(args, data, name) {
            Ok(limit) => {
                proof {
                    lemma_text_bytes(args.pattern@);
                }
                Edit::Substring {
                    pattern: args.pattern.as_str().as_bytes(),
                    replacement: args.replacement.as_str().as_bytes(),
                    ignore_case: args.ignore_case,
                    limit,
                }
            },
            Err(failure) => {
                assert(expected_edit is Err);
                return Err(failure);
            },
        },
    };
    let substitution = Substitution { data, edit, hashed: reports };
    let mut content: Vec<u8> = Vec::new();
    let produced = substitution.write_to(&mut content);
    assert(content@ =~= substitution.content());
    let ghost done = Edited { content: content@, replacements: produced.replacements as nat };
    assert(expected_edit == Ok::<Edited, nat>(done));
    let summary = Summary {
        path: name,
        replacements: produced.replacements,
        dry_run: args.dry_run,
        hashes: match produced.hash {
            Some(after) => Some((hash_before, after)),
            None => None,
        },
    };
    let mut notes: Vec<u8> = Vec::new();
    if args.format == Format::Json {
        write_summary_json(&mut notes, &summary);
    } else if args.summary || args.dry_run {
        write_summary_text(&mut notes, &summary);
    }
    assert(notes@ =~= summary_of(*args, data@, done));
    let found = if args.dry_run || args.quiet {
        produced.replacements > 0
    } else {
        produced.bytes > 0
    };
    let status = Status::from_found(found);
    Ok(Finished { content, notes, status })
}

/// A run goes ahead where its result has one destination and the summary another, where it has
/// something to look for, where a name is one and is not asked to match a substring, and where only a
/// named file is rewritten.
pub proof fn only_options_that_fit_are_run(args: Args)
    ensures
        refusal(args) is None <==> {
            &&& args.pattern@.len() > 0
            &&& !(args.output is Some && args.in_place)
            &&& !(args.dry_run && (args.output is Some || args.in_place))
            &&& !(args.dry_run && args.summary)
            &&& args.quiet ==> !args.in_place && !args.dry_run && !args.summary
                && args.output is None && args.format != Format::Json
            &&& args.in_place ==> args.input is Some && args.input->0@ != "-"@
            &&& args.format == Format::Json ==> args.in_place || args.dry_run
                || args.output is Some && args.output->0@ != "-"@
            &&& !(args.after && args.before)
            &&& args.match_kind == Match::Substring ==> !args.after && !args.before && !args.utf8
            &&& args.match_kind == Match::LineHash ==> !args.ignore_case && name_refusal(
                args.pattern@,
            ) is None && (args.after || args.before ==> args.replacement@.len() > 0)
        },
{
}

/// A run that only counts found something where it would have replaced something; any other produced
/// its stream where there was one to produce, changed or not.
pub proof fn counting_reports_what_it_found(args: Args, data: Seq<u8>, done: Edited)
    ensures
        args.dry_run || args.quiet ==> (ending(args, data, done) == Status::Success
            <==> done.replacements > 0),
        !args.dry_run && !args.quiet ==> (ending(args, data, done) == Status::Success <==> data
            != Seq::<u8>::empty()),
        ending(args, data, done) != Status::Error,
{
    assert(data.len() == 0 ==> data =~= Seq::<u8>::empty());
}

/// A token spells a hash in sixteen hexadecimal digits or in the thirteen characters of a name, and in
/// nothing else.
pub proof fn a_token_of_another_length_spells_nothing(token: Seq<char>)
    ensures
        encode_utf8(token).len() != 16 && encode_utf8(token).len() != 13 ==> expected_hash(
            token,
        ) is None,
        encode_utf8(token).len() == 16 ==> (expected_hash(token) is Some <==> forall|i: int|
            0 <= i < 16 ==> {
                let digit = #[trigger] encode_utf8(token)[i];
                '0' as u8 <= digit <= '9' as u8 || 'a' as u8 <= digit <= 'f' as u8 || 'A' as u8
                    <= digit <= 'F' as u8
            }),
{
    lemma_hex_digits_all(encode_utf8(token));
}

proof fn lemma_hex_digits_all(text: Seq<u8>)
    ensures
        hex_number(text) is Some <==> forall|i: int|
            0 <= i < text.len() ==> {
                let digit = #[trigger] text[i];
                '0' as u8 <= digit <= '9' as u8 || 'a' as u8 <= digit <= 'f' as u8 || 'A' as u8
                    <= digit <= 'F' as u8
            },
    decreases text.len(),
{
    if text.len() > 0 {
        let front = text.drop_last();
        lemma_hex_digits_all(front);
        assert(forall|i: int| 0 <= i < front.len() ==> front[i] == text[i]);
        assert(text.last() == text[text.len() - 1]);
    }
}

} // verus!
