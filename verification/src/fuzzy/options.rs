//! What a fuzzy search is asked to do, and what its arguments resolve to.

use vstd::prelude::*;
use vstd::string::StringExecFns;

use crate::status::Failure;
use crate::text::same_text;

use super::effort::{spelled, Alphabet, Dictionary, Effort, Folding};
use super::folds::{sources, targets, Fold};
use super::keyboards::{layout_keys, Keyboard};
use super::script::Script;
use super::tables::{rows, texts};

verus! {

/// One column a record can carry.
#[derive(Clone, Copy, PartialEq, Eq, Structural, Debug)]
pub enum Field {
    /// The 1-based line number.
    LineNumbers,
    /// The score the line earned.
    Scores,
}

/// Which record kind to emit.
#[derive(Clone, Copy, PartialEq, Eq, Structural, Debug)]
pub enum Show {
    /// Every matching line.
    Lines,
    /// Only the matched parts of selected lines.
    Matches,
    /// One count per input.
    Count,
    /// The path of every input that matched.
    Files,
    /// The path of every input that did not match.
    FilesWithout,
}

impl Default for Show {
    fn default() -> (show: Self)
        ensures
            show == Show::Lines,
    {
        Show::Lines
    }
}

/// How records are rendered.
#[derive(Clone, Copy, PartialEq, Eq, Structural, Debug)]
pub enum Format {
    /// The matching line, with any requested fields ahead of it.
    Text,
    /// JSON Lines, one object per match.
    Json,
}

impl Default for Format {
    fn default() -> (format: Self)
        ensures
            format == Format::Text,
    {
        Format::Text
    }
}

/// Which characters an edit may substitute or insert.
#[derive(Clone, Copy, PartialEq, Eq, Structural, Debug)]
pub enum Cost {
    /// Any character of the layout, which is plain edit distance.
    Edit,
    /// Only physically adjacent keys, for fat-finger typos: `xolor` reaches `color`.
    Keyboard,
}

impl Cost {
    pub open spec fn draws(self) -> Alphabet {
        match self {
            Cost::Edit => Alphabet::Script,
            Cost::Keyboard => Alphabet::Keyboard,
        }
    }

    pub fn alphabet(self) -> (alphabet: Alphabet)
        ensures
            alphabet == self.draws(),
    {
        match self {
            Cost::Edit => Alphabet::Script,
            Cost::Keyboard => Alphabet::Keyboard,
        }
    }
}

/// Where the kernels run.
#[derive(Clone, Copy, PartialEq, Eq, Structural, Debug)]
pub enum Device {
    /// The GPU where one was built in, the CPU otherwise.
    Auto,
    /// Every core unless a thread count says otherwise.
    Cpu,
    /// One GPU.
    Gpu,
}

/// Whether a search tells letters of different case apart.
#[derive(Clone, Copy, PartialEq, Eq, Structural, Debug)]
pub enum CaseSensitivity {
    Cased,
    Uncased,
}

/// What a run is asked to do. What was not given is not there.
pub struct Args {
    /// Substring to search for, or the first input where the queries are given otherwise.
    pub pattern: Option<String>,
    /// Input files; `-` or nothing is the standard input.
    pub inputs: Vec<String>,
    /// Additional queries; a line matches if any query does.
    pub extra: Vec<String>,
    pub effort: Option<Effort>,
    pub max_distance: Option<usize>,
    pub cost: Option<Cost>,
    /// Keyboard layout the edits follow.
    pub layout: Option<String>,
    /// Transforms to fold corpus and query through first.
    pub fold: Vec<String>,
    pub dictionary: Option<Dictionary>,
    /// Keep only this many of the best lines per input.
    pub top_k: Option<usize>,
    pub device: Option<Device>,
    pub threads: Option<usize>,
    pub gpu_id: Option<usize>,
    pub ignore_case: Option<CaseSensitivity>,
    pub fields: Vec<Field>,
    pub utf8: bool,
    pub show: Option<Show>,
    pub summary: bool,
    pub format: Option<Format>,
    pub null: bool,
    pub quiet: bool,
}

/// Which spellings turn a case-insensitive search on.
pub open spec fn says_yes(text: Seq<char>) -> bool {
    text == "1"@ || text == "true"@ || text == "yes"@ || text == "on"@
}

/// Which spellings turn it off.
pub open spec fn says_no(text: Seq<char>) -> bool {
    text == "0"@ || text == "false"@ || text == "no"@ || text == "off"@
}

/// Read whether a search ignores case.
pub fn parse_case_sensitivity(text: &str) -> (parsed: Result<CaseSensitivity, String>)
    ensures
        match parsed {
            Ok(CaseSensitivity::Uncased) => says_yes(text@),
            Ok(CaseSensitivity::Cased) => !says_yes(text@) && says_no(text@),
            Err(message) => !says_yes(text@) && !says_no(text@) && message@ == "`"@ + text@
                + "` is not 0 or 1"@,
        },
{
    if same_text(text, "1") || same_text(text, "true") || same_text(text, "yes") || same_text(
        text,
        "on",
    ) {
        return Ok(CaseSensitivity::Uncased);
    }
    if same_text(text, "0") || same_text(text, "false") || same_text(text, "no") || same_text(
        text,
        "off",
    ) {
        return Ok(CaseSensitivity::Cased);
    }
    let mut message = String::from_str("`");
    message.append(text);
    message.append("` is not 0 or 1");
    Err(message)
}

/// Whether one of these fields is asked for.
pub fn holds_field(fields: &[Field], field: Field) -> (held: bool)
    ensures
        held == fields@.contains(field),
{
    let mut index: usize = 0;
    while index < fields.len()
        invariant
            index <= fields@.len(),
            forall|i: int| 0 <= i < index ==> fields@[i] != field,
        decreases fields@.len() - index,
    {
        if fields[index] == field {
            assert(fields@[index as int] == field);
            return true;
        }
        index += 1;
    }
    false
}

/// The device a run asks for.
pub open spec fn device_of(args: Args) -> Device {
    match args.device {
        Some(device) => device,
        None => Device::Auto,
    }
}

/// Whether two of the options given exclude each other, or one is missing that another needs.
pub open spec fn excluded(args: Args) -> bool {
    ||| args.quiet && (args.show is Some || args.format is Some || args.null
        || args.fields@.len() > 0 || args.summary)
    ||| args.gpu_id is Some && args.device is None
}

/// What a run whose arguments do not fit together is answered.
pub open spec fn refusal(args: Args) -> Option<Seq<char>> {
    if excluded(args) {
        Some("these options cannot be used together"@)
    } else if args.gpu_id is Some && device_of(args) != Device::Gpu {
        Some("--gpu-id needs --device gpu"@)
    } else if args.threads is Some && device_of(args) == Device::Gpu {
        Some("--threads is a CPU setting, and --device is gpu"@)
    } else if args.null && args.format == Some(Format::Json) {
        Some("--format json cannot be combined with --null"@)
    } else if args.fields@.contains(Field::LineNumbers) && args.show == Some(Show::Count) {
        Some("--line-numbers has no record to number under --show count"@)
    } else {
        None
    }
}

/// Check every constraint that spans arguments or depends on their values.
pub fn validate(args: &Args) -> (checked: Result<(), String>)
    ensures
        match checked {
            Ok(_) => refusal(*args) is None,
            Err(message) => refusal(*args) == Some(message@),
        },
{
    let clashes = (args.quiet && (args.show.is_some() || args.format.is_some() || args.null
        || args.fields.len() > 0 || args.summary)) || (args.gpu_id.is_some()
        && args.device.is_none());
    if clashes {
        return Err(String::from_str("these options cannot be used together"));
    }
    let device = match args.device {
        Some(device) => device,
        None => Device::Auto,
    };
    if args.gpu_id.is_some() && device != Device::Gpu {
        return Err(String::from_str("--gpu-id needs --device gpu"));
    }
    if args.threads.is_some() && device == Device::Gpu {
        return Err(String::from_str("--threads is a CPU setting, and --device is gpu"));
    }
    let json = match args.format {
        Some(format) => format == Format::Json,
        None => false,
    };
    if args.null && json {
        return Err(String::from_str("--format json cannot be combined with --null"));
    }
    let counts = match args.show {
        Some(show) => show == Show::Count,
        None => false,
    };
    if holds_field(args.fields.as_slice(), Field::LineNumbers) && counts {
        return Err(String::from_str("--line-numbers has no record to number under --show count"));
    }
    Ok(())
}

/// What the vocabulary is built from, and how lines are cut and kept.
#[derive(Clone, Copy, Debug, PartialEq, Eq, Structural)]
pub struct SearchConfig {
    pub max_distance: usize,
    pub alphabet: Alphabet,
    pub case_sensitivity: CaseSensitivity,
    pub utf8: bool,
    pub dictionary: Dictionary,
    /// Keep only this many of the best lines per input.
    pub top: Option<usize>,
}

impl SearchConfig {
    /// The rung's settings with every expert flag layered over it, so a flag means the same thing
    /// whatever the effort was, and the rung only fills the gaps. A search ignores case unless it
    /// is told otherwise, and folding case takes UTF-8.
    pub fn resolve(args: &Args, effort: Effort) -> (config: Self)
        ensures
            config.max_distance == match args.max_distance {
                Some(distance) => distance as nat,
                None => effort.distance(),
            },
            config.alphabet == match args.cost {
                Some(cost) => cost.draws(),
                None => effort.draws(),
            },
            config.dictionary == match args.dictionary {
                Some(dictionary) => dictionary,
                None => effort.consults(),
            },
            config.case_sensitivity == match args.ignore_case {
                Some(case) => case,
                None => CaseSensitivity::Uncased,
            },
            config.utf8 == (args.utf8 || config.case_sensitivity == CaseSensitivity::Uncased),
            config.top == args.top_k,
    {
        let case_sensitivity = match args.ignore_case {
            Some(case) => case,
            None => CaseSensitivity::Uncased,
        };
        SearchConfig {
            max_distance: match args.max_distance {
                Some(distance) => distance,
                None => effort.max_distance(),
            },
            alphabet: match args.cost {
                Some(cost) => cost.alphabet(),
                None => effort.alphabet(),
            },
            dictionary: match args.dictionary {
                Some(dictionary) => dictionary,
                None => effort.dictionary(),
            },
            case_sensitivity,
            utf8: args.utf8 || case_sensitivity == CaseSensitivity::Uncased,
            top: args.top_k,
        }
    }
}

/// These texts again.
fn copied(all: &[String]) -> (copies: Vec<String>)
    ensures
        texts(copies@) == texts(all@),
{
    let mut copies: Vec<String> = Vec::new();
    let mut index: usize = 0;
    while index < all.len()
        invariant
            index <= all@.len(),
            copies@.len() == index,
            forall|i: int| 0 <= i < index ==> (#[trigger] copies@[i])@ == all@[i]@,
        decreases all@.len() - index,
    {
        copies.push(String::from_str(all[index].as_str()));
        index += 1;
    }
    assert(texts(copies@) =~= texts(all@));
    copies
}

/// The queries, the positional among them where it is one.
pub open spec fn queries(pattern: Option<Seq<char>>, extra: Seq<Seq<char>>) -> Seq<Seq<char>> {
    match pattern {
        Some(pattern) if extra.len() == 0 => seq![pattern],
        _ => extra,
    }
}

/// The input paths, the positional first among them where the queries are given otherwise, and the
/// standard input where there are none.
pub open spec fn input_paths(
    pattern: Option<Seq<char>>,
    extra: Seq<Seq<char>>,
    inputs: Seq<Seq<char>>,
) -> Seq<Seq<char>> {
    let named = match pattern {
        Some(path) if extra.len() > 0 => seq![path] + inputs,
        _ => inputs,
    };
    if named.len() == 0 {
        seq!["-"@]
    } else {
        named
    }
}

/// The queries and the input paths, once the positional has been assigned to whichever of the two it
/// belongs to: without other queries it is the needle, with them every positional is a path.
pub fn resolve_positionals(pattern: Option<&str>, extra: &[String], inputs: &[String]) -> (resolved:
    Result<(Vec<String>, Vec<String>), String>)
    ensures
        ({
            let given = match pattern {
                Some(pattern) => Some(pattern@),
                None => None,
            };
            match resolved {
                Ok((patterns, paths)) => !(given is None && extra@.len() == 0) && texts(
                    patterns@,
                ) == queries(given, texts(extra@)) && texts(paths@) == input_paths(
                    given,
                    texts(extra@),
                    texts(inputs@),
                ),
                Err(message) => given is None && extra@.len() == 0 && message@
                    == "no query given; pass a pattern or --pattern"@,
            }
        }),
{
    let mut paths = copied(inputs);
    let mut patterns = copied(extra);
    assert(patterns@.len() == texts(patterns@).len() && paths@.len() == texts(paths@).len());
    match pattern {
        Some(pattern) => {
            if extra.len() == 0 {
                patterns.push(String::from_str(pattern));
                assert(texts(patterns@) =~= seq![pattern@]);
            } else {
                paths.insert(0, String::from_str(pattern));
                assert(texts(paths@) =~= seq![pattern@] + texts(inputs@));
            }
        },
        None => {
            if extra.len() == 0 {
                return Err(String::from_str("no query given; pass a pattern or --pattern"));
            }
        },
    }
    if paths.len() == 0 {
        paths.push(String::from_str("-"));
        assert(texts(paths@) =~= seq!["-"@]);
    }
    Ok((patterns, paths))
}

/// The note a transform that no table carries is answered with.
pub open spec fn fold_note() -> Seq<char> {
    "pass --fold with an embedded transform, such as Han-Latin or Latin-ASCII"@
}

/// The transforms a run folds through: the ones it names, or the ones the level implies.
pub open spec fn wanted_folds(
    named: Seq<Seq<char>>,
    folding: Folding,
    script: Script,
) -> Seq<Seq<char>> {
    if named.len() > 0 {
        named
    } else {
        folding.chain(script)
    }
}

/// Whether this is the named transform of a table.
pub open spec fn is_fold(fold: Fold, all: Seq<Seq<char>>, name: Seq<char>) -> bool {
    texts(fold.sources@) == sources(all, name) && texts(fold.targets@) == targets(all, name)
}

/// The transforms a run folds through: the ones it names, or the ones the level implies.
///
/// An empty result is the zero-cost case, and it is what every effort below the accents produces
/// where no transform is named.
pub fn resolve_folds(
    table: &str,
    named: &[String],
    folding: Folding,
    script: Script,
) -> (resolved: Result<Vec<Fold>, Failure>)
    ensures
        ({
            let wanted = wanted_folds(texts(named@), folding, script);
            let all = rows(table@);
            match resolved {
                Ok(folds) => folds@.len() == wanted.len() && (forall|i: int|
                    0 <= i < folds@.len() ==> is_fold(#[trigger] folds@[i], all, wanted[i])
                        && folds@[i].sources@.len() > 0),
                Err(failure) => exists|i: int|
                    0 <= i < wanted.len() && sources(all, #[trigger] wanted[i]).len() == 0 && (
                    forall|earlier: int|
                        0 <= earlier < i ==> sources(all, #[trigger] wanted[earlier]).len() > 0)
                        && (failure matches Failure::Unresolved { path, subject, note } && path@
                        == wanted[i] && subject@ == "CLDR transform"@ && note@ == fold_note()),
            }
        }),
{
    let ghost wanted = wanted_folds(texts(named@), folding, script);
    let ghost all = rows(table@);
    let implied: Vec<&'static str> = folding.transforms(script);
    let count: usize = if named.len() > 0 {
        named.len()
    } else {
        implied.len()
    };
    assert(implied@.len() == spelled(implied@).len());
    let mut folds: Vec<Fold> = Vec::new();
    let mut index: usize = 0;
    while index < count
        invariant
            index <= count,
            count == wanted.len(),
            wanted == wanted_folds(texts(named@), folding, script),
            all == rows(table@),
            spelled(implied@) == folding.chain(script),
            named@.len() > 0 ==> count == named@.len(),
            named@.len() == 0 ==> count == implied@.len(),
            folds@.len() == index,
            forall|i: int|
                0 <= i < index ==> is_fold(#[trigger] folds@[i], all, wanted[i])
                    && folds@[i].sources@.len() > 0,
        decreases count - index,
    {
        let name: &str = if named.len() > 0 {
            named[index].as_str()
        } else {
            implied[index]
        };
        proof {
            if named@.len() > 0 {
                assert(texts(named@)[index as int] == named@[index as int]@);
            } else {
                assert(spelled(implied@)[index as int] == implied@[index as int]@);
            }
            assert(wanted[index as int] == name@);
        }
        let fold = Fold::load(table, name);
        assert(fold.sources@.len() == texts(fold.sources@).len());
        if fold.is_empty() {
            proof {
                assert forall|earlier: int| 0 <= earlier < index implies sources(
                    all,
                    #[trigger] wanted[earlier],
                ).len() > 0 by {
                    assert(is_fold(folds@[earlier], all, wanted[earlier]));
                    assert(texts(folds@[earlier].sources@).len() == folds@[earlier].sources@.len());
                }
            }
            return Err(
                Failure::Unresolved {
                    path: String::from_str(name),
                    subject: String::from_str("CLDR transform"),
                    note:
                        "pass --fold with an embedded transform, such as Han-Latin or Latin-ASCII",
                },
            );
        }
        folds.push(fold);
        index += 1;
    }
    Ok(folds)
}

/// The layout a run's edits follow: the one it names, or the one of its queries' script.
pub open spec fn layout_name(layout: Option<&str>, script: Script) -> Seq<char> {
    match layout {
        Some(layout) => layout@,
        None => script.typed_on(),
    }
}

/// The keyboard a run's edits follow, where a table carries the layout.
pub fn resolve_keyboard(table: &str, layout: Option<&str>, script: Script) -> (resolved: Result<
    Keyboard,
    Failure,
>)
    ensures
        ({
            let keys = layout_keys(rows(table@), layout_name(layout, script));
            match resolved {
                Ok(keyboard) => keyboard.wf() && keyboard@ == keys && keys != Map::<
                    char,
                    Seq<char>,
                >::empty(),
                Err(failure) => keys == Map::<char, Seq<char>>::empty() && (
                failure matches Failure::Unresolved { path, subject, note } && path@
                    == layout_name(layout, script) && subject@ == "keyboard layout"@ && note@
                    == "pass --layout with one of the embedded names, such as us, de, fr or ru"@),
            }
        }),
{
    let name: &str = match layout {
        Some(layout) => layout,
        None => script.layout(),
    };
    let keyboard = Keyboard::load(table, name);
    if keyboard.is_empty() {
        return Err(
            Failure::Unresolved {
                path: String::from_str(name),
                subject: String::from_str("keyboard layout"),
                note: "pass --layout with one of the embedded names, such as us, de, fr or ru",
            },
        );
    }
    Ok(keyboard)
}

/// A run goes ahead where a quiet one is not told what to print, where a device's settings go with
/// that device, and where no record is asked for twice over.
pub proof fn only_options_that_fit_are_run(args: Args)
    ensures
        refusal(args) is None <==> {
            &&& args.quiet ==> args.show is None && args.format is None && !args.null
                && args.fields@.len() == 0 && !args.summary
            &&& args.gpu_id is Some ==> args.device == Some(Device::Gpu)
            &&& args.threads is Some ==> args.device != Some(Device::Gpu)
            &&& args.null ==> args.format != Some(Format::Json)
            &&& args.show == Some(Show::Count) ==> !args.fields@.contains(Field::LineNumbers)
        },
{
}

/// The positional is the query where no other query is given and the first input where one is, and
/// it is never lost; without any input the standard input is read.
pub proof fn the_positional_is_a_query_or_an_input(
    positional: Seq<char>,
    extra: Seq<Seq<char>>,
    inputs: Seq<Seq<char>>,
)
    ensures
        extra.len() == 0 ==> queries(Some(positional), extra) == seq![positional] && input_paths(
            Some(positional),
            extra,
            inputs,
        ) == if inputs.len() == 0 {
            seq!["-"@]
        } else {
            inputs
        },
        extra.len() > 0 ==> queries(Some(positional), extra) == extra && input_paths(
            Some(positional),
            extra,
            inputs,
        ) == seq![positional] + inputs,
        queries(None, extra) == extra,
        input_paths(None, extra, inputs) == if inputs.len() == 0 {
            seq!["-"@]
        } else {
            inputs
        },
{
}

/// Transforms and a layout that are named are taken; only where none is named does the level or the
/// script choose.
pub proof fn what_is_named_is_taken(
    named: Seq<Seq<char>>,
    layout: &str,
    folding: Folding,
    script: Script,
)
    ensures
        named.len() > 0 ==> wanted_folds(named, folding, script) == named,
        named.len() == 0 ==> wanted_folds(named, folding, script) == folding.chain(script),
        layout_name(Some(layout), script) == layout@,
        layout_name(None, script) == script.typed_on(),
{
}

} // verus!
