//! Which files a run reads: what a name asks for, and what a walk of a directory lets through.

use vstd::prelude::*;
use vstd::string::StringExecFns;

use crate::text::same_text;

verus! {

/// `glob::Pattern`, a compiled pattern.
#[verifier::external_type_specification]
#[verifier::external_body]
pub struct ExPattern(glob::Pattern);

/// The text a pattern was compiled from.
pub uninterp spec fn glob_text(pattern: glob::Pattern) -> Seq<char>;

/// What is wrong with a text that is no pattern, as `glob::PatternError` shows it, or nothing where
/// it is one.
pub uninterp spec fn glob_fault(text: Seq<char>) -> Option<Seq<char>>;

/// Whether the pattern that this text compiles to matches a path.
pub uninterp spec fn glob_accepts(text: Seq<char>, path: Seq<char>) -> bool;

/// Whether a text means the same on every platform: some take a backslash for a path separator,
/// others for an ordinary character.
pub open spec fn portable(text: Seq<char>) -> bool {
    !text.contains('\\')
}

/// Whether all these texts mean the same on every platform.
pub open spec fn all_portable(texts: Seq<Seq<char>>) -> bool {
    forall|i: int| 0 <= i < texts.len() ==> portable(#[trigger] texts[i])
}

/// `glob::Pattern::new`: compiles a pattern, or says what is wrong with it. What is wrong is a
/// function of the text alone where the text holds no backslash; one that does is read as its
/// platform reads paths, and nothing is said of it.
#[verifier::external_body]
fn new_pattern(text: &str) -> (pattern: Result<glob::Pattern, String>)
    ensures
        match pattern {
            Ok(pattern) => glob_text(pattern) == text@ && (portable(text@) ==> glob_fault(text@)
                is None),
            Err(message) => portable(text@) ==> glob_fault(text@) == Some(message@),
        },
{
    glob::Pattern::new(text).map_err(|error| error.to_string())
}

/// `glob::Pattern::matches`: whether the pattern matches the path. It is a function of the two
/// texts alone where neither holds a backslash; on others it depends on how the platform separates
/// paths, and nothing is said of it.
#[verifier::external_body]
fn pattern_matches(pattern: &glob::Pattern, path: &str) -> (matched: bool)
    ensures
        portable(glob_text(*pattern)) && portable(path@) ==> matched == glob_accepts(
            glob_text(*pattern),
            path@,
        ),
{
    pattern.matches(path)
}

/// The texts of these patterns.
pub open spec fn glob_texts(patterns: Seq<glob::Pattern>) -> Seq<Seq<char>> {
    patterns.map_values(|pattern: glob::Pattern| glob_text(pattern))
}

/// What a malformed glob is answered.
pub open spec fn invalid_glob(text: Seq<char>, fault: Seq<char>) -> Seq<char> {
    "invalid glob '"@ + text + "': "@ + fault
}

/// What a malformed glob is answered.
pub fn glob_message(text: &str, fault: &str) -> (message: String)
    ensures
        message@ == invalid_glob(text@, fault@),
{
    let mut message = String::from_str("invalid glob '");
    message.append(text);
    message.append("': ");
    message.append(fault);
    message
}

/// Compile each glob once, so a malformed one is refused here rather than silently matching nothing
/// on every file of a walk. The first malformed one is the one reported.
pub fn compile_globs(patterns: &[String]) -> (compiled: Result<Vec<glob::Pattern>, String>)
    ensures
        match compiled {
            Ok(compiled) => glob_texts(compiled@) == patterns@.map_values(|text: String| text@)
                && (forall|i: int|
                0 <= i < patterns@.len() && portable((#[trigger] patterns@[i])@) ==> glob_fault(
                    patterns@[i]@,
                ) is None),
            Err(message) => exists|i: int, fault: Seq<char>|
                0 <= i < patterns@.len() && message@ == #[trigger] invalid_glob(
                    (#[trigger] patterns@[i])@,
                    fault,
                ) && (portable(patterns@[i]@) ==> glob_fault(patterns@[i]@) == Some(fault)) && (
                forall|earlier: int|
                    0 <= earlier < i && portable((#[trigger] patterns@[earlier])@) ==> glob_fault(
                        patterns@[earlier]@,
                    ) is None),
        },
{
    let mut compiled: Vec<glob::Pattern> = Vec::new();
    let mut index: usize = 0;
    while index < patterns.len()
        invariant
            index <= patterns@.len(),
            compiled@.len() == index,
            forall|i: int| 0 <= i < index ==> glob_text(#[trigger] compiled@[i]) == patterns@[i]@,
            forall|i: int|
                0 <= i < index && portable((#[trigger] patterns@[i])@) ==> glob_fault(
                    patterns@[i]@,
                ) is None,
        decreases patterns@.len() - index,
    {
        let text: &str = patterns[index].as_str();
        match new_pattern(text) {
            Ok(pattern) => {
                compiled.push(pattern);
            },
            Err(fault) => {
                let message = glob_message(text, fault.as_str());
                assert(message@ == invalid_glob(patterns@[index as int]@, fault@));
                return Err(message);
            },
        }
        index += 1;
    }
    assert(glob_texts(compiled@) =~= patterns@.map_values(|text: String| text@));
    Ok(compiled)
}

/// Whether one of these patterns matches the whole path or the file name.
pub open spec fn any_accepts(texts: Seq<Seq<char>>, path: Seq<char>, name: Seq<char>) -> bool {
    exists|i: int|
        0 <= i < texts.len() && (glob_accepts(#[trigger] texts[i], path) || glob_accepts(
            texts[i],
            name,
        ))
}

/// Whether a walked entry passes a glob filter, which matches either the whole path or the file
/// name. No filter accepts everything, and an empty one nothing.
pub fn glob_selects(globs: Option<&[glob::Pattern]>, path: &str, name: &str) -> (selected: bool)
    ensures
        match globs {
            None => selected,
            Some(globs) => {
                let texts = glob_texts(globs@);
                &&& globs@.len() == 0 ==> !selected
                &&& portable(path@) && portable(name@) && all_portable(texts) ==> selected
                    == any_accepts(texts, path@, name@)
            },
        },
{
    let patterns: &[glob::Pattern] = match globs {
        Some(patterns) => patterns,
        None => {
            return true;
        },
    };
    let ghost texts = glob_texts(patterns@);
    let mut index: usize = 0;
    while index < patterns.len()
        invariant
            globs == Some(patterns),
            index <= patterns@.len(),
            texts == glob_texts(patterns@),
            portable(path@) && portable(name@) && all_portable(texts) ==> forall|i: int|
                0 <= i < index ==> !glob_accepts(#[trigger] texts[i], path@) && !glob_accepts(
                    texts[i],
                    name@,
                ),
        decreases patterns@.len() - index,
    {
        let pattern = &patterns[index];
        assert(texts[index as int] == glob_text(patterns@[index as int]));
        let matched = pattern_matches(pattern, path) || pattern_matches(pattern, name);
        assert(portable(path@) && portable(name@) && all_portable(texts) ==> matched == (
        glob_accepts(texts[index as int], path@) || glob_accepts(texts[index as int], name@)));
        if matched {
            return true;
        }
        index += 1;
    }
    false
}

/// What kind of thing a walk came across.
#[derive(Clone, Copy, Debug, PartialEq, Eq, Structural)]
pub enum Kind {
    File,
    Directory,
    /// A pipe, a device, a socket.
    Other,
}

/// Whether a walked entry should be read: any regular file, plus explicitly named non-directories,
/// which is what lets a process substitution through.
pub fn is_readable_entry(kind: Option<Kind>, depth: usize) -> (readable: bool)
    ensures
        readable == (kind == Some(Kind::File) || kind == Some(Kind::Other) && depth == 0),
{
    match kind {
        Some(Kind::File) => true,
        Some(Kind::Other) => depth == 0,
        Some(Kind::Directory) => false,
        None => false,
    }
}

/// What one name on a command line asks for.
#[derive(Clone, Copy, Debug, PartialEq, Eq, Structural)]
pub enum Request {
    /// The standard input.
    Stdin,
    /// Something the file system cannot answer for.
    Unreadable,
    /// A file by its name, which no filter applies to.
    Named,
    /// A directory to walk.
    Walked,
}

/// What one name asks for, given whether the file system answers for it and whether it is a
/// directory.
pub fn request_of(name: &str, present: bool, is_directory: bool) -> (request: Request)
    ensures
        request == if name@ == "-"@ {
            Request::Stdin
        } else if !present {
            Request::Unreadable
        } else if is_directory {
            Request::Walked
        } else {
            Request::Named
        },
{
    if same_text(name, "-") {
        Request::Stdin
    } else if !present {
        Request::Unreadable
    } else if is_directory {
        Request::Walked
    } else {
        Request::Named
    }
}

/// Which files a walk sees.
#[derive(Clone, Copy, Debug)]
pub struct TraversalOptions<'a> {
    pub hidden: bool,
    pub no_ignore: bool,
    pub follow: bool,
    pub max_depth: Option<usize>,
    pub file_type: Option<&'a [String]>,
}

impl<'a> Default for TraversalOptions<'a> {
    fn default() -> (options: Self)
        ensures
            options == (TraversalOptions {
                hidden: false,
                no_ignore: false,
                follow: false,
                max_depth: None,
                file_type: None,
            }),
    {
        TraversalOptions {
            hidden: false,
            no_ignore: false,
            follow: false,
            max_depth: None,
            file_type: None,
        }
    }
}

impl<'a> TraversalOptions<'a> {
    /// The options one request is walked under. A type filters what a walk finds, never what the
    /// caller asked for by name.
    pub fn for_request(self, request: Request) -> (options: Self)
        ensures
            options == (TraversalOptions {
                file_type: if request == Request::Walked {
                    self.file_type
                } else {
                    None
                },
                ..self
            }),
    {
        TraversalOptions {
            hidden: self.hidden,
            no_ignore: self.no_ignore,
            follow: self.follow,
            max_depth: self.max_depth,
            file_type: if request == Request::Walked {
                self.file_type
            } else {
                None
            },
        }
    }
}

/// Whether an entry that a request's walk came across is an input. Globs filter what a walk finds,
/// never what the caller asked for by name.
pub fn admits(
    request: Request,
    kind: Option<Kind>,
    depth: usize,
    globs: Option<&[glob::Pattern]>,
    path: &str,
    name: &str,
) -> (admitted: bool)
    ensures
        ({
            let readable = kind == Some(Kind::File) || kind == Some(Kind::Other) && depth == 0;
            &&& !readable ==> !admitted
            &&& readable && (request != Request::Walked || globs is None) ==> admitted
            &&& readable && request == Request::Walked ==> (globs matches Some(globs) ==> {
                let texts = glob_texts(globs@);
                &&& globs@.len() == 0 ==> !admitted
                &&& portable(path@) && portable(name@) && all_portable(texts) ==> admitted
                    == any_accepts(texts, path@, name@)
            })
        }),
{
    if !is_readable_entry(kind, depth) {
        return false;
    }
    if request == Request::Walked {
        glob_selects(globs, path, name)
    } else {
        true
    }
}

} // verus!
