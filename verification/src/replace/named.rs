//! Editing lines addressed by name.

use vstd::prelude::*;
use vstd::string::StringExecFns;
use vstd::utf8::encode_utf8;

use crate::bytes::{byte_position, lemma_append, lemma_byte_position, lit, put, CR, LF};
use crate::hashing::HashPrefix;
use crate::lines::{lemma_lines_step, line_at, lines, named_lines, Line, NamedLine, Newlines};
use crate::status::Failure;
use crate::sz::{find_byte, hash_of};

verus! {

/// Where the replacement goes, relative to what the pattern matched.
#[derive(Clone, Copy, PartialEq, Eq, Structural, Debug)]
pub enum Placement {
    /// In place of the match.
    Over,
    /// Inserted after it, leaving it alone.
    After,
    /// Inserted before it.
    Before,
}

/// How many of the pattern's matches a run acts on.
#[derive(Clone, Copy, PartialEq, Eq, Structural, Debug)]
pub enum Occurrences {
    /// Every match.
    All,
    /// The leftmost match only.
    First,
    /// Exactly one match; refuse and change nothing if there are more.
    One,
}

/// `data` without the `byte` it may end with.
pub open spec fn without_last(data: Seq<u8>, byte: u8) -> Seq<u8> {
    if data.len() > 0 && data.last() == byte {
        data.drop_last()
    } else {
        data
    }
}

/// The pieces between line feeds from `at` on, each without the carriage return it may end with,
/// with `terminator` between each two.
pub open spec fn rejoined_from(text: Seq<u8>, at: int, terminator: Seq<u8>) -> Seq<u8>
    decreases text.len() + 1 - at,
{
    let end = byte_position(text, 0x0A, at);
    if at < 0 || at > text.len() || end < at || end >= text.len() {
        without_last(text.subrange(at, text.len() as int), 0x0D)
    } else {
        without_last(text.subrange(at, end), 0x0D) + terminator + rejoined_from(
            text,
            end + 1,
            terminator,
        )
    }
}

/// `text` with its own line breaks rendered as `terminator`, and none at the end.
pub open spec fn rejoined(text: Seq<u8>, terminator: Seq<u8>) -> Seq<u8> {
    rejoined_from(without_last(text, 0x0A), 0, terminator)
}

/// `text` as a whole line that ends the way the line it joins does. Nothing stays nothing.
pub open spec fn line_text(text: Seq<u8>, terminator: Seq<u8>) -> Seq<u8> {
    if text.len() == 0 {
        Seq::empty()
    } else {
        rejoined(text, terminator) + terminator
    }
}

/// `text` with its own line breaks rendered as `terminator`, and none added at the end.
///
/// Separate from [`as_line`] because the two are different questions: an insertion after a file's
/// last unterminated line wants the breaks inside the text and none after it.
pub fn joined(text: &str, terminator: &[u8]) -> (written: Vec<u8>)
    ensures
        written@ == rejoined(encode_utf8(text@), terminator@),
{
    let whole: &[u8] = text.as_bytes();
    let body: &[u8] = if whole.len() > 0 && whole[whole.len() - 1] == LF {
        &whole[0..whole.len() - 1]
    } else {
        whole
    };
    assert(body@ =~= without_last(whole@, 0x0A));
    let mut written: Vec<u8> = Vec::new();
    let mut at: usize = 0;
    loop
        invariant
            at <= body@.len(),
            body@ == without_last(encode_utf8(text@), 0x0A),
            rejoined(encode_utf8(text@), terminator@) == written@ + rejoined_from(
                body@,
                at as int,
                terminator@,
            ),
        decreases body@.len() + 1 - at,
    {
        let rest: &[u8] = &body[at..body.len()];
        let found = find_byte(rest, LF);
        proof {
            lemma_byte_position(rest@, LF, 0);
            lemma_byte_position(body@, LF, at as int);
            let offset = byte_position(rest@, LF, 0);
            let end = byte_position(body@, LF, at as int);
            if offset < rest@.len() {
                assert(rest@[offset] == body@[at + offset]);
            }
            if end < body@.len() {
                assert(rest@[end - at] == body@[end]);
            }
            assert(end == at + offset) by {
                if end < at + offset {
                    assert(rest@[end - at] == body@[end]);
                }
                if at + offset < end {
                    assert(body@[at + offset] == rest@[offset]);
                }
            }
        }
        let length: usize = match found {
            Some(offset) => offset,
            None => rest.len(),
        };
        let piece: &[u8] = if length > 0 && rest[length - 1] == CR {
            &rest[0..length - 1]
        } else {
            &rest[0..length]
        };
        assert(piece@ =~= without_last(body@.subrange(at as int, at + length), 0x0D));
        let ghost before = written@;
        put(&mut written, piece);
        if found.is_none() {
            return written;
        }
        put(&mut written, terminator);
        proof {
            lemma_append(
                before,
                piece@ + terminator@,
                rejoined_from(body@, at + length + 1, terminator@),
            );
            lemma_append(before, piece@, terminator@);
        }
        at = at + length + 1;
    }
}

/// `text` as a whole line, taking `terminator` from the line it joins.
///
/// The rule that makes every line operation fall out of one replacement argument: an empty
/// replacement leaves nothing to terminate and so removes the line, a bare newline leaves an empty
/// line behind, and ordinary text is terminated the way its neighbours are.
pub fn as_line(text: &str, terminator: &[u8]) -> (written: Vec<u8>)
    ensures
        written@ == line_text(encode_utf8(text@), terminator@),
{
    if text.as_bytes().len() == 0 {
        return Vec::new();
    }
    let mut written = joined(text, terminator);
    put(&mut written, terminator);
    written
}

/// One replacement of a byte range, resolved against the input before anything is written. An
/// insertion is a zero-width span.
pub struct Splice {
    pub start: usize,
    pub end: usize,
    pub text: Vec<u8>,
}

/// What a [`Splice`] stands for.
pub ghost struct Patch {
    pub start: int,
    pub end: int,
    pub text: Seq<u8>,
}

impl View for Splice {
    type V = Patch;

    open spec fn view(&self) -> Patch {
        Patch { start: self.start as int, end: self.end as int, text: self.text@ }
    }
}

pub open spec fn patches(splices: Seq<Splice>) -> Seq<Patch> {
    splices.map_values(|splice: Splice| splice@)
}

/// Whether the patches from `at` on stand in order, behind byte `from`, and inside `length` bytes.
pub open spec fn in_order(all: Seq<Patch>, from: int, length: int) -> bool
    decreases all.len(),
{
    if all.len() == 0 {
        from <= length
    } else {
        &&& from <= all[0].start <= all[0].end <= length
        &&& in_order(all.drop_first(), all[0].end, length)
    }
}

/// `data` from `from` on with every patch applied.
pub open spec fn patched(data: Seq<u8>, all: Seq<Patch>, from: int) -> Seq<u8>
    decreases all.len(),
{
    if all.len() == 0 {
        data.subrange(from, data.len() as int)
    } else {
        data.subrange(from, all[0].start) + all[0].text + patched(
            data,
            all.drop_first(),
            all[0].end,
        )
    }
}

/// Whether `name` names this line.
pub open spec fn names(name: HashPrefix, data: Seq<u8>, line: Line) -> bool {
    hash_of(line.whole(data)) & name.mask == name.value
}

/// The lines from `at` on that `name` names.
pub open spec fn named_from(data: Seq<u8>, at: int, newlines: Newlines, name: HashPrefix) -> Seq<
    Line,
>
    decreases data.len() - at,
{
    if at < 0 || at >= data.len() {
        Seq::empty()
    } else {
        let line = line_at(data, at, newlines);
        proof {
            lemma_lines_step(data, at, newlines);
        }
        if line.end <= at {
            Seq::empty()
        } else if names(name, data, line) {
            seq![line] + named_from(data, line.end, newlines, name)
        } else {
            named_from(data, line.end, newlines, name)
        }
    }
}

/// The terminator of the last line from `at` on that has one, or `so_far`.
pub open spec fn prevailing_from(data: Seq<u8>, at: int, newlines: Newlines, so_far: Seq<u8>) -> Seq<
    u8,
>
    decreases data.len() - at,
{
    if at < 0 || at >= data.len() {
        so_far
    } else {
        let line = line_at(data, at, newlines);
        proof {
            lemma_lines_step(data, at, newlines);
        }
        if line.end <= at {
            so_far
        } else {
            prevailing_from(
                data,
                line.end,
                newlines,
                if line.terminator(data).len() > 0 {
                    line.terminator(data)
                } else {
                    so_far
                },
            )
        }
    }
}

/// The terminator a line without one borrows: the last the file uses.
pub open spec fn prevailing(data: Seq<u8>, newlines: Newlines) -> Seq<u8> {
    prevailing_from(data, 0, newlines, lit("\n"))
}

/// What an edit makes of one line it names.
pub open spec fn patch_of(
    data: Seq<u8>,
    line: Line,
    placement: Placement,
    replacement: Seq<u8>,
    borrowed: Seq<u8>,
) -> Patch {
    let terminator = line.terminator(data);
    match placement {
        // A rewrite ends the way the line it replaces ended.
        Placement::Over => Patch {
            start: line.start,
            end: line.end,
            text: line_text(replacement, terminator),
        },
        // Past the line's terminator, so the new line follows it whole. A line that has none is
        // the file's last: one goes in front of the text instead of behind it, so the file still
        // ends without one.
        Placement::After => Patch {
            start: line.end,
            end: line.end,
            text: if terminator.len() == 0 {
                borrowed + rejoined(replacement, borrowed)
            } else {
                line_text(replacement, terminator)
            },
        },
        Placement::Before => Patch {
            start: line.start,
            end: line.start,
            text: line_text(
                replacement,
                if terminator.len() == 0 {
                    borrowed
                } else {
                    terminator
                },
            ),
        },
    }
}

/// The patches that carry out an edit of these lines.
pub open spec fn patches_of(
    data: Seq<u8>,
    named: Seq<Line>,
    placement: Placement,
    replacement: Seq<u8>,
    borrowed: Seq<u8>,
) -> Seq<Patch> {
    named.map_values(|line: Line| patch_of(data, line, placement, replacement, borrowed))
}

/// The patches an edit by name carries out, or the failure it ends in. Every candidate is found
/// before anything is written, so a name too short to be unique can only ever cause a refused
/// edit, never an edit to the wrong line.
pub open spec fn resolved(
    data: Seq<u8>,
    newlines: Newlines,
    name: HashPrefix,
    placement: Placement,
    occurrences: Occurrences,
    replacement: Seq<u8>,
) -> Result<Seq<Patch>, nat> {
    let named = named_from(data, 0, newlines, name);
    let borrowed = prevailing(data, newlines);
    if named.len() == 0 {
        Err(0)
    } else {
        match occurrences {
            Occurrences::All => Ok(patches_of(data, named, placement, replacement, borrowed)),
            Occurrences::First => Ok(
                patches_of(data, named.take(1), placement, replacement, borrowed),
            ),
            Occurrences::One => if named.len() == 1 {
                Ok(patches_of(data, named, placement, replacement, borrowed))
            } else {
                Err(named.len())
            },
        }
    }
}

proof fn lemma_named(data: Seq<u8>, at: int, newlines: Newlines, name: HashPrefix)
    requires
        0 <= at <= data.len(),
    ensures
        forall|i: int|
            #![trigger named_from(data, at, newlines, name)[i]]
            0 <= i < named_from(data, at, newlines, name).len() ==> {
                let line = named_from(data, at, newlines, name)[i];
                &&& at <= line.start <= line.cut <= line.end <= data.len()
                &&& names(name, data, line)
            },
        forall|i: int, j: int|
            #![trigger named_from(data, at, newlines, name)[i], named_from(data, at, newlines, name)[j]]
            0 <= i < j < named_from(data, at, newlines, name).len() ==> named_from(
                data,
                at,
                newlines,
                name,
            )[i].end <= named_from(data, at, newlines, name)[j].start,
        named_from(data, at, newlines, name).len() <= data.len() - at,
    decreases data.len() - at,
{
    if at < data.len() {
        lemma_lines_step(data, at, newlines);
        let line = line_at(data, at, newlines);
        lemma_named(data, line.end, newlines, name);
        let rest = named_from(data, line.end, newlines, name);
        let all = named_from(data, at, newlines, name);
        if names(name, data, line) {
            assert forall|i: int| 0 <= i < all.len() implies at <= (#[trigger] all[i]).start
                && all[i].start <= all[i].cut <= all[i].end && all[i].end <= data.len() && names(
                name,
                data,
                all[i],
            ) by {
                if i > 0 {
                    assert(all[i] == rest[i - 1]);
                }
            }
            assert forall|i: int, j: int|
                #![trigger all[i], all[j]]
                0 <= i < j < all.len() implies all[i].end <= all[j].start by {
                assert(all[j] == rest[j - 1]);
                if i > 0 {
                    assert(all[i] == rest[i - 1]);
                }
            }
        }
    }
}

/// Patches of lines that stand in order stand in order.
proof fn lemma_patches_in_order(
    data: Seq<u8>,
    named: Seq<Line>,
    placement: Placement,
    replacement: Seq<u8>,
    borrowed: Seq<u8>,
    from: int,
)
    requires
        0 <= from <= data.len(),
        forall|i: int|
            0 <= i < named.len() ==> from <= (#[trigger] named[i]).start <= named[i].end
                <= data.len(),
        forall|i: int, j: int|
            #![trigger named[i], named[j]]
            0 <= i < j < named.len() ==> named[i].end <= named[j].start,
    ensures
        in_order(
            patches_of(data, named, placement, replacement, borrowed),
            from,
            data.len() as int,
        ),
    decreases named.len(),
{
    let all = patches_of(data, named, placement, replacement, borrowed);
    if named.len() > 0 {
        let rest = named.drop_first();
        assert(all.drop_first() =~= patches_of(data, rest, placement, replacement, borrowed));
        assert(all[0] == patch_of(data, named[0], placement, replacement, borrowed));
        assert forall|i: int, j: int|
            #![trigger rest[i], rest[j]]
            0 <= i < j < rest.len() implies rest[i].end <= rest[j].start by {
            assert(rest[i] == named[i + 1] && rest[j] == named[j + 1]);
        }
        assert forall|i: int| 0 <= i < rest.len() implies all[0].end <= (
        #[trigger] rest[i]).start && rest[i].start <= rest[i].end && rest[i].end
            <= data.len() by {
            assert(rest[i] == named[i + 1]);
            assert(named[0].end <= named[i + 1].start);
        }
        lemma_patches_in_order(data, rest, placement, replacement, borrowed, all[0].end);
    }
}

/// The note a name that names nothing is answered with.
pub open spec fn unnamed_note() -> Seq<char> {
    "names no line here; re-read the file"@
}

/// The note a name that names several lines is answered with.
pub open spec fn many_named_note() -> Seq<char> {
    "ask sz-find for a longer name with --hash-width, or name a neighbouring line"@
}

/// Resolve a line name into the splices that carry out the edit.
pub fn resolve_lines(
    data: &[u8],
    newlines: Newlines,
    name: HashPrefix,
    placement: Placement,
    occurrences: Occurrences,
    replacement: &str,
    path: &str,
    pattern: &str,
) -> (splices: Result<Vec<Splice>, Failure>)
    ensures
        match (
            resolved(data@, newlines, name, placement, occurrences, encode_utf8(replacement@)),
            splices,
        ) {
            (Ok(expected), Ok(splices)) => patches(splices@) == expected && in_order(
                expected,
                0,
                data@.len() as int,
            ),
            (Err(count), Err(failure)) => if count == 0 {
                failure matches Failure::Unresolved { path: at, subject, note } && at@ == path@
                    && subject@ == pattern@ && note@ == unnamed_note()
            } else {
                failure matches Failure::Ambiguous { path: at, subject, matches, note } && at@
                    == path@ && subject@ == pattern@ && matches == count && note@
                    == many_named_note()
            },
            _ => false,
        },
{
    // Only a file's final line can lack a terminator, so the one it borrows is the file's last —
    // carried out of the pass that finds the candidates rather than costing a second.
    let mut borrowed: &[u8] = "\n".as_bytes();
    let mut matched: Vec<NamedLine<'_>> = Vec::new();
    let mut iter = named_lines(data, newlines);
    let ghost mut at: int = 0;
    let ghost mut found: Seq<Line> = Seq::empty();
    let ghost named = named_from(data@, 0, newlines, name);
    assert(found + named =~= named);
    loop
        invariant
            iter.wf(),
            iter.input() == data@,
            0 <= at <= data@.len(),
            iter.remaining() == lines(data@, at, newlines),
            named == named_from(data@, 0, newlines, name),
            found + named_from(data@, at, newlines, name) == named,
            prevailing(data@, newlines) == prevailing_from(data@, at, newlines, borrowed@),
            matched@.len() == found.len(),
            forall|i: int|
                0 <= i < found.len() ==> (#[trigger] matched@[i]).is(data@, found[i])
                    && matched@[i].wf(),
        ensures
            found == named,
            borrowed@ == prevailing(data@, newlines),
        decreases data@.len() - at,
    {
        proof {
            if at < data@.len() {
                lemma_lines_step(data@, at, newlines);
            }
        }
        match iter.next() {
            None => {
                proof {
                    assert(found + named_from(data@, at, newlines, name) =~= found);
                }
                break;
            },
            Some(line) => {
                let ghost here = line_at(data@, at, newlines);
                let terminator: &[u8] = line.terminator();
                assert(terminator@ =~= here.terminator(data@));
                if terminator.len() > 0 {
                    borrowed = terminator;
                }
                if name.matches(line.hash()) {
                    matched.push(line);
                    proof {
                        let before = found;
                        found = found.push(here);
                        assert(before + (seq![here] + named_from(
                            data@,
                            here.end,
                            newlines,
                            name,
                        )) =~= found + named_from(data@, here.end, newlines, name));
                    }
                }
                proof {
                    at = here.end;
                }
            },
        }
    }
    // A name that picks out nothing is always a mistake, whatever the mode says: a name is an
    // address, and addressing a line that is not there means the file has moved since the name
    // was issued.
    if matched.len() == 0 {
        return Err(
            Failure::Unresolved {
                path: String::from_str(path),
                subject: String::from_str(pattern),
                note: "names no line here; re-read the file",
            },
        );
    }
    let count: usize = match occurrences {
        Occurrences::All => matched.len(),
        Occurrences::First => 1,
        Occurrences::One => {
            if matched.len() != 1 {
                return Err(
                    Failure::Ambiguous {
                        path: String::from_str(path),
                        subject: String::from_str(pattern),
                        matches: matched.len(),
                        note:
                            "ask sz-find for a longer name with --hash-width, or name a neighbouring line",
                    },
                );
            }
            1
        },
    };
    let ghost taken = named.take(count as int);
    let ghost text = encode_utf8(replacement@);
    let mut splices: Vec<Splice> = Vec::new();
    let mut index: usize = 0;
    while index < count
        invariant
            index <= count <= matched@.len(),
            found == named,
            named == named_from(data@, 0, newlines, name),
            matched@.len() == found.len(),
            taken == named.take(count as int),
            text == encode_utf8(replacement@),
            borrowed@ == prevailing(data@, newlines),
            forall|i: int|
                0 <= i < found.len() ==> (#[trigger] matched@[i]).is(data@, found[i])
                    && matched@[i].wf(),
            patches(splices@) == patches_of(
                data@,
                taken.take(index as int),
                placement,
                text,
                borrowed@,
            ),
        decreases count - index,
    {
        let line = matched[index];
        let ghost here = found[index as int];
        proof {
            lemma_named(data@, 0, newlines, name);
            assert(here == named_from(data@, 0, newlines, name)[index as int]);
        }
        assert(matched@[index as int].is(data@, here));
        let terminator: &[u8] = line.terminator();
        assert(terminator@ =~= here.terminator(data@));
        // An insertion needs a terminator of its own to stand as a line, and borrows one when the
        // line it is anchored to has none to lend.
        let lent: &[u8] = if terminator.len() == 0 {
            borrowed
        } else {
            terminator
        };
        let splice = match placement {
            Placement::Over => Splice {
                start: line.offset,
                end: line.end(),
                text: as_line(replacement, terminator),
            },
            Placement::After => {
                let text = if terminator.len() == 0 {
                    let mut written: Vec<u8> = Vec::new();
                    put(&mut written, lent);
                    put(&mut written, joined(replacement, lent).as_slice());
                    assert(written@ =~= borrowed@ + rejoined(text, borrowed@));
                    written
                } else {
                    as_line(replacement, lent)
                };
                Splice { start: line.end(), end: line.end(), text }
            },
            Placement::Before => Splice {
                start: line.offset,
                end: line.offset,
                text: as_line(replacement, lent),
            },
        };
        assert(splice@ == patch_of(data@, here, placement, text, borrowed@));
        let ghost earlier = splices@;
        let ghost patch = splice@;
        splices.push(splice);
        proof {
            assert(taken.take(index + 1) =~= taken.take(index as int).push(here));
            assert(patches(splices@) =~= patches(earlier).push(patch));
            assert(patches_of(data@, taken.take(index + 1), placement, text, borrowed@)
                =~= patches_of(data@, taken.take(index as int), placement, text, borrowed@).push(
                patch_of(data@, here, placement, text, borrowed@),
            ));
            assert(patches(splices@) =~= patches_of(
                data@,
                taken.take(index + 1),
                placement,
                text,
                borrowed@,
            ));
        }
        index += 1;
    }
    proof {
        assert(taken.take(count as int) =~= taken);
        lemma_named(data@, 0, newlines, name);
        assert forall|i: int| 0 <= i < taken.len() implies 0 <= (#[trigger] taken[i]).start
            && taken[i].start <= taken[i].end && taken[i].end <= data@.len() by {
            assert(taken[i] == named[i]);
        }
        assert forall|i: int, j: int|
            #![trigger taken[i], taken[j]]
            0 <= i < j < taken.len() implies taken[i].end <= taken[j].start by {
            assert(taken[i] == named[i] && taken[j] == named[j]);
        }
        lemma_patches_in_order(data@, taken, placement, text, borrowed@, 0);
        assert(named.take(named.len() as int) =~= named);
    }
    Ok(splices)
}

/// Append `data` with every splice applied, in one pass, since the splices stand in order.
pub fn apply_splices(data: &[u8], splices: &[Splice], out: &mut Vec<u8>)
    requires
        in_order(patches(splices@), 0, data@.len() as int),
    ensures
        final(out)@ == old(out)@ + patched(data@, patches(splices@), 0),
{
    let mut cursor: usize = 0;
    let mut index: usize = 0;
    let ghost all = patches(splices@);
    assert(all.skip(0) =~= all);
    while index < splices.len()
        invariant
            index <= splices@.len(),
            all == patches(splices@),
            cursor <= data@.len(),
            in_order(all.skip(index as int), cursor as int, data@.len() as int),
            old(out)@ + patched(data@, all, 0) == out@ + patched(
                data@,
                all.skip(index as int),
                cursor as int,
            ),
        decreases splices@.len() - index,
    {
        let splice = &splices[index];
        let ghost rest = all.skip(index as int);
        let ghost before = out@;
        assert(rest[0] == splice@);
        assert(rest.drop_first() =~= all.skip(index + 1));
        put(out, &data[cursor..splice.start]);
        put(out, splice.text.as_slice());
        proof {
            let head = data@.subrange(cursor as int, splice.start as int);
            lemma_append(
                before,
                head + splice.text@,
                patched(data@, rest.drop_first(), splice.end as int),
            );
            lemma_append(before, head, splice.text@);
        }
        cursor = splice.end;
        index += 1;
    }
    put(out, &data[cursor..data.len()]);
}

/// One line as an edit leaves it, where the edit names it.
pub open spec fn edited_line(
    data: Seq<u8>,
    line: Line,
    placement: Placement,
    replacement: Seq<u8>,
    borrowed: Seq<u8>,
) -> Seq<u8> {
    let patch = patch_of(data, line, placement, replacement, borrowed);
    match placement {
        Placement::Over => patch.text,
        Placement::After => line.whole(data) + patch.text,
        Placement::Before => patch.text + line.whole(data),
    }
}

/// The text from `at` on as an edit leaves it, line by line: the first `budget` lines the name
/// names are edited, and every other line is as it was.
pub open spec fn edited_from(
    data: Seq<u8>,
    at: int,
    newlines: Newlines,
    name: HashPrefix,
    placement: Placement,
    replacement: Seq<u8>,
    borrowed: Seq<u8>,
    budget: nat,
) -> Seq<u8>
    decreases data.len() - at,
{
    if at < 0 || at >= data.len() {
        Seq::empty()
    } else {
        let line = line_at(data, at, newlines);
        proof {
            lemma_lines_step(data, at, newlines);
        }
        if line.end <= at {
            Seq::empty()
        } else if budget > 0 && names(name, data, line) {
            edited_line(data, line, placement, replacement, borrowed) + edited_from(
                data,
                line.end,
                newlines,
                name,
                placement,
                replacement,
                borrowed,
                (budget - 1) as nat,
            )
        } else {
            line.whole(data) + edited_from(
                data,
                line.end,
                newlines,
                name,
                placement,
                replacement,
                borrowed,
                budget,
            )
        }
    }
}

/// An edit by name changes only lines it names: the result is the text line by line, the named
/// lines edited, as many as the mode acts on, and every other line byte for byte as it was.
pub proof fn an_edit_by_name_changes_only_named_lines(
    data: Seq<u8>,
    newlines: Newlines,
    name: HashPrefix,
    placement: Placement,
    occurrences: Occurrences,
    replacement: Seq<u8>,
)
    requires
        resolved(data, newlines, name, placement, occurrences, replacement) is Ok,
    ensures
        patched(
            data,
            resolved(data, newlines, name, placement, occurrences, replacement)->Ok_0,
            0,
        ) == edited_from(
            data,
            0,
            newlines,
            name,
            placement,
            replacement,
            prevailing(data, newlines),
            if occurrences == Occurrences::All {
                named_from(data, 0, newlines, name).len()
            } else {
                1
            },
        ),
{
    let named = named_from(data, 0, newlines, name);
    let borrowed = prevailing(data, newlines);
    let budget: nat = if occurrences == Occurrences::All {
        named.len()
    } else {
        1
    };
    lemma_edited_from(data, 0, newlines, name, placement, replacement, borrowed, budget);
    assert(named.take(named.len() as int) =~= named);
}

/// Text before the first patch passes through as it is.
proof fn lemma_patched_later(data: Seq<u8>, all: Seq<Patch>, from: int, later: int)
    requires
        0 <= from <= later <= data.len(),
        all.len() > 0 ==> later <= all[0].start <= data.len(),
    ensures
        patched(data, all, from) == data.subrange(from, later) + patched(data, all, later),
{
    if all.len() > 0 {
        assert(data.subrange(from, all[0].start) =~= data.subrange(from, later) + data.subrange(
            later,
            all[0].start,
        ));
        let tail = patched(data, all.drop_first(), all[0].end);
        assert((data.subrange(from, later) + data.subrange(later, all[0].start)) + all[0].text
            + tail =~= data.subrange(from, later) + (data.subrange(later, all[0].start)
            + all[0].text + tail));
    } else {
        assert(data.subrange(from, data.len() as int) =~= data.subrange(from, later)
            + data.subrange(later, data.len() as int));
    }
}

/// Patching a line and what follows it is the edited line, and then what follows it patched.
proof fn lemma_patched_line(
    data: Seq<u8>,
    line: Line,
    all: Seq<Patch>,
    placement: Placement,
    replacement: Seq<u8>,
    borrowed: Seq<u8>,
)
    requires
        0 <= line.start <= line.end <= data.len(),
        all.len() > 0,
        all[0] == patch_of(data, line, placement, replacement, borrowed),
        all.len() > 1 ==> line.end <= all[1].start <= data.len(),
    ensures
        patched(data, all, line.start) == edited_line(
            data,
            line,
            placement,
            replacement,
            borrowed,
        ) + patched(data, all.drop_first(), line.end),
{
    let later = all.drop_first();
    let tail = patched(data, later, line.end);
    let text = all[0].text;
    assert(data.subrange(line.start, line.start) =~= Seq::empty());
    match placement {
        Placement::Over => {
            assert(Seq::empty() + text + tail =~= text + tail);
        },
        Placement::After => {},
        Placement::Before => {
            lemma_patched_later(data, later, line.start, line.end);
            assert(Seq::empty() + text + (line.whole(data) + tail) =~= text + line.whole(data)
                + tail);
        },
    }
}

/// Patching the named lines is editing line by line.
proof fn lemma_edited_from(
    data: Seq<u8>,
    at: int,
    newlines: Newlines,
    name: HashPrefix,
    placement: Placement,
    replacement: Seq<u8>,
    borrowed: Seq<u8>,
    budget: nat,
)
    requires
        0 <= at <= data.len(),
        budget <= named_from(data, at, newlines, name).len(),
    ensures
        patched(
            data,
            patches_of(
                data,
                named_from(data, at, newlines, name).take(budget as int),
                placement,
                replacement,
                borrowed,
            ),
            at,
        ) == edited_from(data, at, newlines, name, placement, replacement, borrowed, budget),
    decreases data.len() - at,
{
    let named = named_from(data, at, newlines, name);
    let all = patches_of(data, named.take(budget as int), placement, replacement, borrowed);
    lemma_named(data, at, newlines, name);
    if at < data.len() {
        lemma_lines_step(data, at, newlines);
        let line = line_at(data, at, newlines);
        let rest = named_from(data, line.end, newlines, name);
        lemma_named(data, line.end, newlines, name);
        if budget > 0 && names(name, data, line) {
            let fewer = (budget - 1) as nat;
            lemma_edited_from(
                data,
                line.end,
                newlines,
                name,
                placement,
                replacement,
                borrowed,
                fewer,
            );
            let later = patches_of(
                data,
                rest.take(fewer as int),
                placement,
                replacement,
                borrowed,
            );
            assert(named.take(budget as int).drop_first() =~= rest.take(fewer as int));
            assert(all.drop_first() =~= later);
            assert(all[0] == patch_of(data, line, placement, replacement, borrowed));
            if later.len() > 0 {
                assert(later[0] == patch_of(data, rest[0], placement, replacement, borrowed));
            }
            lemma_patched_line(data, line, all, placement, replacement, borrowed);
        } else {
            lemma_edited_from(
                data,
                line.end,
                newlines,
                name,
                placement,
                replacement,
                borrowed,
                budget,
            );
            if names(name, data, line) {
                assert(named.take(0) =~= rest.take(0));
            } else {
                assert(named =~= rest);
            }
            if all.len() > 0 {
                assert(all[0] == patch_of(data, rest[0], placement, replacement, borrowed));
            }
            lemma_patched_later(data, all, at, line.end);
        }
    } else {
        assert(data.subrange(at, data.len() as int) =~= Seq::empty());
    }
}

} // verus!
