//! StringZilla's kernels, each behind a function whose contract says what the kernel promises.

use vstd::prelude::*;

verus! {

/// Whether `needle` stands at `at` in `haystack`.
pub open spec fn occurs_at(haystack: Seq<u8>, needle: Seq<u8>, at: int) -> bool {
    &&& 0 <= at
    &&& at + needle.len() <= haystack.len()
    &&& haystack.subrange(at, at + needle.len()) == needle
}

/// The first occurrence of `needle` at or after `from`.
pub open spec fn index_of(haystack: Seq<u8>, needle: Seq<u8>, from: int) -> Option<int>
    decreases haystack.len() + 1 - from,
{
    if from < 0 || from + needle.len() > haystack.len() {
        None
    } else if occurs_at(haystack, needle, from) {
        Some(from)
    } else {
        index_of(haystack, needle, from + 1)
    }
}

/// The last occurrence of `needle` that starts at or before `from`.
pub open spec fn last_index_of(haystack: Seq<u8>, needle: Seq<u8>, from: int) -> Option<int>
    decreases from + 1,
{
    if from < 0 {
        None
    } else if occurs_at(haystack, needle, from) {
        Some(from)
    } else {
        last_index_of(haystack, needle, from - 1)
    }
}

/// The first occurrence is an occurrence, and nothing before it is one.
pub proof fn lemma_index_of(haystack: Seq<u8>, needle: Seq<u8>, from: int)
    requires
        0 <= from,
    ensures
        match index_of(haystack, needle, from) {
            Some(at) => from <= at && occurs_at(haystack, needle, at) && (forall|earlier: int|
                from <= earlier < at ==> !occurs_at(haystack, needle, earlier)),
            None => forall|at: int| from <= at ==> !occurs_at(haystack, needle, at),
        },
    decreases haystack.len() + 1 - from,
{
    if from + needle.len() <= haystack.len() && !occurs_at(haystack, needle, from) {
        lemma_index_of(haystack, needle, from + 1);
    }
}

/// `stringzilla::sz::find`: the offset of the first occurrence of `needle`, or `None` when there is
/// none. An empty needle is found at the start.
#[verifier::external_body]
pub(crate) fn find(haystack: &[u8], needle: &[u8]) -> (found: Option<usize>)
    ensures
        match found {
            Some(at) => index_of(haystack@, needle@, 0) == Some(at as int),
            None => index_of(haystack@, needle@, 0) is None,
        },
{
    stringzilla::sz::find(haystack, needle)
}

/// `stringzilla::sz::rfind`: the offset of the last occurrence of `needle`, or `None` when there is
/// none. An empty needle is found at the end.
#[verifier::external_body]
pub(crate) fn rfind(haystack: &[u8], needle: &[u8]) -> (found: Option<usize>)
    ensures
        match found {
            Some(at) => last_index_of(haystack@, needle@, haystack@.len() as int) == Some(
                at as int,
            ),
            None => last_index_of(haystack@, needle@, haystack@.len() as int) is None,
        },
{
    stringzilla::sz::rfind(haystack, needle)
}

/// `stringzilla::sz::find_byteset`: the offset of the first byte of `haystack` that is one of
/// `set`, or `None` when no byte is.
#[verifier::external_body]
pub(crate) fn find_byteset(haystack: &[u8], set: &[u8]) -> (found: Option<usize>)
    ensures
        match found {
            Some(at) => at < haystack@.len() && set@.contains(haystack@[at as int]) && (forall|
                earlier: int,
            |
                0 <= earlier < at ==> !set@.contains(#[trigger] haystack@[earlier])),
            None => forall|at: int|
                0 <= at < haystack@.len() ==> !set@.contains(#[trigger] haystack@[at]),
        },
{
    stringzilla::sz::find_byteset(haystack, stringzilla::sz::Byteset::from(set))
}

/// `stringzilla::sz::rfind_byteset`: the offset of the last byte of `haystack` that is one of
/// `set`, or `None` when no byte is.
#[verifier::external_body]
pub(crate) fn rfind_byteset(haystack: &[u8], set: &[u8]) -> (found: Option<usize>)
    ensures
        match found {
            Some(at) => at < haystack@.len() && set@.contains(haystack@[at as int]) && (forall|
                later: int,
            |
                at < later < haystack@.len() ==> !set@.contains(#[trigger] haystack@[later])),
            None => forall|at: int|
                0 <= at < haystack@.len() ==> !set@.contains(#[trigger] haystack@[at]),
        },
{
    stringzilla::sz::rfind_byteset(haystack, stringzilla::sz::Byteset::from(set))
}

/// Where the first `byte` of `data` stands, if anywhere.
pub fn find_byte(data: &[u8], byte: u8) -> (found: Option<usize>)
    ensures
        match found {
            Some(at) => at < data@.len() && at == crate::bytes::byte_position(data@, byte, 0),
            None => crate::bytes::byte_position(data@, byte, 0) == data@.len(),
        },
{
    let needle: [u8; 1] = [byte];
    let found = find(data, needle.as_slice());
    proof {
        let needle_seq = needle@;
        assert(needle_seq =~= seq![byte]);
        lemma_index_of(data@, needle_seq, 0);
        crate::bytes::lemma_byte_position(data@, byte, 0);
        let at = crate::bytes::byte_position(data@, byte, 0);
        assert forall|i: int| 0 <= i < data@.len() implies (occurs_at(data@, needle_seq, i) <==> data@[i] == byte) by {
            assert(data@.subrange(i, i + 1) =~= seq![data@[i]]);
            assert(seq![data@[i]][0] == data@[i]);
            assert(seq![byte][0] == byte);
        }
        if at < data@.len() {
            assert(occurs_at(data@, needle_seq, at));
        }
    }
    found
}

/// `sz_utf8_split_newlines` with its separators: the lengths of the segments between Unicode
/// newlines and of the newlines between them, in turn, empty segments kept and CRLF one newline.
#[verifier::external_body]
pub(crate) fn newline_parts(data: &[u8]) -> (parts: Vec<usize>)
    ensures
        parts@.len() == crate::lines::part_lengths(data@, 0).len(),
        forall|i: int|
            0 <= i < parts@.len() ==> #[trigger] parts@[i] == crate::lines::part_lengths(
                data@,
                0,
            )[i],
{
    let split = stringzilla::sz::StringZillableUnary::sz_utf8_split_newlines(&data);
    split.with_separators().map(|part| part.len()).collect()
}

/// The length of the Unicode whitespace character that begins at `at`, or zero where none does.
pub open spec fn space_at(data: Seq<u8>, at: int) -> int {
    if at < 0 || at >= data.len() {
        0
    } else if data[at] == 0x20 || 0x09 <= data[at] <= 0x0D {
        1
    } else if data[at] == 0xC2 && at + 1 < data.len() && (data[at + 1] == 0x85 || data[at + 1]
        == 0xA0) {
        2
    } else if data[at] == 0xE1 && at + 2 < data.len() && data[at + 1] == 0x9A && data[at + 2]
        == 0x80 {
        3
    } else if data[at] == 0xE2 && at + 2 < data.len() && data[at + 1] == 0x80 && (0x80 <= data[at
        + 2] <= 0x8A || data[at + 2] == 0xA8 || data[at + 2] == 0xA9 || data[at + 2] == 0xAF) {
        3
    } else if data[at] == 0xE2 && at + 2 < data.len() && data[at + 1] == 0x81 && data[at + 2]
        == 0x9F {
        3
    } else if data[at] == 0xE3 && at + 2 < data.len() && data[at + 1] == 0x80 && data[at + 2]
        == 0x80 {
        3
    } else {
        0
    }
}

/// Where the first whitespace character at or after `from` begins, or the end of `data`.
pub open spec fn next_space(data: Seq<u8>, from: int) -> int
    decreases data.len() - from,
{
    if from < 0 || from >= data.len() {
        data.len() as int
    } else if space_at(data, from) > 0 {
        from
    } else {
        next_space(data, from + 1)
    }
}

/// The segments between whitespace characters from `from` on, empty ones kept: one more than there
/// are whitespace characters.
pub open spec fn segments(data: Seq<u8>, from: int) -> Seq<Seq<u8>>
    decreases data.len() + 1 - from,
{
    if from < 0 || from > data.len() {
        Seq::empty()
    } else {
        let end = next_space(data, from);
        if from <= end < data.len() && space_at(data, end) > 0 {
            seq![data.subrange(from, end)] + segments(data, end + space_at(data, end))
        } else {
            seq![data.subrange(from, data.len() as int)]
        }
    }
}

/// `sz_utf8_split_whitespaces`: the segments between Unicode whitespace characters, in order, empty
/// ones kept.
#[verifier::external_body]
pub(crate) fn whitespace_segments<'a>(data: &'a [u8]) -> (parts: Vec<&'a [u8]>)
    ensures
        parts@.len() == segments(data@, 0).len(),
        forall|i: int| 0 <= i < parts@.len() ==> (#[trigger] parts@[i])@ == segments(data@, 0)[i],
{
    stringzilla::sz::Utf8SplitWhitespaces::<64>::new(data).collect()
}

/// The segments that hold anything, in order.
pub open spec fn nonempty(parts: Seq<Seq<u8>>) -> Seq<Seq<u8>>
    decreases parts.len(),
{
    if parts.len() == 0 {
        Seq::empty()
    } else if parts.last().len() > 0 {
        nonempty(parts.drop_last()).push(parts.last())
    } else {
        nonempty(parts.drop_last())
    }
}

/// The words of `data`: the non-empty segments between whitespace characters.
pub open spec fn words(data: Seq<u8>) -> Seq<Seq<u8>> {
    nonempty(segments(data, 0))
}

/// The words of `data`, in order.
pub(crate) fn split_whitespace<'a>(data: &'a [u8]) -> (tokens: Vec<&'a [u8]>)
    ensures
        tokens@.len() == words(data@).len(),
        forall|i: int| 0 <= i < tokens@.len() ==> (#[trigger] tokens@[i])@ == words(data@)[i],
{
    let parts = whitespace_segments(data);
    let ghost all = segments(data@, 0);
    let mut tokens: Vec<&'a [u8]> = Vec::new();
    let mut index: usize = 0;
    while index < parts.len()
        invariant
            index <= parts@.len(),
            all == segments(data@, 0),
            parts@.len() == all.len(),
            forall|i: int| 0 <= i < parts@.len() ==> (#[trigger] parts@[i])@ == all[i],
            tokens@.len() == nonempty(all.take(index as int)).len(),
            forall|i: int|
                0 <= i < tokens@.len() ==> (#[trigger] tokens@[i])@ == nonempty(
                    all.take(index as int),
                )[i],
        decreases parts@.len() - index,
    {
        let part: &'a [u8] = parts[index];
        proof {
            let next = all.take(index + 1);
            assert(next.drop_last() =~= all.take(index as int));
            assert(next.last() == part@);
        }
        if part.len() > 0 {
            tokens.push(part);
        }
        index += 1;
    }
    assert(all.take(all.len() as int) =~= all);
    tokens
}

/// The hash that `stringzilla::sz::hash` computes of a byte string under seed zero.
pub uninterp spec fn hash_of(data: Seq<u8>) -> u64;

/// `stringzilla::sz::hash`: the 64-bit hash of `data` under seed zero, a function of the bytes
/// alone on every platform.
#[verifier::external_body]
pub(crate) fn hash(data: &[u8]) -> (value: u64)
    ensures
        value == hash_of(data@),
{
    stringzilla::sz::hash(data)
}

/// `stringzilla::sz::Hasher`, the incremental form of the same hash.
#[verifier::external_type_specification]
#[verifier::external_body]
pub struct ExHasher(stringzilla::sz::Hasher);

/// The bytes a hasher has absorbed, in order.
pub uninterp spec fn absorbed(state: stringzilla::sz::Hasher) -> Seq<u8>;

/// `stringzilla::sz::Hasher::new` under seed zero: a hasher that has absorbed nothing.
#[verifier::external_body]
pub(crate) fn hasher() -> (state: stringzilla::sz::Hasher)
    ensures
        absorbed(state) == Seq::<u8>::empty(),
{
    stringzilla::sz::Hasher::new(0)
}

/// `stringzilla::sz::Hasher::update`: absorbs `data` behind what was absorbed before.
#[verifier::external_body]
pub(crate) fn absorb(state: &mut stringzilla::sz::Hasher, data: &[u8])
    ensures
        absorbed(*final(state)) == absorbed(*old(state)) + data@,
{
    state.update(data);
}

/// `stringzilla::sz::Hasher::digest`: the hash of everything absorbed, which is the one-shot hash
/// of those bytes.
#[verifier::external_body]
pub(crate) fn digest(state: &stringzilla::sz::Hasher) -> (value: u64)
    ensures
        value == hash_of(absorbed(*state)),
{
    state.digest()
}

/// The Unicode case folding of a byte string, as `stringzilla::sz::utf8_uncased_fold` writes it.
pub uninterp spec fn folded(data: Seq<u8>) -> Seq<u8>;

/// `stringzilla::sz::utf8_uncased_fold`: writes the case folding of `source` to the front of
/// `scratch` and returns its length, which is at most three times the source's. What stands behind
/// it in `scratch` is left unsaid.
#[verifier::external_body]
pub(crate) fn uncased_fold(source: &[u8], scratch: &mut Vec<u8>) -> (written: usize)
    requires
        3 * source@.len() <= old(scratch)@.len(),
    ensures
        final(scratch)@.len() == old(scratch)@.len(),
        written <= 3 * source@.len(),
        final(scratch)@.subrange(0, written as int) == folded(source@),
{
    stringzilla::sz::utf8_uncased_fold(source, scratch)
}

/// `stringzilla::sz::utf8_uncased_order`: whether two byte strings compare equal, which is whether
/// their case foldings are the same.
#[verifier::external_body]
pub(crate) fn uncased_equal(left: &[u8], right: &[u8]) -> (equal: bool)
    ensures
        equal == (folded(left@) == folded(right@)),
{
    match stringzilla::sz::utf8_uncased_order(left, right) {
        std::cmp::Ordering::Equal => true,
        std::cmp::Ordering::Less => false,
        std::cmp::Ordering::Greater => false,
    }
}

/// The first match of `needle` in `haystack` under Unicode case folding, as an offset and the
/// length it occupies, as `stringzilla::sz::utf8_uncased_search` finds it.
pub uninterp spec fn uncased_match(haystack: Seq<u8>, needle: Seq<u8>) -> Option<(usize, usize)>;

/// `stringzilla::sz::utf8_uncased_search`: a match lies inside the haystack, and a needle with any
/// bytes matches at least one of them.
#[verifier::external_body]
pub(crate) fn uncased_search(haystack: &[u8], needle: &[u8]) -> (found: Option<(usize, usize)>)
    ensures
        found == uncased_match(haystack@, needle@),
        found matches Some((offset, length)) ==> offset + length <= haystack@.len() && (
        needle@.len() > 0 ==> length > 0),
{
    stringzilla::sz::utf8_uncased_search(haystack, needle)
}

/// How many bytes of `data` are not UTF-8 continuation bytes.
pub open spec fn characters(data: Seq<u8>) -> nat
    decreases data.len(),
{
    if data.len() == 0 {
        0
    } else {
        characters(data.drop_last()) + if 0x80 <= data.last() <= 0xBF {
            0nat
        } else {
            1nat
        }
    }
}

/// `stringzilla::sz::count_utf8`: the number of characters, which is the number of bytes that do
/// not continue one.
#[verifier::external_body]
pub(crate) fn count_utf8(data: &[u8]) -> (count: usize)
    ensures
        count == characters(data@),
{
    stringzilla::sz::count_utf8(data)
}

/// What stands between the occurrences of `needle`, from `from` on: one piece more than there are
/// occurrences, taken left to right without overlap.
pub open spec fn pieces(data: Seq<u8>, needle: Seq<u8>, from: int) -> Seq<Seq<u8>>
    decreases data.len() - from,
{
    match index_of(data, needle, from) {
        Some(at) => if needle.len() == 0 || at < from || at + needle.len() > data.len() {
            seq![data.subrange(from, data.len() as int)]
        } else {
            seq![data.subrange(from, at)] + pieces(data, needle, at + needle.len())
        },
        None => seq![data.subrange(from, data.len() as int)],
    }
}

/// `stringzilla::sz::FindSplits`: what stands between the occurrences of `needle`, as many pieces
/// as there are and no more than `limit`.
#[verifier::external_body]
pub(crate) fn splits<'a>(data: &'a [u8], needle: &'a [u8], limit: usize) -> (parts: Vec<&'a [u8]>)
    requires
        needle@.len() > 0,
    ensures
        parts@.len() == if pieces(data@, needle@, 0).len() < limit {
            pieces(data@, needle@, 0).len() as int
        } else {
            limit as int
        },
        forall|i: int|
            0 <= i < parts@.len() ==> (#[trigger] parts@[i])@ == pieces(data@, needle@, 0)[i],
{
    let matcher = stringzilla::sz::MatcherType::Find(needle);
    stringzilla::sz::FindSplits::new(data, matcher).take(limit).collect()
}

/// How many bytes of `data` are `byte`.
pub open spec fn byte_count(data: Seq<u8>, byte: u8) -> nat
    decreases data.len(),
{
    if data.len() == 0 {
        0
    } else {
        byte_count(data.drop_last(), byte) + if data.last() == byte {
            1nat
        } else {
            0nat
        }
    }
}

/// `sz_matches` over a one-byte needle: its matches are the bytes that are `byte`, so counting them
/// counts those.
#[verifier::external_body]
pub(crate) fn count_byte(data: &[u8], byte: u8) -> (count: usize)
    ensures
        count == byte_count(data@, byte),
{
    stringzilla::sz::StringZillableBinary::sz_matches(&data, &[byte]).count()
}

/// Where no byte is `byte`, none is counted.
pub proof fn lemma_none_counted(data: Seq<u8>, byte: u8)
    requires
        forall|at: int| 0 <= at < data.len() ==> data[at] != byte,
    ensures
        byte_count(data, byte) == 0,
    decreases data.len(),
{
    if data.len() > 0 {
        lemma_none_counted(data.drop_last(), byte);
    }
}

/// No more bytes are counted than there are.
pub proof fn lemma_byte_count(data: Seq<u8>, byte: u8)
    ensures
        byte_count(data, byte) <= data.len(),
    decreases data.len(),
{
    if data.len() > 0 {
        lemma_byte_count(data.drop_last(), byte);
    }
}

/// Counting in two parts counts the whole.
pub proof fn lemma_byte_count_joins(one: Seq<u8>, two: Seq<u8>, byte: u8)
    ensures
        byte_count(one + two, byte) == byte_count(one, byte) + byte_count(two, byte),
    decreases two.len(),
{
    if two.len() == 0 {
        assert(one + two =~= one);
    } else {
        assert((one + two).drop_last() =~= one + two.drop_last());
        lemma_byte_count_joins(one, two.drop_last(), byte);
    }
}

} // verus!
