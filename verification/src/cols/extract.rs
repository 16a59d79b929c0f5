//! Cutting every line into fields and writing the selected ones.

use vstd::prelude::*;
use vstd::utf8::encode_utf8;

use crate::bytes::{decimal, lemma_append, lit, put, put_decimal, put_str};
use crate::cuts::{lemma_lines_shift, line_boundary, lines_split_at_a_boundary, shifted};
use crate::json::{json_text_field_to, text_field, Terminator};
use crate::lines::{lemma_lines_chain, lines, newline_at, Line, LineIter, Newlines};
use crate::sz::{index_of, lemma_index_of, pieces, splits};

use super::columns::indices_of;

verus! {

/// The fields of a line. An empty line has none; a delimiter at the end leaves an empty one.
pub open spec fn fields(line: Seq<u8>, delimiter: Seq<u8>) -> Seq<Seq<u8>> {
    if line.len() == 0 {
        Seq::empty()
    } else {
        pieces(line, delimiter, 0)
    }
}

/// The fields in hand once `limit` of them are, or all of them where nothing limits the split.
pub open spec fn fields_in_hand(
    line: Seq<u8>,
    delimiter: Seq<u8>,
    limit: Option<usize>,
) -> Seq<Seq<u8>> {
    let all = fields(line, delimiter);
    match limit {
        Some(limit) => if limit < all.len() {
            all.take(limit as int)
        } else {
            all
        },
        None => all,
    }
}

/// What these slices hold.
pub open spec fn held(slices: Seq<&[u8]>) -> Seq<Seq<u8>> {
    slices.map_values(|slice: &[u8]| slice@)
}

proof fn lemma_pieces_bound(data: Seq<u8>, needle: Seq<u8>, from: int)
    requires
        0 <= from <= data.len(),
    ensures
        pieces(data, needle, from).len() <= data.len() - from + 1,
    decreases data.len() - from,
{
    lemma_index_of(data, needle, from);
    match index_of(data, needle, from) {
        Some(at) => {
            if needle.len() > 0 {
                lemma_pieces_bound(data, needle, at + needle.len());
            }
        },
        None => {},
    }
}

/// Split a line into `out` on the delimiter. `limit` stops the scan once that many fields are in
/// hand, which turns a whole-line scan into a first-delimiter scan on a wide record.
pub fn split_fields<'a>(
    line: &'a [u8],
    delimiter: &'a [u8],
    limit: Option<usize>,
    out: &mut Vec<&'a [u8]>,
)
    requires
        delimiter@.len() > 0,
        line@.len() < usize::MAX,
    ensures
        held(final(out)@) == fields_in_hand(line@, delimiter@, limit),
{
    out.clear();
    if line.len() == 0 {
        proof {
            assert(held(out@) =~= Seq::empty());
            assert(fields_in_hand(line@, delimiter@, limit) =~= Seq::empty());
        }
        return;
    }
    let most: usize = match limit {
        Some(limit) => limit,
        None => usize::MAX,
    };
    proof {
        lemma_pieces_bound(line@, delimiter@, 0);
    }
    *out = splits(line, delimiter, most);
    assert(held(out@) =~= fields_in_hand(line@, delimiter@, limit));
}

/// These fields with `delimiter` between them.
pub open spec fn fields_joined(parts: Seq<Seq<u8>>, delimiter: Seq<u8>) -> Seq<u8>
    decreases parts.len(),
{
    if parts.len() == 0 {
        Seq::empty()
    } else if parts.len() == 1 {
        parts[0]
    } else {
        parts[0] + delimiter + fields_joined(parts.drop_first(), delimiter)
    }
}

proof fn lemma_pieces_join(data: Seq<u8>, needle: Seq<u8>, from: int)
    requires
        needle.len() > 0,
        0 <= from <= data.len(),
    ensures
        pieces(data, needle, from).len() > 0,
        fields_joined(pieces(data, needle, from), needle) == data.subrange(
            from,
            data.len() as int,
        ),
    decreases data.len() - from,
{
    lemma_index_of(data, needle, from);
    match index_of(data, needle, from) {
        Some(at) => {
            let next = at + needle.len();
            let rest = pieces(data, needle, next);
            lemma_pieces_join(data, needle, next);
            let all = pieces(data, needle, from);
            assert(all.drop_first() =~= rest);
            assert(data.subrange(at, next) == needle);
            assert(data.subrange(from, at) + needle + data.subrange(next, data.len() as int)
                =~= data.subrange(from, data.len() as int));
        },
        None => {},
    }
}

/// Splitting loses nothing: the fields of a line, with the delimiter between them, are the line.
pub proof fn fields_rejoin_into_the_line(line: Seq<u8>, delimiter: Seq<u8>)
    requires
        delimiter.len() > 0,
    ensures
        fields_joined(fields(line, delimiter), delimiter) == line,
{
    if line.len() > 0 {
        lemma_pieces_join(line, delimiter, 0);
        assert(line.subrange(0, line.len() as int) =~= line);
    }
}

/// Which fields to extract and how far each line has to be split.
#[derive(Clone, Copy, Debug)]
pub struct ColumnSelection<'a> {
    /// Zero-based field indices, in output order.
    pub indices: &'a [usize],
    /// How many leading fields to split out, or `None` for the whole line.
    pub limit: Option<usize>,
    /// Separates fields within an input line.
    pub delimiter: &'a [u8],
    /// Drop lines carrying fewer fields than this.
    pub min_columns: Option<usize>,
}

/// Which fields are extracted and how far each line is split.
pub ghost struct Cutting {
    pub indices: Seq<int>,
    pub limit: Option<usize>,
    pub delimiter: Seq<u8>,
    pub min_columns: Option<usize>,
}

impl<'a> View for ColumnSelection<'a> {
    type V = Cutting;

    open spec fn view(&self) -> Cutting {
        Cutting {
            indices: indices_of(self.indices@),
            limit: self.limit,
            delimiter: self.delimiter@,
            min_columns: self.min_columns,
        }
    }
}

/// How many leading fields hold every index.
pub open spec fn reach(indices: Seq<int>) -> int
    decreases indices.len(),
{
    if indices.len() == 0 {
        0
    } else {
        let earlier = reach(indices.drop_last());
        if earlier < indices.last() + 1 {
            indices.last() + 1
        } else {
            earlier
        }
    }
}

impl<'a> ColumnSelection<'a> {
    /// Select `indices`, splitting only as far as the furthest of them reaches. A minimum tests the
    /// total column count, so it forfeits that early stop.
    pub fn new(
        indices: &'a [usize],
        delimiter: &'a [u8],
        min_columns: Option<usize>,
    ) -> (selection: Self)
        requires
            forall|i: int| 0 <= i < indices@.len() ==> #[trigger] indices@[i] < usize::MAX,
        ensures
            selection.indices == indices,
            selection.delimiter == delimiter,
            selection.min_columns == min_columns,
            match selection.limit {
                Some(limit) => min_columns is None && limit == reach(indices_of(indices@)),
                None => min_columns is Some,
            },
    {
        if min_columns.is_some() {
            return ColumnSelection { indices, limit: None, delimiter, min_columns };
        }
        let mut furthest: usize = 0;
        let mut at: usize = 0;
        let ghost whole = indices_of(indices@);
        assert(whole.take(0) =~= Seq::empty());
        while at < indices.len()
            invariant
                at <= indices@.len(),
                whole == indices_of(indices@),
                furthest == reach(whole.take(at as int)),
                forall|i: int| 0 <= i < indices@.len() ==> #[trigger] indices@[i] < usize::MAX,
            decreases indices@.len() - at,
        {
            assert(whole.take(at + 1).drop_last() =~= whole.take(at as int));
            let index: usize = indices[at];
            if furthest < index + 1 {
                furthest = index + 1;
            }
            at += 1;
        }
        assert(whole.take(at as int) =~= whole);
        ColumnSelection { indices, limit: Some(furthest), delimiter, min_columns }
    }
}

/// How the records of a run are written.
#[derive(Clone, Copy, Debug)]
pub struct OutputConfig<'a> {
    pub json: bool,
    pub terminator: Terminator,
    /// Separates fields within one record; a JSON record nests them instead.
    pub output_delimiter: &'a [u8],
    /// Input name carried into the JSON envelope.
    pub path: &'a str,
}

/// How the records of a run are written.
pub ghost struct Writing {
    pub json: bool,
    pub terminator: Terminator,
    pub between: Seq<u8>,
    pub path: Seq<char>,
}

impl<'a> View for OutputConfig<'a> {
    type V = Writing;

    open spec fn view(&self) -> Writing {
        Writing {
            json: self.json,
            terminator: self.terminator,
            between: self.output_delimiter@,
            path: self.path@,
        }
    }
}

/// The selected field, or the empty one that a line too short to hold it stands in for.
pub open spec fn field(parts: Seq<Seq<u8>>, index: int) -> Seq<u8> {
    if 0 <= index < parts.len() {
        parts[index]
    } else {
        Seq::empty()
    }
}

/// The selected field, or the empty one that a line too short to hold it stands in for.
pub fn field_at<'a>(fields: &[&'a [u8]], index: usize) -> (selected: &'a [u8])
    ensures
        selected@ == field(held(fields@), index as int),
{
    if index < fields.len() {
        fields[index]
    } else {
        assert(Seq::<u8>::empty() =~= [0u8; 0]@);
        &[]
    }
}

/// The fields at `indices`, with `between` in between.
pub open spec fn chosen_text(parts: Seq<Seq<u8>>, indices: Seq<int>, between: Seq<u8>) -> Seq<u8>
    decreases indices.len(),
{
    if indices.len() == 0 {
        Seq::empty()
    } else {
        chosen_text(parts, indices.drop_last(), between) + (if indices.len() > 1 {
            between
        } else {
            Seq::empty()
        }) + field(parts, indices.last())
    }
}

/// One record as text.
pub open spec fn text_record(
    config: Writing,
    parts: Seq<Seq<u8>>,
    indices: Seq<int>,
) -> Seq<u8> {
    chosen_text(parts, indices, config.between) + seq![config.terminator.byte()]
}

/// Write one extracted record as text, closed by the record terminator.
pub fn write_record_text(
    output: &mut Vec<u8>,
    config: &OutputConfig<'_>,
    fields: &[&[u8]],
    column_indices: &[usize],
)
    ensures
        final(output)@ == old(output)@ + text_record(
            config@,
            held(fields@),
            indices_of(column_indices@),
        ),
{
    let ghost parts = held(fields@);
    let ghost between = config.output_delimiter@;
    let ghost whole = indices_of(column_indices@);
    let mut position: usize = 0;
    assert(whole.take(0) =~= Seq::empty());
    while position < column_indices.len()
        invariant
            position <= column_indices@.len(),
            parts == held(fields@),
            whole == indices_of(column_indices@),
            between == config.output_delimiter@,
            output@ == old(output)@ + chosen_text(
                parts,
                whole.take(position as int),
                between,
            ),
        decreases column_indices@.len() - position,
    {
        let ghost next = whole.take(position + 1);
        assert(next.drop_last() =~= whole.take(position as int));
        if position > 0 {
            put(output, config.output_delimiter);
        }
        put(output, field_at(fields, column_indices[position]));
        assert(output@ =~= old(output)@ + chosen_text(parts, next, between));
        position += 1;
    }
    assert(whole.take(position as int) =~= whole);
    output.push(config.terminator.as_byte());
    assert(output@ =~= old(output)@ + text_record(config@, parts, whole));
}

/// The fields at `indices` as the elements of a JSON array.
pub open spec fn chosen_json(parts: Seq<Seq<u8>>, indices: Seq<int>) -> Seq<u8>
    decreases indices.len(),
{
    if indices.len() == 0 {
        Seq::empty()
    } else {
        chosen_json(parts, indices.drop_last()) + (if indices.len() > 1 {
            lit(",")
        } else {
            Seq::empty()
        }) + text_field(field(parts, indices.last()))
    }
}

/// One record as a JSON object, the fields as an array.
pub open spec fn json_record(
    config: Writing,
    parts: Seq<Seq<u8>>,
    indices: Seq<int>,
    line_number: nat,
) -> Seq<u8> {
    lit("{\"type\":\"line\",\"data\":{\"path\":") + text_field(encode_utf8(config.path)) + lit(
        ",\"columns\":[",
    ) + chosen_json(parts, indices) + lit("],\"line_number\":") + decimal(line_number) + lit(
        "}}\n",
    )
}

fn write_columns_json(output: &mut Vec<u8>, fields: &[&[u8]], column_indices: &[usize])
    ensures
        final(output)@ == old(output)@ + chosen_json(held(fields@), indices_of(column_indices@)),
{
    let ghost parts = held(fields@);
    let ghost whole = indices_of(column_indices@);
    let mut position: usize = 0;
    assert(whole.take(0) =~= Seq::empty());
    while position < column_indices.len()
        invariant
            position <= column_indices@.len(),
            parts == held(fields@),
            whole == indices_of(column_indices@),
            output@ == old(output)@ + chosen_json(parts, whole.take(position as int)),
        decreases column_indices@.len() - position,
    {
        let ghost next = whole.take(position + 1);
        assert(next.drop_last() =~= whole.take(position as int));
        if position > 0 {
            put_str(output, ",");
        }
        json_text_field_to(output, field_at(fields, column_indices[position]));
        assert(output@ =~= old(output)@ + chosen_json(parts, next));
        position += 1;
    }
    assert(whole.take(position as int) =~= whole);
}

/// Write one extracted record as a JSON Lines object.
pub fn write_record_json(
    output: &mut Vec<u8>,
    config: &OutputConfig<'_>,
    fields: &[&[u8]],
    column_indices: &[usize],
    line_number: usize,
)
    ensures
        final(output)@ == old(output)@ + json_record(
            config@,
            held(fields@),
            indices_of(column_indices@),
            line_number as nat,
        ),
{
    broadcast use crate::bytes::group_append;

    put_str(output, "{\"type\":\"line\",\"data\":{\"path\":");
    json_text_field_to(output, config.path.as_bytes());
    put_str(output, ",\"columns\":[");
    write_columns_json(output, fields, column_indices);
    put_str(output, "],\"line_number\":");
    put_decimal(output, line_number as u64);
    put_str(output, "}}\n");
}

/// The record a line makes, or nothing where the line has too few fields.
pub open spec fn record_of(
    selection: Cutting,
    config: Writing,
    line: Seq<u8>,
    line_number: nat,
) -> Option<Seq<u8>> {
    let parts = fields_in_hand(line, selection.delimiter, selection.limit);
    if selection.min_columns matches Some(least) && parts.len() < least {
        None
    } else if config.json {
        Some(json_record(config, parts, selection.indices, line_number))
    } else {
        Some(text_record(config, parts, selection.indices))
    }
}

/// The records that these lines make, the first of them being the line behind the `before`-th.
pub open spec fn records(
    selection: Cutting,
    config: Writing,
    texts: Seq<Seq<u8>>,
    before: nat,
) -> Seq<u8>
    decreases texts.len(),
{
    if texts.len() == 0 {
        Seq::empty()
    } else {
        (match record_of(selection, config, texts[0], before + 1) {
            Some(record) => record,
            None => Seq::empty(),
        }) + records(selection, config, texts.drop_first(), before + 1)
    }
}

/// How many of these lines make a record.
pub open spec fn record_count(selection: Cutting, texts: Seq<Seq<u8>>) -> nat
    decreases texts.len(),
{
    if texts.len() == 0 {
        0
    } else {
        let parts = fields_in_hand(texts[0], selection.delimiter, selection.limit);
        (if selection.min_columns matches Some(least) && parts.len() < least {
            0nat
        } else {
            1nat
        }) + record_count(selection, texts.drop_first())
    }
}

/// The lines of `data`, without what ends them.
pub open spec fn line_texts(data: Seq<u8>, newlines: Newlines) -> Seq<Seq<u8>> {
    texts_of(data, lines(data, 0, newlines))
}

/// What these lines of `data` hold.
pub open spec fn texts_of(data: Seq<u8>, all: Seq<Line>) -> Seq<Seq<u8>> {
    all.map_values(|line: Line| line.as_cut(data))
}

/// What an extraction carries between windows, so a second call resumes where the first stopped.
#[derive(Clone, Copy, Debug, PartialEq, Eq, Structural)]
pub struct ColsState {
    /// Input lines seen so far, which a JSON record reports.
    pub line_number: usize,
    /// Records written so far.
    pub emitted: usize,
}

impl Default for ColsState {
    fn default() -> (state: Self)
        ensures
            state == (ColsState { line_number: 0, emitted: 0 }),
    {
        ColsState { line_number: 0, emitted: 0 }
    }
}

/// Extract the selected columns from every line in `data`, resuming from `state`.
pub fn extract_data(
    data: &[u8],
    state: &mut ColsState,
    selection: &ColumnSelection<'_>,
    newlines: Newlines,
    config: &OutputConfig<'_>,
    output: &mut Vec<u8>,
)
    requires
        selection.delimiter@.len() > 0,
        old(state).emitted <= old(state).line_number,
        old(state).line_number + data@.len() <= usize::MAX,
        data@.len() < usize::MAX,
    ensures
        ({
            let texts = line_texts(data@, newlines);
            &&& final(output)@ == old(output)@ + records(
                selection@,
                config@,
                texts,
                old(state).line_number as nat,
            )
            &&& final(state).line_number == old(state).line_number + texts.len()
            &&& final(state).emitted == old(state).emitted + record_count(selection@, texts)
            &&& final(state).emitted <= final(state).line_number
            &&& texts.len() <= data@.len()
        }),
{
    let mut parts: Vec<&[u8]> = Vec::new();
    let mut all = LineIter::new(data, newlines);
    let ghost texts = line_texts(data@, newlines);
    let ghost whole = records(selection@, config@, texts, state.line_number as nat);
    let ghost count = record_count(selection@, texts);
    proof {
        lemma_lines_chain(data@, 0, newlines);
        assert(texts_of(data@, all.remaining()) =~= texts);
    }
    loop
        invariant
            selection.delimiter@.len() > 0,
            all.wf(),
            all.input() == data@,
            state.emitted <= state.line_number,
            state.line_number + all.remaining().len() == old(state).line_number + texts.len(),
            old(state).line_number + data@.len() <= usize::MAX,
            data@.len() < usize::MAX,
            texts.len() <= data@.len(),
            old(output)@ + whole == output@ + records(
                selection@,
                config@,
                texts_of(data@, all.remaining()),
                state.line_number as nat,
            ),
            old(state).emitted + count == state.emitted + record_count(
                selection@,
                texts_of(data@, all.remaining()),
            ),
        ensures
            all.remaining().len() == 0,
        decreases all.remaining().len(),
    {
        let ghost ahead = texts_of(data@, all.remaining());
        let ghost before = output@;
        let ghost number = state.line_number as nat;
        let line: &[u8] = match all.next() {
            Some(line) => line,
            None => {
                break;
            },
        };
        proof {
            assert(ahead.drop_first() =~= texts_of(data@, all.remaining()));
            assert(ahead[0] =~= line@);
        }
        state.line_number = state.line_number + 1;
        split_fields(line, selection.delimiter, selection.limit, &mut parts);
        let dropped = match selection.min_columns {
            Some(least) => parts.len() < least,
            None => false,
        };
        assert(parts@.len() == held(parts@).len());
        let ghost record = record_of(selection@, config@, line@, number + 1);
        if !dropped {
            if config.json {
                write_record_json(
                    output,
                    config,
                    parts.as_slice(),
                    selection.indices,
                    state.line_number,
                );
            } else {
                write_record_text(output, config, parts.as_slice(), selection.indices);
            }
            state.emitted = state.emitted + 1;
            assert(record is Some && output@ == before + record->0);
        } else {
            assert(record is None);
            assert(output@ =~= before + Seq::<u8>::empty());
        }
        proof {
            let text = match record {
                Some(record) => record,
                None => Seq::empty(),
            };
            lemma_append(
                before,
                text,
                records(selection@, config@, ahead.drop_first(), number + 1),
            );
        }
    }
    proof {
        assert(texts_of(data@, all.remaining()) =~= Seq::empty());
        assert(output@ + Seq::<u8>::empty() =~= output@);
    }
}

/// A selection that splits every line to its end.
pub open spec fn unlimited(selection: Cutting) -> Cutting {
    Cutting { limit: None, ..selection }
}

proof fn lemma_reach(indices: Seq<int>, at: int)
    requires
        0 <= at < indices.len(),
    ensures
        indices[at] < reach(indices),
    decreases indices.len(),
{
    if at < indices.len() - 1 {
        lemma_reach(indices.drop_last(), at);
    }
}

proof fn lemma_chosen_agree(
    some: Seq<Seq<u8>>,
    more: Seq<Seq<u8>>,
    indices: Seq<int>,
    between: Seq<u8>,
)
    requires
        forall|i: int|
            0 <= i < indices.len() ==> field(some, #[trigger] indices[i]) == field(
                more,
                indices[i],
            ),
    ensures
        chosen_text(some, indices, between) == chosen_text(more, indices, between),
        chosen_json(some, indices) == chosen_json(more, indices),
    decreases indices.len(),
{
    if indices.len() > 0 {
        let earlier = indices.drop_last();
        assert forall|i: int| 0 <= i < earlier.len() implies field(
            some,
            #[trigger] earlier[i],
        ) == field(more, earlier[i]) by {
            assert(earlier[i] == indices[i]);
        }
        lemma_chosen_agree(some, more, earlier, between);
        assert(indices.last() == indices[indices.len() - 1]);
    }
}

/// Stopping a split once the furthest selected field is in hand writes what splitting every line to
/// its end writes.
pub proof fn stopping_early_changes_nothing(
    selection: Cutting,
    config: Writing,
    texts: Seq<Seq<u8>>,
    before: nat,
)
    requires
        selection.min_columns is None,
        selection.limit matches Some(limit) && limit == reach(selection.indices),
    ensures
        records(selection, config, texts, before) == records(
            unlimited(selection),
            config,
            texts,
            before,
        ),
        record_count(selection, texts) == record_count(unlimited(selection), texts),
    decreases texts.len(),
{
    if texts.len() > 0 {
        let delimiter = selection.delimiter;
        let indices = selection.indices;
        let some = fields_in_hand(texts[0], delimiter, selection.limit);
        let more = fields_in_hand(texts[0], delimiter, None);
        assert forall|i: int| 0 <= i < indices.len() implies field(
            some,
            #[trigger] indices[i],
        ) == field(more, indices[i]) by {
            lemma_reach(indices, i);
        }
        lemma_chosen_agree(some, more, indices, config.between);
        stopping_early_changes_nothing(selection, config, texts.drop_first(), before + 1);
    }
}

/// Cutting a text where a line ends cuts the list of its lines there.
pub proof fn line_texts_join(one: Seq<u8>, two: Seq<u8>, newlines: Newlines)
    requires
        one.len() > 0 ==> line_boundary(one + two, one.len() as int, newlines),
    ensures
        line_texts(one + two, newlines) == line_texts(one, newlines) + line_texts(two, newlines),
{
    let whole = one + two;
    let at = one.len() as int;
    assert(whole.subrange(0, at) =~= one);
    assert(whole.subrange(at, whole.len() as int) =~= two);
    let front = lines(one, 0, newlines);
    let back = lines(two, 0, newlines);
    let moved = back.map_values(|line: Line| shifted(line, at));
    if at > 0 {
        lines_split_at_a_boundary(whole, at, newlines);
    } else {
        assert(front =~= Seq::empty());
        assert(lines(whole, at, newlines) =~= front + lines(whole, at, newlines));
    }
    lemma_lines_shift(whole, at, at, newlines);
    lemma_lines_chain(one, 0, newlines);
    lemma_lines_chain(two, 0, newlines);
    assert forall|i: int| 0 <= i < front.len() implies (#[trigger] front[i]).as_cut(one)
        == front[i].as_cut(whole) by {
        assert(front[i].as_cut(one) =~= front[i].as_cut(whole));
    }
    assert forall|i: int| 0 <= i < back.len() implies (#[trigger] back[i]).as_cut(two)
        == moved[i].as_cut(whole) by {
        assert(back[i].as_cut(two) =~= moved[i].as_cut(whole));
    }
    assert(line_texts(whole, newlines) =~= line_texts(one, newlines) + line_texts(two, newlines));
}

/// The records of some lines and then of others are the records of all of them, numbered on.
pub proof fn records_join(
    selection: Cutting,
    config: Writing,
    one: Seq<Seq<u8>>,
    two: Seq<Seq<u8>>,
    before: nat,
)
    ensures
        records(selection, config, one + two, before) == records(selection, config, one, before)
            + records(selection, config, two, before + one.len()),
        record_count(selection, one + two) == record_count(selection, one) + record_count(
            selection,
            two,
        ),
    decreases one.len(),
{
    if one.len() == 0 {
        assert(one + two =~= two);
        assert(Seq::<u8>::empty() + records(selection, config, two, before) =~= records(
            selection,
            config,
            two,
            before,
        ));
    } else {
        let rest = one.drop_first();
        assert((one + two).drop_first() =~= rest + two);
        records_join(selection, config, rest, two, before + 1);
        let first = match record_of(selection, config, one[0], before + 1) {
            Some(record) => record,
            None => Seq::empty(),
        };
        lemma_append(
            first,
            records(selection, config, rest, before + 1),
            records(selection, config, two, before + one.len()),
        );
    }
}

/// Extracting from an input in two parts, cut behind the end of a line, writes what extracting from
/// the whole does: the second call resumes the numbers of the first, and both together see as many
/// lines and write as many records.
pub proof fn extracting_in_two_parts_extracts_the_whole(
    selection: Cutting,
    config: Writing,
    one: Seq<u8>,
    two: Seq<u8>,
    newlines: Newlines,
    before: nat,
)
    requires
        one.len() > 0 ==> newlines == Newlines::Lf && one.last() == 0x0A || line_boundary(
            one + two,
            one.len() as int,
            newlines,
        ),
    ensures
        ({
            let whole = line_texts(one + two, newlines);
            let front = line_texts(one, newlines);
            let back = line_texts(two, newlines);
            &&& records(selection, config, whole, before) == records(
                selection,
                config,
                front,
                before,
            ) + records(selection, config, back, before + front.len())
            &&& whole.len() == front.len() + back.len()
            &&& record_count(selection, whole) == record_count(selection, front) + record_count(
                selection,
                back,
            )
        }),
{
    if one.len() > 0 && newlines == Newlines::Lf && one.last() == 0x0A {
        let at = one.len() as int;
        assert((one + two)[at - 1] == one.last());
        assert(newline_at(one + two, at - 1, newlines) == 1);
        assert(line_boundary(one + two, at, newlines));
    }
    line_texts_join(one, two, newlines);
    records_join(
        selection,
        config,
        line_texts(one, newlines),
        line_texts(two, newlines),
        before,
    );
}

} // verus!
