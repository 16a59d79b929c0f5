//! What extraction is for: which fields a line has, which lines make a record, and what a record
//! holds.

use vstd::prelude::*;
use vstd::utf8::encode_utf8;

use crate::args::{stripped, stripped_end, stripped_start, white_space};
use crate::bytes::{
    a_number_is_written_in_tens, decimal, decimal_chars, lemma_ascii_bytes, lemma_decimal_chars,
};
use crate::numbers::a_written_number_reads_back;
use crate::sz::{
    byte_count, index_of, lemma_byte_count_joins, lemma_index_of, lemma_none_counted, occurs_at,
    pieces,
};
use crate::text::{char_position, split_on};

use super::columns::{all_columns, column_of, part_columns, selected_columns};
use super::extract::{
    chosen_text, field, fields, fields_in_hand, fields_joined, fields_rejoin_into_the_line,
    record_count, record_of, records, text_record, Cutting, Writing,
};

verus! {

/// Whether `delimiter` stands at `at` in `text`.
pub open spec fn parted_at(text: Seq<u8>, delimiter: Seq<u8>, at: int) -> bool {
    &&& 0 <= at
    &&& at + delimiter.len() <= text.len()
    &&& text.subrange(at, at + delimiter.len()) =~= delimiter
}

proof fn lemma_pieces_parted(line: Seq<u8>, delimiter: Seq<u8>, from: int)
    requires
        delimiter.len() > 0,
        0 <= from <= line.len(),
    ensures
        pieces(line, delimiter, from).len() > 0,
        forall|i: int, at: int|
            #![trigger parted_at(pieces(line, delimiter, from)[i] + delimiter, delimiter, at)]
            0 <= i < pieces(line, delimiter, from).len() - 1 && 0 <= at < pieces(
                line,
                delimiter,
                from,
            )[i].len() ==> !parted_at(
                pieces(line, delimiter, from)[i] + delimiter,
                delimiter,
                at,
            ),
        forall|at: int|
            !#[trigger] parted_at(pieces(line, delimiter, from).last(), delimiter, at),
        delimiter.len() == 1 ==> pieces(line, delimiter, from).len() == byte_count(
            line.subrange(from, line.len() as int),
            delimiter[0],
        ) + 1,
    decreases line.len() - from,
{
    let parts = pieces(line, delimiter, from);
    let rest = line.subrange(from, line.len() as int);
    lemma_index_of(line, delimiter, from);
    match index_of(line, delimiter, from) {
        Some(found) => {
            let next = found + delimiter.len();
            let later = pieces(line, delimiter, next);
            lemma_pieces_parted(line, delimiter, next);
            assert(parts == seq![line.subrange(from, found)] + later);
            assert(parts.last() == later.last());
            let first = parts[0];
            assert(line.subrange(found, next) == delimiter);
            assert(first + delimiter =~= line.subrange(from, next));
            assert forall|i: int, at: int|
                #![trigger parted_at(parts[i] + delimiter, delimiter, at)]
                0 <= i < parts.len() - 1 && 0 <= at < parts[i].len() implies !parted_at(
                parts[i] + delimiter,
                delimiter,
                at,
            ) by {
                if i == 0 {
                    assert(!occurs_at(line, delimiter, from + at));
                    if at + delimiter.len() <= (first + delimiter).len() {
                        assert((first + delimiter).subrange(at, at + delimiter.len())
                            =~= line.subrange(from + at, from + at + delimiter.len()));
                    }
                } else {
                    assert(parts[i] == later[i - 1]);
                    assert(!parted_at(later[i - 1] + delimiter, delimiter, at));
                }
            }
            if delimiter.len() == 1 {
                let behind = line.subrange(next, line.len() as int);
                assert(rest =~= first + delimiter + behind);
                lemma_byte_count_joins(first + delimiter, behind, delimiter[0]);
                lemma_byte_count_joins(first, delimiter, delimiter[0]);
                assert forall|at: int| 0 <= at < first.len() implies first[at] != delimiter[0] by {
                    assert(!occurs_at(line, delimiter, from + at));
                    if first[at] == delimiter[0] {
                        assert(line.subrange(from + at, from + at + 1) =~= delimiter);
                    }
                }
                lemma_none_counted(first, delimiter[0]);
                assert(delimiter.drop_last() =~= Seq::empty());
                reveal_with_fuel(byte_count, 2);
            }
        },
        None => {
            assert(parts =~= seq![rest]);
            assert forall|at: int| !#[trigger] parted_at(rest, delimiter, at) by {
                assert(0 <= at ==> !occurs_at(line, delimiter, from + at));
                if 0 <= at && at + delimiter.len() <= rest.len() {
                    assert(rest.subrange(at, at + delimiter.len()) =~= line.subrange(
                        from + at,
                        from + at + delimiter.len(),
                    ));
                }
            }
            if delimiter.len() == 1 {
                assert forall|at: int| 0 <= at < rest.len() implies rest[at] != delimiter[0] by {
                    assert(!occurs_at(line, delimiter, from + at));
                    if rest[at] == delimiter[0] {
                        assert(line.subrange(from + at, from + at + 1) =~= delimiter);
                    }
                }
                lemma_none_counted(rest, delimiter[0]);
            }
        },
    }
}

/// The fields of a line are what its delimiters part, taken from the left: with the delimiter between
/// them they are the line, no delimiter begins inside one, and a line that holds anything has one
/// field more than it has delimiters. An empty line has none.
pub proof fn delimiters_part_the_fields(line: Seq<u8>, delimiter: Seq<u8>)
    requires
        delimiter.len() > 0,
    ensures
        ({
            let parts = fields(line, delimiter);
            &&& parts.len() == 0 <==> line.len() == 0
            &&& fields_joined(parts, delimiter) == line
            &&& forall|i: int, at: int|
                #![trigger parted_at(parts[i] + delimiter, delimiter, at)]
                0 <= i < parts.len() - 1 && 0 <= at < parts[i].len() ==> !parted_at(
                    parts[i] + delimiter,
                    delimiter,
                    at,
                )
            &&& parts.len() > 0 ==> forall|at: int|
                !#[trigger] parted_at(parts.last(), delimiter, at)
            &&& delimiter.len() == 1 && line.len() > 0 ==> parts.len() == byte_count(
                line,
                delimiter[0],
            ) + 1
        }),
{
    fields_rejoin_into_the_line(line, delimiter);
    if line.len() > 0 {
        lemma_pieces_parted(line, delimiter, 0);
        assert(line.subrange(0, line.len() as int) =~= line);
    }
}

/// A line makes a record exactly where it has as many fields as are asked for: with no minimum and
/// with a minimum of zero every line does, and a line with more fields than another makes one where
/// the other does.
pub proof fn a_line_makes_a_record_by_its_fields(
    selection: Cutting,
    config: Writing,
    line: Seq<u8>,
    longer: Seq<u8>,
    number: nat,
)
    requires
        // Every field is counted, or at least as many as are asked for.
        selection.limit matches Some(limit) ==> (selection.min_columns matches Some(least)
            ==> least <= limit),
    ensures
        record_of(selection, config, line, number) is Some <==> match selection.min_columns {
            Some(least) => least <= fields(line, selection.delimiter).len(),
            None => true,
        },
        selection.min_columns == Some(0usize) ==> record_of(selection, config, line, number) is Some,
        record_of(selection, config, line, number) is Some && fields(
            line,
            selection.delimiter,
        ).len() <= fields(longer, selection.delimiter).len() ==> record_of(
            selection,
            config,
            longer,
            number,
        ) is Some,
{
}

/// The lines that have at least so many fields.
pub open spec fn long_enough(texts: Seq<Seq<u8>>, delimiter: Seq<u8>, least: int) -> Seq<Seq<u8>>
    decreases texts.len(),
{
    if texts.len() == 0 {
        Seq::empty()
    } else {
        (if least <= fields(texts[0], delimiter).len() {
            seq![texts[0]]
        } else {
            Seq::empty()
        }) + long_enough(texts.drop_first(), delimiter, least)
    }
}

/// With a minimum as many records are written as there are lines with at least so many fields, and
/// as text they are what those lines alone would have given; without one every line gives a record.
pub proof fn short_lines_alone_are_dropped(
    selection: Cutting,
    config: Writing,
    texts: Seq<Seq<u8>>,
    before: nat,
    other: nat,
)
    requires
        selection.limit matches Some(limit) ==> (selection.min_columns matches Some(least)
            ==> least <= limit),
    ensures
        match selection.min_columns {
            Some(least) => {
                let kept = long_enough(texts, selection.delimiter, least as int);
                &&& record_count(selection, texts) == kept.len()
                &&& !config.json ==> records(selection, config, texts, before) == records(
                    selection,
                    config,
                    kept,
                    other,
                )
            },
            None => record_count(selection, texts) == texts.len(),
        },
    decreases texts.len(),
{
    if texts.len() > 0 {
        let later = texts.drop_first();
        match selection.min_columns {
            Some(least) => {
                let kept = long_enough(texts, selection.delimiter, least as int);
                let rest = long_enough(later, selection.delimiter, least as int);
                if least <= fields(texts[0], selection.delimiter).len() {
                    short_lines_alone_are_dropped(selection, config, later, before + 1, other + 1);
                    assert(kept == seq![texts[0]] + rest);
                    assert(kept.drop_first() =~= rest);
                    assert(kept[0] == texts[0]);
                } else {
                    short_lines_alone_are_dropped(selection, config, later, before + 1, other);
                    assert(kept =~= rest);
                    assert(record_of(selection, config, texts[0], before + 1) is None);
                    assert(Seq::<u8>::empty() + records(selection, config, later, before + 1)
                        =~= records(selection, config, later, before + 1));
                }
            },
            None => {
                short_lines_alone_are_dropped(selection, config, later, before + 1, other);
            },
        }
    }
}

/// The fields that are asked for, in the order they are asked for; one that the line does not have is
/// empty.
pub open spec fn asked_for(parts: Seq<Seq<u8>>, indices: Seq<int>) -> Seq<Seq<u8>> {
    Seq::new(
        indices.len(),
        |k: int|
            if 0 <= indices[k] < parts.len() {
                parts[indices[k]]
            } else {
                Seq::empty()
            },
    )
}

proof fn lemma_joined_push(parts: Seq<Seq<u8>>, last: Seq<u8>, between: Seq<u8>)
    ensures
        fields_joined(parts.push(last), between) == if parts.len() == 0 {
            last
        } else {
            fields_joined(parts, between) + between + last
        },
    decreases parts.len(),
{
    let all = parts.push(last);
    if parts.len() == 0 {
        assert(all[0] == last);
    } else {
        let rest = parts.drop_first();
        assert(all.drop_first() =~= rest.push(last));
        lemma_joined_push(rest, last, between);
        if rest.len() == 0 {
            assert(all[0] + between + last =~= fields_joined(parts, between) + between + last);
        } else {
            assert(all[0] + between + (fields_joined(rest, between) + between + last) =~= (all[0]
                + between + fields_joined(rest, between)) + between + last);
        }
    }
}

/// A record as text is the fields that are asked for, in that order, with the output delimiter between
/// each two and one terminator behind them.
pub proof fn a_record_holds_the_fields_asked_for(
    config: Writing,
    parts: Seq<Seq<u8>>,
    indices: Seq<int>,
)
    ensures
        text_record(config, parts, indices) == fields_joined(
            asked_for(parts, indices),
            config.between,
        ).push(config.terminator.byte()),
{
    lemma_chosen(parts, indices, config.between);
    assert(text_record(config, parts, indices) =~= fields_joined(
        asked_for(parts, indices),
        config.between,
    ).push(config.terminator.byte()));
}

proof fn lemma_chosen(parts: Seq<Seq<u8>>, indices: Seq<int>, between: Seq<u8>)
    ensures
        chosen_text(parts, indices, between) == fields_joined(asked_for(parts, indices), between),
    decreases indices.len(),
{
    if indices.len() > 0 {
        let fewer = indices.drop_last();
        let last = field(parts, indices.last());
        lemma_chosen(parts, fewer, between);
        assert(asked_for(parts, indices) =~= asked_for(parts, fewer).push(last));
        lemma_joined_push(asked_for(parts, fewer), last, between);
        if fewer.len() == 0 {
            assert(chosen_text(parts, indices, between) =~= last);
        }
    }
}

/// Asking for every field of a line in order, with the delimiter it was split on, gives the line back.
pub proof fn every_field_in_order_is_the_line(
    selection: Cutting,
    config: Writing,
    line: Seq<u8>,
    number: nat,
)
    requires
        selection.delimiter.len() > 0,
        selection.limit is None,
        selection.min_columns is None,
        !config.json,
        config.between == selection.delimiter,
        selection.indices == Seq::new(
            fields(line, selection.delimiter).len(),
            |k: int| k,
        ),
    ensures
        record_of(selection, config, line, number) == Some(line.push(config.terminator.byte())),
{
    let parts = fields(line, selection.delimiter);
    a_record_holds_the_fields_asked_for(config, parts, selection.indices);
    fields_rejoin_into_the_line(line, selection.delimiter);
    assert(asked_for(parts, selection.indices) =~= parts);
    assert(fields_in_hand(line, selection.delimiter, selection.limit) == parts);
}

proof fn lemma_number_alone(value: nat)
    requires
        value <= usize::MAX,
    ensures
        column_of(decimal_chars(value)) is Ok <==> value > 0,
        value > 0 ==> column_of(decimal_chars(value)) == Ok::<int, Seq<char>>(value - 1),
        stripped(decimal_chars(value)) == decimal_chars(value),
        !decimal_chars(value).contains('-'),
{
    let text = decimal_chars(value);
    lemma_decimal_chars(value);
    a_number_is_written_in_tens(value);
    lemma_ascii_bytes(text);
    assert(encode_utf8(text) =~= decimal(value));
    a_written_number_reads_back(value, usize::MAX as int);
    assert('0' <= text[0] <= '9');
    assert('0' <= text[text.len() - 1] <= '9');
    assert(stripped(text) == text);
    if text.contains('-') {
        let at = text.index_of('-');
        assert('0' <= text[at] <= '9');
    }
}

/// A column is asked for by its number, counted from one.
pub proof fn columns_are_counted_from_one(value: nat)
    requires
        value <= usize::MAX,
    ensures
        part_columns(decimal_chars(value)) is Ok <==> value > 0,
        value > 0 ==> part_columns(decimal_chars(value)) == Ok::<Seq<int>, Seq<char>>(
            seq![value - 1],
        ),
{
    lemma_number_alone(value);
}

/// A range takes every column between its ends, and both of them; it reads low to high.
pub proof fn a_range_takes_both_its_ends(low: nat, high: nat)
    requires
        0 < low <= usize::MAX,
        0 < high <= usize::MAX,
    ensures
        ({
            let taken = part_columns(decimal_chars(low) + seq!['-'] + decimal_chars(high));
            &&& taken is Ok <==> low <= high
            &&& taken is Ok ==> taken->Ok_0.len() == high - low + 1 && forall|i: int|
                0 <= i < taken->Ok_0.len() ==> #[trigger] taken->Ok_0[i] == low + i - 1
        }),
{
    let first = decimal_chars(low);
    let second = decimal_chars(high);
    let text = first + seq!['-'] + second;
    lemma_number_alone(low);
    lemma_number_alone(high);
    lemma_decimal_chars(low);
    lemma_decimal_chars(high);
    assert(text[0] == first[0]);
    assert(text.last() == second.last());
    assert('0' <= first[0] <= '9');
    assert('0' <= second[second.len() - 1] <= '9');
    assert(stripped(text) == text);
    let middle = first.len() as int;
    assert(text[middle] == '-');
    assert(text.contains('-'));
    lemma_first_char(text, '-', 0, middle);
    assert(text.subrange(0, middle) =~= first);
    lemma_first_char(text, '-', middle + 1, text.len() as int);
    assert(text.subrange(middle + 1, text.len() as int) =~= second);
    reveal_with_fuel(split_on, 2);
    assert(split_on(text, '-', 0) =~= seq![first, second]);
}

proof fn lemma_first_char(text: Seq<char>, character: char, from: int, at: int)
    requires
        0 <= from <= at <= text.len(),
        forall|i: int| from <= i < at ==> #[trigger] text[i] != character,
        at < text.len() ==> text[at] == character,
    ensures
        char_position(text, character, from) == at,
    decreases at - from,
{
    if from < at {
        lemma_first_char(text, character, from + 1, at);
    }
}

proof fn lemma_split_shifted(front: Seq<char>, text: Seq<char>, separator: char, from: int)
    requires
        0 <= from <= text.len(),
    ensures
        split_on(front + text, separator, front.len() + from) == split_on(text, separator, from),
    decreases text.len() - from,
{
    let whole = front + text;
    lemma_position_shifted(front, text, separator, from);
    let at = char_position(text, separator, from);
    if from <= at < text.len() {
        lemma_split_shifted(front, text, separator, at + 1);
        assert(whole.subrange(front.len() + from, front.len() + at) =~= text.subrange(from, at));
    } else {
        assert(whole.subrange(front.len() + from, whole.len() as int) =~= text.subrange(
            from,
            text.len() as int,
        ));
    }
}

proof fn lemma_position_shifted(front: Seq<char>, text: Seq<char>, separator: char, from: int)
    requires
        0 <= from <= text.len(),
    ensures
        char_position(front + text, separator, front.len() + from) == front.len() + char_position(
            text,
            separator,
            from,
        ),
    decreases text.len() - from,
{
    if from < text.len() {
        assert((front + text)[front.len() + from] == text[from]);
        if text[from] != separator {
            lemma_position_shifted(front, text, separator, from + 1);
        }
    }
}

proof fn lemma_taken_so_far(parts: Seq<Seq<char>>, so_far: Seq<int>)
    ensures
        match (all_columns(parts, so_far), all_columns(parts, Seq::empty())) {
            (Ok(behind), Ok(taken)) => behind == so_far + taken,
            (Err(one), Err(other)) => one == other,
            _ => false,
        },
    decreases parts.len(),
{
    if parts.len() > 0 {
        match part_columns(parts[0]) {
            Err(_) => {},
            Ok(columns) => {
                lemma_taken_so_far(parts.drop_first(), so_far + columns);
                lemma_taken_so_far(parts.drop_first(), Seq::<int>::empty() + columns);
                match all_columns(parts.drop_first(), Seq::empty()) {
                    Err(_) => {},
                    Ok(taken) => {
                        assert(so_far + columns + taken =~= so_far + (Seq::<int>::empty() + columns
                            + taken));
                    },
                }
            },
        }
    } else {
        assert(so_far + Seq::<int>::empty() =~= so_far);
    }
}

proof fn lemma_stripped_holds(text: Seq<char>, at: int)
    requires
        0 <= at < text.len(),
        !white_space(text[at]),
    ensures
        stripped(text).len() > 0,
{
    lemma_start_holds(text, at);
    let rest = stripped_start(text);
    lemma_end_holds(rest);
}

proof fn lemma_start_holds(text: Seq<char>, at: int)
    requires
        0 <= at < text.len(),
        !white_space(text[at]),
    ensures
        stripped_start(text).len() > 0,
        !white_space(stripped_start(text)[0]),
    decreases text.len(),
{
    if white_space(text[0]) {
        assert(text.drop_first()[at - 1] == text[at]);
        lemma_start_holds(text.drop_first(), at - 1);
    }
}

proof fn lemma_end_holds(text: Seq<char>)
    requires
        text.len() > 0,
        !white_space(text[0]),
    ensures
        stripped_end(text).len() > 0,
    decreases text.len(),
{
    if white_space(text.last()) {
        assert(text.drop_last()[0] == text[0]);
        lemma_end_holds(text.drop_last());
    }
}

/// A list is its parts in the order they are written, repeats kept: a comma puts what follows it
/// behind what stands before it, and a part that is none spoils the list.
pub proof fn a_list_is_its_parts_in_order(part: Seq<char>, rest: Seq<char>)
    requires
        !part.contains(','),
    ensures
        part_columns(part) is Ok && selected_columns(rest) is Ok ==> selected_columns(
            part + seq![','] + rest,
        ) == Ok::<Seq<int>, Seq<char>>(part_columns(part)->Ok_0 + selected_columns(rest)->Ok_0),
        part_columns(part) is Err ==> selected_columns(part + seq![','] + rest) is Err,
        selected_columns(rest) is Err && stripped(rest).len() > 0 ==> selected_columns(
            part + seq![','] + rest,
        ) is Err,
        stripped(part).len() > 0 ==> match (selected_columns(part), part_columns(part)) {
            (Ok(one), Ok(other)) => one == other,
            (Err(one), Err(other)) => one == other,
            _ => false,
        },
{
    let text = part + seq![','] + rest;
    let middle = part.len() as int;
    assert(text[middle] == ',');
    lemma_stripped_holds(text, middle);
    assert forall|i: int| 0 <= i < middle implies #[trigger] text[i] != ',' by {
        assert(text[i] == part[i]);
    }
    lemma_first_char(text, ',', 0, middle);
    assert(text.subrange(0, middle) =~= part);
    lemma_split_shifted(part + seq![','], rest, ',', 0);
    let parts = split_on(text, ',', 0);
    assert(parts =~= seq![part] + split_on(rest, ',', 0));
    assert(parts.drop_first() =~= split_on(rest, ',', 0));
    match part_columns(part) {
        Err(_) => {},
        Ok(columns) => {
            assert(Seq::<int>::empty() + columns =~= columns);
            lemma_taken_so_far(split_on(rest, ',', 0), columns);
        },
    }
    lemma_first_char(part, ',', 0, middle);
    assert(part.subrange(0, middle) =~= part);
    assert(split_on(part, ',', 0) =~= seq![part]);
    assert(seq![part].drop_first() =~= Seq::empty());
    reveal_with_fuel(all_columns, 2);
    match part_columns(part) {
        Err(_) => {},
        Ok(columns) => {
            assert(Seq::<int>::empty() + columns =~= columns);
        },
    }
}

} // verus!
