//! What calls promise that write and read JSON: a line is parsed as it stands in the
//! file, however the file is cut into reads.
use vstd::prelude::*;

use crate::bytes::{lemma_place, lemma_place_unique, NEWLINE};
use crate::framing::{
    after_record, first_record, holds_record, law_torn_record, lemma_first_record_stays, records,
};
use crate::json::{
    items_of, scan, JsonSerializeError, JsonSerializer, JsonSerializerStream, LogText, Polled,
    Sight,
};
use crate::laws::{json_log, lemma_json_log_records, without_newlines};
use crate::serializer::{
    line_of, scan_chunks, value_of, ChunkSight, JsonDeserializerStream, SerializerError,
    SerializerResult,
};

verus! {

/// Whether each call of `parse` on `line` gives `outcome`.
pub open spec fn always_gives<T, F: Fn(&[u8]) -> Result<T, serde_json::Error>>(
    parse: F,
    line: Seq<u8>,
    outcome: Result<T, serde_json::Error>,
) -> bool {
    forall|slice: &[u8], parsed: Result<T, serde_json::Error>|
        slice@ == line && #[trigger] call_ensures(parse, (slice,), parsed) ==> parsed == outcome
}

proof fn lemma_items_given<T, F: Fn(&[u8]) -> Result<T, serde_json::Error>>(
    parse: F,
    lines: Seq<Seq<u8>>,
    fault: Option<std::io::Error>,
    values: Seq<T>,
    refused: Option<serde_json::Error>,
    items: Seq<Result<T, JsonSerializeError>>,
)
    requires
        items_of(parse, lines, fault, items),
        forall|i: int|
            0 <= i < values.len() ==> always_gives(
                parse,
                #[trigger] lines[i],
                Ok::<T, serde_json::Error>(values[i]),
            ),
        match refused {
            Some(error) => values.len() < lines.len() && always_gives::<T, F>(
                parse,
                lines[values.len() as int],
                Err(error),
            ),
            None => values.len() == lines.len(),
        },
    ensures
        items == values.map_values(|value: T| Ok::<T, JsonSerializeError>(value)) + match (
            refused,
            fault,
        ) {
            (Some(error), _) => seq![
                Err::<T, JsonSerializeError>(JsonSerializeError::SerdeJsonError(error)),
            ],
            (None, Some(error)) => seq![
                Err::<T, JsonSerializeError>(JsonSerializeError::IoError(error)),
            ],
            (None, None) => Seq::empty(),
        },
    decreases lines.len(),
{
    let read = values.map_values(|value: T| Ok::<T, JsonSerializeError>(value));
    if values.len() == 0 {
        if lines.len() > 0 {
            assert(items =~= seq![items[0]]);
        }
        assert(read =~= Seq::empty());
    } else {
        assert(always_gives(parse, lines[0], Ok::<T, serde_json::Error>(values[0])));
        let rest = lines.drop_first();
        let fewer = values.drop_first();
        assert forall|i: int| 0 <= i < fewer.len() implies always_gives(
            parse,
            #[trigger] rest[i],
            Ok::<T, serde_json::Error>(fewer[i]),
        ) by {
            assert(rest[i] == lines[i + 1]);
        }
        if refused is Some {
            assert(rest[fewer.len() as int] == lines[values.len() as int]);
        }
        lemma_items_given(parse, rest, fault, fewer, refused, items.drop_first());
        assert(items =~= seq![items[0]] + items.drop_first());
        assert(read =~= seq![read[0]] + fewer.map_values(
            |value: T| Ok::<T, JsonSerializeError>(value),
        ));
    }
}

/// Reading a log gives what `parse` gives for each line with its newline, from the first
/// on. It ends at a line that is refused, with that error; else, where the reading was
/// cut short, with its fault. What follows the last newline is nothing.
pub proof fn law_log_is_read_line_by_line<T, F: Fn(&[u8]) -> Result<T, serde_json::Error>>(
    json: &JsonSerializer,
    read: LogText,
    parse: &F,
    lines: Seq<Seq<u8>>,
    torn: Seq<u8>,
    values: Seq<T>,
    refused: Option<serde_json::Error>,
    result: Vec<Result<T, JsonSerializeError>>,
)
    requires
        call_ensures(JsonSerializer::read_log::<T, F>, (json, read, parse), result),
        read.bytes@ == json_log(lines) + torn,
        without_newlines(lines),
        !torn.contains(NEWLINE),
        forall|i: int|
            0 <= i < values.len() ==> always_gives(
                *parse,
                (#[trigger] lines[i]).push(NEWLINE),
                Ok::<T, serde_json::Error>(values[i]),
            ),
        match refused {
            Some(error) => values.len() < lines.len() && always_gives::<T, F>(
                *parse,
                lines[values.len() as int].push(NEWLINE),
                Err(error),
            ),
            None => values.len() == lines.len(),
        },
    ensures
        result@ == values.map_values(|value: T| Ok::<T, JsonSerializeError>(value)) + match (
            refused,
            read.fault,
        ) {
            (Some(error), _) => seq![
                Err::<T, JsonSerializeError>(JsonSerializeError::SerdeJsonError(error)),
            ],
            (None, Some(error)) => seq![
                Err::<T, JsonSerializeError>(JsonSerializeError::IoError(error)),
            ],
            (None, None) => Seq::empty(),
        },
{
    law_torn_record(json_log(lines), torn);
    lemma_json_log_records(lines);
    let whole = records(read.bytes@);
    assert forall|i: int| 0 <= i < values.len() implies always_gives(
        *parse,
        #[trigger] whole[i],
        Ok::<T, serde_json::Error>(values[i]),
    ) by {
        assert(whole[i] == lines[i].push(NEWLINE));
    }
    lemma_items_given(*parse, whole, read.fault, values, refused, result@);
}

/// Transactions whose records were written one behind the other are read back as they
/// were: where `parse` gives each value for the record that `serialize` made of it,
/// `read_log` gives all of them.
pub proof fn law_json_log_is_read_as_it_was_written<
    T,
    F: Fn(&[u8]) -> Result<T, serde_json::Error>,
>(
    json: &JsonSerializer,
    texts: Seq<Vec<u8>>,
    written: Seq<Vec<u8>>,
    read: LogText,
    parse: &F,
    values: Seq<T>,
    result: Vec<Result<T, JsonSerializeError>>,
)
    requires
        texts.len() == written.len() == values.len(),
        forall|i: int|
            0 <= i < texts.len() ==> {
                &&& !(#[trigger] texts[i])@.contains(NEWLINE)
                &&& call_ensures(JsonSerializer::serialize, (json, Ok(texts[i])), Ok(written[i]))
                &&& always_gives(*parse, written[i]@, Ok::<T, serde_json::Error>(values[i]))
            },
        read.bytes@ == all_bytes(written),
        read.fault is None,
        call_ensures(JsonSerializer::read_log::<T, F>, (json, read, parse), result),
    ensures
        result@ == values.map_values(|value: T| Ok::<T, JsonSerializeError>(value)),
{
    let lines = texts.map_values(|text: Vec<u8>| text@);
    assert forall|i: int| 0 <= i < lines.len() implies !(#[trigger] lines[i]).contains(NEWLINE) by {
        assert(!texts[i]@.contains(NEWLINE));
    }
    assert forall|i: int| 0 <= i < lines.len() implies (#[trigger] lines[i]).push(NEWLINE)
        == written[i]@ by {
        assert(!texts[i]@.contains(NEWLINE));
    }
    lemma_written_in_a_row(lines, written);
    assert(json_log(lines) + Seq::<u8>::empty() =~= json_log(lines));
    assert forall|i: int| 0 <= i < values.len() implies always_gives(
        *parse,
        (#[trigger] lines[i]).push(NEWLINE),
        Ok::<T, serde_json::Error>(values[i]),
    ) by {
        assert(!texts[i]@.contains(NEWLINE));
    }
    law_log_is_read_line_by_line(
        json,
        read,
        parse,
        lines,
        Seq::empty(),
        values,
        None,
        result,
    );
    let expected = values.map_values(|value: T| Ok::<T, JsonSerializeError>(value));
    assert(expected + Seq::empty() =~= expected);
}

proof fn lemma_written_in_a_row(lines: Seq<Seq<u8>>, written: Seq<Vec<u8>>)
    requires
        lines.len() == written.len(),
        forall|i: int|
            0 <= i < lines.len() ==> (#[trigger] lines[i]).push(NEWLINE) == written[i]@,
    ensures
        json_log(lines) == all_bytes(written),
    decreases lines.len(),
{
    if lines.len() > 0 {
        assert forall|i: int| 0 <= i < lines.len() - 1 implies (
        #[trigger] lines.drop_last()[i]).push(NEWLINE) == written.drop_last()[i]@ by {
            assert(lines.drop_last()[i] == lines[i]);
        }
        lemma_written_in_a_row(lines.drop_last(), written.drop_last());
        assert(lines[lines.len() - 1].push(NEWLINE) == written[written.len() - 1]@);
    }
}

/// The bytes of chunks, one behind the other.
pub open spec fn all_bytes(chunks: Seq<Vec<u8>>) -> Seq<u8>
    decreases chunks.len(),
{
    if chunks.len() == 0 {
        Seq::empty()
    } else {
        all_bytes(chunks.drop_last()) + chunks.last()@
    }
}

proof fn lemma_bytes_from_the_front(chunks: Seq<Vec<u8>>)
    requires
        chunks.len() > 0,
    ensures
        all_bytes(chunks) == chunks[0]@ + all_bytes(chunks.drop_first()),
    decreases chunks.len(),
{
    if chunks.len() == 1 {
        assert(chunks.drop_last() =~= Seq::empty());
        assert(chunks.drop_first() =~= Seq::empty());
        assert(Seq::<u8>::empty() + chunks[0]@ =~= chunks[0]@);
        assert(chunks[0]@ + Seq::<u8>::empty() =~= chunks[0]@);
        assert(all_bytes(chunks.drop_last()) =~= Seq::<u8>::empty());
        assert(all_bytes(chunks.drop_first()) =~= Seq::<u8>::empty());
    } else {
        lemma_bytes_from_the_front(chunks.drop_last());
        assert(chunks.drop_last().drop_first() =~= chunks.drop_first().drop_last());
        assert(all_bytes(chunks) =~= chunks[0]@ + all_bytes(chunks.drop_first()));
    }
}

/// Whether a stream is about to go through `text`: it is what is buffered and what
/// `chunks` hold. Behind the chunks there is `tail`: nothing yet, the end, or a fault.
pub open spec fn is_ahead(
    reads: Seq<Result<Vec<u8>, std::io::Error>>,
    buffered: Seq<u8>,
    chunks: Seq<Vec<u8>>,
    tail: Seq<Result<Vec<u8>, std::io::Error>>,
    text: Seq<u8>,
) -> bool {
    &&& reads == chunks.map_values(|chunk: Vec<u8>| Ok::<Vec<u8>, std::io::Error>(chunk)) + tail
    &&& buffered + all_bytes(chunks) == text
    &&& forall|i: int| 0 <= i < chunks.len() ==> (#[trigger] chunks[i])@.len() > 0
    &&& tail.len() > 0 ==> (tail[0] matches Ok(chunk) ==> chunk@.len() == 0)
}

proof fn lemma_scan_of_text(
    reads: Seq<Result<Vec<u8>, std::io::Error>>,
    buffered: Seq<u8>,
    chunks: Seq<Vec<u8>>,
    tail: Seq<Result<Vec<u8>, std::io::Error>>,
    text: Seq<u8>,
) -> (taken: int)
    requires
        is_ahead(reads, buffered, chunks, tail, text),
    ensures
        0 <= taken <= chunks.len(),
        ({
            let seen = scan(reads, buffered);
            if holds_record(text) {
                &&& is_ahead(seen.reads, seen.buffer, chunks.skip(taken), tail, text)
                &&& holds_record(seen.buffer)
                &&& seen.sight == Sight::Record(first_record(seen.buffer))
            } else {
                &&& seen.buffer == text
                &&& seen.reads == if tail.len() == 0 {
                    tail
                } else {
                    tail.drop_first()
                }
                &&& seen.sight == if tail.len() == 0 {
                    Sight::Nothing
                } else {
                    match tail[0] {
                        Ok(_) => Sight::End,
                        Err(fault) => Sight::Fault(fault),
                    }
                }
            }
        }),
    decreases chunks.len(),
{
    let more = all_bytes(chunks);
    if holds_record(buffered) {
        lemma_first_record_stays(buffered, more);
        assert(chunks.skip(0) =~= chunks);
        0
    } else if chunks.len() == 0 {
        assert(buffered + more =~= buffered);
        assert(reads =~= tail);
        0
    } else {
        lemma_bytes_from_the_front(chunks);
        let rest = chunks.drop_first();
        let as_reads = |chunk: Vec<u8>| Ok::<Vec<u8>, std::io::Error>(chunk);
        assert(chunks[0]@.len() > 0);
        assert(reads[0] == Ok::<Vec<u8>, std::io::Error>(chunks[0]));
        assert(reads.drop_first() =~= rest.map_values(as_reads) + tail);
        assert(buffered + chunks[0]@ + all_bytes(rest) =~= buffered + all_bytes(chunks));
        assert forall|i: int| 0 <= i < rest.len() implies (#[trigger] rest[i])@.len() > 0 by {
            assert(rest[i] == chunks[i + 1]);
        }
        let taken = lemma_scan_of_text(
            reads.drop_first(),
            buffered + chunks[0]@,
            rest,
            tail,
            text,
        );
        assert(rest.skip(taken) =~= chunks.skip(taken + 1));
        taken + 1
    }
}

proof fn lemma_first_line(text: Seq<u8>, line: Seq<u8>, rest: Seq<u8>)
    requires
        text == line.push(NEWLINE) + rest,
        !line.contains(NEWLINE),
    ensures
        holds_record(text),
        first_record(text) == line.push(NEWLINE),
        after_record(text) == rest,
{
    assert forall|i: int| 0 <= i < line.len() implies text[i] != NEWLINE by {
        assert(text[i] == line[i]);
        assert(line.contains(line[i]));
    }
    assert(text[line.len() as int] == NEWLINE);
    lemma_place_unique(text, NEWLINE, line.len() as int);
    assert(first_record(text) =~= line.push(NEWLINE));
    assert(after_record(text) =~= rest);
}

/// A poll gives what `parse` gives for the first line that is ahead, with its newline,
/// however the text is cut into reads. A line that was taken is behind the stream then;
/// one that was refused is still ahead.
pub proof fn law_poll_gives_the_next_line<T, F: Fn(&[u8]) -> Result<T, serde_json::Error>>(
    stream: &mut JsonSerializerStream,
    parse: &F,
    chunks: Seq<Vec<u8>>,
    tail: Seq<Result<Vec<u8>, std::io::Error>>,
    line: Seq<u8>,
    rest: Seq<u8>,
    outcome: Result<T, serde_json::Error>,
    result: Polled<Option<Result<T, JsonSerializeError>>>,
)
    requires
        call_ensures(JsonSerializerStream::poll_next::<T, F>, (stream, parse), result),
        is_ahead(
            old(stream).reads(),
            old(stream).buffered(),
            chunks,
            tail,
            line.push(NEWLINE) + rest,
        ),
        !line.contains(NEWLINE),
        always_gives(*parse, line.push(NEWLINE), outcome),
    ensures
        match outcome {
            Ok(value) => {
                &&& result == Polled::Ready(Some(Ok::<T, JsonSerializeError>(value)))
                &&& exists|taken: int|
                    0 <= taken <= chunks.len() && is_ahead(
                        final(stream).reads(),
                        final(stream).buffered(),
                        #[trigger] chunks.skip(taken),
                        tail,
                        rest,
                    )
            },
            Err(error) => {
                &&& result == Polled::Ready(
                    Some(Err::<T, _>(JsonSerializeError::SerdeJsonError(error))),
                )
                &&& exists|taken: int|
                    0 <= taken <= chunks.len() && is_ahead(
                        final(stream).reads(),
                        final(stream).buffered(),
                        #[trigger] chunks.skip(taken),
                        tail,
                        line.push(NEWLINE) + rest,
                    )
            },
        },
{
    let text = line.push(NEWLINE) + rest;
    lemma_first_line(text, line, rest);
    let taken = lemma_scan_of_text(
        old(stream).reads(),
        old(stream).buffered(),
        chunks,
        tail,
        text,
    );
    let seen = scan(old(stream).reads(), old(stream).buffered());
    lemma_first_record_stays(seen.buffer, all_bytes(chunks.skip(taken)));
    assert(first_record(seen.buffer) == line.push(NEWLINE));
    if outcome is Ok {
        assert(is_ahead(
            final(stream).reads(),
            final(stream).buffered(),
            chunks.skip(taken),
            tail,
            rest,
        ));
    }
}

/// Where no line is ahead, a poll gives what stands behind the reads: the end, or the
/// fault. Where there is nothing, it waits. The bytes that were read are kept.
pub proof fn law_poll_waits_for_a_whole_line<T, F: Fn(&[u8]) -> Result<T, serde_json::Error>>(
    stream: &mut JsonSerializerStream,
    parse: &F,
    chunks: Seq<Vec<u8>>,
    tail: Seq<Result<Vec<u8>, std::io::Error>>,
    text: Seq<u8>,
    result: Polled<Option<Result<T, JsonSerializeError>>>,
)
    requires
        call_ensures(JsonSerializerStream::poll_next::<T, F>, (stream, parse), result),
        is_ahead(old(stream).reads(), old(stream).buffered(), chunks, tail, text),
        !text.contains(NEWLINE),
    ensures
        final(stream).buffered() == text,
        if tail.len() == 0 {
            result is Pending && final(stream).reads().len() == 0
        } else {
            &&& final(stream).reads() == tail.drop_first()
            &&& match tail[0] {
                Ok(_) => result == Polled::Ready(None::<Result<T, JsonSerializeError>>),
                Err(fault) => result == Polled::Ready(
                    Some(Err::<T, _>(JsonSerializeError::IoError(fault))),
                ),
            }
        },
{
    lemma_place(text, NEWLINE);
    let taken = lemma_scan_of_text(
        old(stream).reads(),
        old(stream).buffered(),
        chunks,
        tail,
        text,
    );
}

proof fn lemma_value_given<T, F: Fn(&[u8]) -> Result<T, serde_json::Error>>(
    parse: F,
    line: Seq<u8>,
    outcome: Result<T, serde_json::Error>,
    item: SerializerResult<T, serde_json::Error>,
)
    requires
        value_of(parse, line, item),
        always_gives(parse, line, outcome),
    ensures
        item == is_given(outcome),
{
}

/// What stands for the outcome of parsing a line.
pub open spec fn is_given<T>(outcome: Result<T, serde_json::Error>) -> SerializerResult<
    T,
    serde_json::Error,
> {
    match outcome {
        Ok(value) => Ok(value),
        Err(error) => Err(SerializerError::ErrorDeserializing(error)),
    }
}

/// Reading a file gives what `parse` gives for each line, in order; those that it
/// refuses too. What follows the last newline is nothing.
pub proof fn law_file_is_read_line_by_line<T, F: Fn(&[u8]) -> Result<T, serde_json::Error>>(
    json: &crate::serializer::JsonSerializer,
    bytes: Vec<u8>,
    parse: &F,
    lines: Seq<Seq<u8>>,
    torn: Seq<u8>,
    outcomes: Seq<Result<T, serde_json::Error>>,
    result: Vec<SerializerResult<T, serde_json::Error>>,
)
    requires
        call_ensures(
            crate::serializer::JsonSerializer::read_file::<T, F>,
            (json, bytes, parse),
            result,
        ),
        bytes@ == json_log(lines) + torn,
        without_newlines(lines),
        !torn.contains(NEWLINE),
        outcomes.len() == lines.len(),
        forall|i: int|
            0 <= i < lines.len() ==> always_gives(*parse, #[trigger] lines[i], outcomes[i]),
    ensures
        result@ == outcomes.map_values(|outcome: Result<T, serde_json::Error>| is_given(outcome)),
{
    law_torn_record(json_log(lines), torn);
    lemma_json_log_records(lines);
    let whole = records(bytes@);
    let expected = outcomes.map_values(
        |outcome: Result<T, serde_json::Error>| is_given(outcome),
    );
    assert forall|i: int| 0 <= i < result@.len() implies result@[i] == expected[i] by {
        assert(value_of(*parse, line_of(whole[i]), result@[i]));
        assert(line_of(whole[i]) =~= lines[i]);
        assert(always_gives(*parse, lines[i], outcomes[i]));
        lemma_value_given(*parse, lines[i], outcomes[i], result@[i]);
    }
    assert(result@ =~= expected);
}

/// Values whose lines were written one behind the other are read back as they were.
pub proof fn law_json_file_is_read_as_it_was_written<
    T,
    F: Fn(&[u8]) -> Result<T, serde_json::Error>,
>(
    json: &crate::serializer::JsonSerializer,
    texts: Seq<Vec<u8>>,
    written: Seq<Vec<u8>>,
    bytes: Vec<u8>,
    parse: &F,
    values: Seq<T>,
    result: Vec<SerializerResult<T, serde_json::Error>>,
)
    requires
        texts.len() == written.len() == values.len(),
        forall|i: int|
            0 <= i < texts.len() ==> {
                &&& !(#[trigger] texts[i])@.contains(NEWLINE)
                &&& call_ensures(
                    crate::serializer::JsonSerializer::serialize,
                    (json, Ok(texts[i])),
                    Ok(written[i]),
                )
                &&& always_gives(*parse, texts[i]@, Ok::<T, serde_json::Error>(values[i]))
            },
        bytes@ == all_bytes(written),
        call_ensures(
            crate::serializer::JsonSerializer::read_file::<T, F>,
            (json, bytes, parse),
            result,
        ),
    ensures
        result@ == values.map_values(
            |value: T| Ok::<T, SerializerError<serde_json::Error>>(value),
        ),
{
    let lines = texts.map_values(|text: Vec<u8>| text@);
    let outcomes = values.map_values(|value: T| Ok::<T, serde_json::Error>(value));
    assert forall|i: int| 0 <= i < lines.len() implies !(#[trigger] lines[i]).contains(NEWLINE) by {
        assert(!texts[i]@.contains(NEWLINE));
    }
    assert forall|i: int| 0 <= i < lines.len() implies (#[trigger] lines[i]).push(NEWLINE)
        == written[i]@ by {
        assert(!texts[i]@.contains(NEWLINE));
    }
    lemma_written_in_a_row(lines, written);
    assert(json_log(lines) + Seq::<u8>::empty() =~= json_log(lines));
    assert forall|i: int| 0 <= i < lines.len() implies always_gives(
        *parse,
        #[trigger] lines[i],
        outcomes[i],
    ) by {
        assert(!texts[i]@.contains(NEWLINE));
    }
    law_file_is_read_line_by_line(json, bytes, parse, lines, Seq::empty(), outcomes, result);
    assert(result@ =~= values.map_values(
        |value: T| Ok::<T, SerializerError<serde_json::Error>>(value),
    ));
}

/// Whether a stream of a file is about to go through `text`: it is what is buffered and
/// what the chunks up to the end of the file hold.
pub open spec fn is_ahead_in_file(
    all: Seq<Vec<u8>>,
    buffered: Seq<u8>,
    chunks: Seq<Vec<u8>>,
    tail: Seq<Vec<u8>>,
    text: Seq<u8>,
) -> bool {
    &&& all == chunks + tail
    &&& buffered + all_bytes(chunks) == text
    &&& forall|i: int| 0 <= i < chunks.len() ==> (#[trigger] chunks[i])@.len() > 0
    &&& tail.len() > 0 ==> tail[0]@.len() == 0
}

proof fn lemma_scan_of_file(
    all: Seq<Vec<u8>>,
    buffered: Seq<u8>,
    chunks: Seq<Vec<u8>>,
    tail: Seq<Vec<u8>>,
    text: Seq<u8>,
) -> (taken: int)
    requires
        is_ahead_in_file(all, buffered, chunks, tail, text),
    ensures
        0 <= taken <= chunks.len(),
        ({
            let seen = scan_chunks(all, buffered);
            if holds_record(text) {
                &&& is_ahead_in_file(seen.chunks, seen.buffer, chunks.skip(taken), tail, text)
                &&& holds_record(seen.buffer)
                &&& seen.sight == ChunkSight::Record(first_record(seen.buffer))
            } else {
                &&& seen.buffer == text
                &&& seen.chunks == if tail.len() == 0 {
                    tail
                } else {
                    tail.drop_first()
                }
                &&& seen.sight == if tail.len() == 0 {
                    ChunkSight::Nothing
                } else {
                    ChunkSight::End
                }
            }
        }),
    decreases chunks.len(),
{
    let more = all_bytes(chunks);
    if holds_record(buffered) {
        lemma_first_record_stays(buffered, more);
        assert(chunks.skip(0) =~= chunks);
        0
    } else if chunks.len() == 0 {
        assert(buffered + more =~= buffered);
        assert(all =~= tail);
        0
    } else {
        lemma_bytes_from_the_front(chunks);
        let rest = chunks.drop_first();
        assert(chunks[0]@.len() > 0);
        assert(all[0] == chunks[0]);
        assert(all.drop_first() =~= rest + tail);
        assert(buffered + chunks[0]@ + all_bytes(rest) =~= buffered + all_bytes(chunks));
        assert forall|i: int| 0 <= i < rest.len() implies (#[trigger] rest[i])@.len() > 0 by {
            assert(rest[i] == chunks[i + 1]);
        }
        let taken = lemma_scan_of_file(
            all.drop_first(),
            buffered + chunks[0]@,
            rest,
            tail,
            text,
        );
        assert(rest.skip(taken) =~= chunks.skip(taken + 1));
        taken + 1
    }
}

/// A poll gives what `parse` gives for the first line that is ahead, without its newline,
/// however the file is cut into chunks. The line is behind the stream then, also where
/// it was refused.
pub proof fn law_file_poll_gives_the_next_line<T, F: Fn(&[u8]) -> Result<T, serde_json::Error>>(
    stream: &mut JsonDeserializerStream,
    parse: &F,
    chunks: Seq<Vec<u8>>,
    tail: Seq<Vec<u8>>,
    line: Seq<u8>,
    rest: Seq<u8>,
    outcome: Result<T, serde_json::Error>,
    result: Polled<Option<SerializerResult<T, serde_json::Error>>>,
)
    requires
        call_ensures(JsonDeserializerStream::poll_next::<T, F>, (stream, parse), result),
        is_ahead_in_file(
            old(stream).chunks(),
            old(stream).buffered(),
            chunks,
            tail,
            line.push(NEWLINE) + rest,
        ),
        !line.contains(NEWLINE),
        always_gives(*parse, line, outcome),
    ensures
        result == Polled::Ready(Some(is_given(outcome))),
        exists|taken: int|
            0 <= taken <= chunks.len() && is_ahead_in_file(
                final(stream).chunks(),
                final(stream).buffered(),
                #[trigger] chunks.skip(taken),
                tail,
                rest,
            ),
{
    let text = line.push(NEWLINE) + rest;
    lemma_first_line(text, line, rest);
    let taken = lemma_scan_of_file(
        old(stream).chunks(),
        old(stream).buffered(),
        chunks,
        tail,
        text,
    );
    let seen = scan_chunks(old(stream).chunks(), old(stream).buffered());
    lemma_first_record_stays(seen.buffer, all_bytes(chunks.skip(taken)));
    assert(first_record(seen.buffer) == line.push(NEWLINE));
    assert(line_of(line.push(NEWLINE)) =~= line);
    assert(is_ahead_in_file(
        final(stream).chunks(),
        final(stream).buffered(),
        chunks.skip(taken),
        tail,
        rest,
    ));
}

/// Where no line is ahead, a poll gives the end of the file, or waits. The bytes that
/// were read are kept.
pub proof fn law_file_poll_waits_for_a_whole_line<
    T,
    F: Fn(&[u8]) -> Result<T, serde_json::Error>,
>(
    stream: &mut JsonDeserializerStream,
    parse: &F,
    chunks: Seq<Vec<u8>>,
    tail: Seq<Vec<u8>>,
    text: Seq<u8>,
    result: Polled<Option<SerializerResult<T, serde_json::Error>>>,
)
    requires
        call_ensures(JsonDeserializerStream::poll_next::<T, F>, (stream, parse), result),
        is_ahead_in_file(old(stream).chunks(), old(stream).buffered(), chunks, tail, text),
        !text.contains(NEWLINE),
    ensures
        final(stream).buffered() == text,
        if tail.len() == 0 {
            result is Pending && final(stream).chunks().len() == 0
        } else {
            &&& final(stream).chunks() == tail.drop_first()
            &&& result == Polled::Ready(None::<SerializerResult<T, serde_json::Error>>)
        },
{
    lemma_place(text, NEWLINE);
    let taken = lemma_scan_of_file(
        old(stream).chunks(),
        old(stream).buffered(),
        chunks,
        tail,
        text,
    );
}

/// The buffer gives up its first line, where it holds one, as `parse` reads it; the rest
/// stays.
pub proof fn law_buffer_gives_up_its_first_line<T, F: Fn(&[u8]) -> Result<T, serde_json::Error>>(
    stream: &mut JsonDeserializerStream,
    parse: &F,
    line: Seq<u8>,
    rest: Seq<u8>,
    outcome: Result<T, serde_json::Error>,
    result: Option<SerializerResult<T, serde_json::Error>>,
)
    requires
        call_ensures(JsonDeserializerStream::process_buffer::<T, F>, (stream, parse), result),
        old(stream).buffered() == line.push(NEWLINE) + rest,
        !line.contains(NEWLINE),
        always_gives(*parse, line, outcome),
    ensures
        result == Some(is_given(outcome)),
        final(stream).buffered() == rest,
        final(stream).chunks() == old(stream).chunks(),
{
    lemma_first_line(old(stream).buffered(), line, rest);
    assert(line_of(line.push(NEWLINE)) =~= line);
}

/// A buffer without a newline gives nothing up.
pub proof fn law_buffer_keeps_what_is_no_line<T, F: Fn(&[u8]) -> Result<T, serde_json::Error>>(
    stream: &mut JsonDeserializerStream,
    parse: &F,
    result: Option<SerializerResult<T, serde_json::Error>>,
)
    requires
        call_ensures(JsonDeserializerStream::process_buffer::<T, F>, (stream, parse), result),
        !old(stream).buffered().contains(NEWLINE),
    ensures
        result is None,
        final(stream).buffered() == old(stream).buffered(),
        final(stream).chunks() == old(stream).chunks(),
{
    lemma_place(old(stream).buffered(), NEWLINE);
}

} // verus!
