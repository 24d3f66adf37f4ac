//! Serialization and deserialization of the redo log and of snapshots.
//!
//! `JsonSerializer` writes JSON; other formats implement `Serializer`.
use vstd::prelude::*;
use vstd::slice::slice_subrange;
use std::collections::VecDeque;

use crate::bytes::{find, lemma_place, NEWLINE};
use crate::framing::{
    after_record, first_record, holds_record, lemma_first_record_stays, records,
};
use crate::json::{parses, Polled};

verus! {

pub type SerializerResult<T, E> = Result<T, SerializerError<E>>;

/// What went wrong with a value; `E` says why.
#[derive(Debug)]
pub enum SerializerError<E> {
    ErrorSerializing(E),
    ErrorDeserializing(E),
}

/// How transactions and snapshots are written and read.
///
/// `encoded` and `items` name what the methods give; that they depend on nothing
/// else is what a serializer promises. An implementation that is itself verified
/// says what they are; another need not mention them.
pub trait Serializer<T> {
    type Error;

    /// The bytes of `value`.
    closed spec fn encoded(&self, value: T) -> SerializerResult<Seq<u8>, Self::Error> {
        arbitrary()
    }

    /// What a file that holds `bytes` holds.
    closed spec fn items(&self, bytes: Seq<u8>) -> Seq<SerializerResult<T, Self::Error>> {
        arbitrary()
    }

    /// The bytes of a value. The redo log consists of what calls of this method
    /// gave, one behind the other. A snapshot is what one call gave.
    fn serialize(&self, data_to_serialize: &T) -> (result: SerializerResult<Vec<u8>, Self::Error>)
        ensures
            match self.encoded(*data_to_serialize) {
                Ok(bytes) => result matches Ok(made) && made@ == bytes,
                Err(error) => result == Err::<Vec<u8>, _>(error),
            },
    ;

    /// The values of a redo log or a snapshot that was read. All transactions of
    /// a redo log are executed. Only the first value of a snapshot is used.
    fn deserialize(&self, bytes: Vec<u8>) -> (result: Vec<SerializerResult<T, Self::Error>>)
        ensures
            result@ == self.items(bytes@),
    ;
}

/// Writes each value as one line of JSON.
pub struct JsonSerializer {}

/// The values of a file that is being read. `reader` holds the chunks that were
/// read and not yet looked at; one without bytes is the end of the file.
pub struct JsonDeserializerStream {
    reader: VecDeque<Vec<u8>>,
    buf: Vec<u8>,
}

/// The line that a record consists of, without its newline.
pub open spec fn line_of(record: Seq<u8>) -> Seq<u8> {
    record.drop_last()
}

/// Whether `item` may be what a stream gives for `line`.
pub open spec fn value_of<T, F: Fn(&[u8]) -> Result<T, serde_json::Error>>(
    parse: F,
    line: Seq<u8>,
    item: SerializerResult<T, serde_json::Error>,
) -> bool {
    match item {
        Ok(value) => parses(parse, line, Ok(value)),
        Err(SerializerError::ErrorDeserializing(error)) => parses(parse, line, Err(error)),
        Err(SerializerError::ErrorSerializing(_)) => false,
    }
}

/// What a poll comes upon.
pub enum ChunkSight {
    /// No record, and no chunk to look at.
    Nothing,
    /// The end of the file.
    End,
    /// A record.
    Record(Seq<u8>),
}

/// What a poll comes upon, and the chunks and the buffered bytes that are left
/// then. A record is still in the buffer.
pub struct ChunkScan {
    pub sight: ChunkSight,
    pub chunks: Seq<Vec<u8>>,
    pub buffer: Seq<u8>,
}

/// Chunks are taken until the buffer holds a record, or there is none to take.
pub open spec fn scan_chunks(chunks: Seq<Vec<u8>>, buffer: Seq<u8>) -> ChunkScan
    decreases chunks.len(),
{
    if holds_record(buffer) {
        ChunkScan { sight: ChunkSight::Record(first_record(buffer)), chunks, buffer }
    } else if chunks.len() == 0 {
        ChunkScan { sight: ChunkSight::Nothing, chunks, buffer }
    } else if chunks[0]@.len() == 0 {
        ChunkScan { sight: ChunkSight::End, chunks: chunks.drop_first(), buffer }
    } else {
        scan_chunks(chunks.drop_first(), buffer + chunks[0]@)
    }
}

/// The bytes of the chunks up to the end of the file, behind what is buffered.
pub open spec fn joined(chunks: Seq<Vec<u8>>, buffer: Seq<u8>) -> Seq<u8>
    decreases chunks.len(),
{
    if chunks.len() == 0 || chunks[0]@.len() == 0 {
        buffer
    } else {
        joined(chunks.drop_first(), buffer + chunks[0]@)
    }
}

proof fn lemma_joined_starts(chunks: Seq<Vec<u8>>, start: Seq<u8>, buffer: Seq<u8>)
    ensures
        joined(chunks, start + buffer) == start + joined(chunks, buffer),
    decreases chunks.len(),
{
    if chunks.len() > 0 && chunks[0]@.len() > 0 {
        lemma_joined_starts(chunks.drop_first(), start, buffer + chunks[0]@);
        assert(start + buffer + chunks[0]@ =~= start + (buffer + chunks[0]@));
    }
}

/// However a file is cut into chunks, its records come one by one in the order
/// in which they stand in the file.
pub proof fn law_poll_follows_the_file(chunks: Seq<Vec<u8>>, buffer: Seq<u8>)
    ensures
        ({
            let seen = scan_chunks(chunks, buffer);
            let text = joined(chunks, buffer);
            match seen.sight {
                ChunkSight::Record(record) => {
                    &&& holds_record(text)
                    &&& record == first_record(text)
                    &&& record == first_record(seen.buffer)
                    &&& holds_record(seen.buffer)
                    &&& joined(seen.chunks, after_record(seen.buffer)) == after_record(text)
                },
                _ => !holds_record(text),
            }
        }),
    decreases chunks.len(),
{
    if holds_record(buffer) {
        lemma_place(buffer, NEWLINE);
        let record = first_record(buffer);
        let rest = after_record(buffer);
        assert(record + rest =~= buffer);
        lemma_joined_starts(chunks, record, rest);
        lemma_joined_starts(chunks, buffer, Seq::empty());
        assert(buffer + Seq::<u8>::empty() =~= buffer);
        let more = joined(chunks, Seq::empty());
        lemma_first_record_stays(buffer, more);
        lemma_joined_starts(chunks, rest, Seq::empty());
        assert(rest + Seq::<u8>::empty() =~= rest);
    } else if chunks.len() > 0 && chunks[0]@.len() > 0 {
        law_poll_follows_the_file(chunks.drop_first(), buffer + chunks[0]@);
    }
}

impl JsonDeserializerStream {
    /// The chunks that were read and not yet looked at.
    pub closed spec fn chunks(&self) -> Seq<Vec<u8>> {
        self.reader@
    }

    /// The bytes that belong to no item yet.
    pub closed spec fn buffered(&self) -> Seq<u8> {
        self.buf@
    }

    /// The stream of a file of which `reader` was read.
    pub fn new(reader: VecDeque<Vec<u8>>) -> (result: Self)
        ensures
            result.chunks() == reader@,
            result.buffered().len() == 0,
    {
        JsonDeserializerStream { reader, buf: Vec::new() }
    }

    /// Hands in one more chunk.
    pub fn feed(&mut self, chunk: Vec<u8>)
        ensures
            final(self).chunks() == old(self).chunks().push(chunk),
            final(self).buffered() == old(self).buffered(),
    {
        self.reader.push_back(chunk);
    }

    /// Takes the first record of the buffer, where it holds one.
    pub fn process_buffer<T, F: Fn(&[u8]) -> Result<T, serde_json::Error>>(
        &mut self,
        parse: &F,
    ) -> (result: Option<SerializerResult<T, serde_json::Error>>)
        requires
            forall|line: &[u8]| #[trigger] call_requires(*parse, (line,)),
        ensures
            final(self).chunks() == old(self).chunks(),
            if holds_record(old(self).buffered()) {
                &&& result matches Some(item)
                &&& value_of(*parse, line_of(first_record(old(self).buffered())), item)
                &&& final(self).buffered() == after_record(old(self).buffered())
            } else {
                &&& result is None
                &&& final(self).buffered() == old(self).buffered()
            },
    {
        let ghost before = self.buf@;
        let index: usize = find(self.buf.as_slice(), NEWLINE);
        if index == self.buf.len() {
            return None;
        }
        let line = slice_subrange(self.buf.as_slice(), 0, index);
        assert(line@ =~= line_of(first_record(before)));
        let parsed: Result<T, serde_json::Error> = parse(line);
        assert(parses::<T, F>(*parse, line_of(first_record(before)), parsed));
        let data = match parsed {
            Ok(value) => Ok(value),
            Err(error) => Err(SerializerError::ErrorDeserializing(error)),
        };
        let rest: Vec<u8> = self.buf.split_off(index + 1);
        assert(rest@ =~= after_record(before));
        self.buf = rest;
        Some(data)
    }

    /// Asks for the next value. `Pending` says that one more chunk has to be
    /// handed in. A record that `parse` refuses is taken like any other.
    pub fn poll_next<T, F: Fn(&[u8]) -> Result<T, serde_json::Error>>(&mut self, parse: &F) -> (
    result: Polled<Option<SerializerResult<T, serde_json::Error>>>)
        requires
            forall|line: &[u8]| #[trigger] call_requires(*parse, (line,)),
        ensures
            ({
                let seen = scan_chunks(old(self).chunks(), old(self).buffered());
                &&& final(self).chunks() == seen.chunks
                &&& match seen.sight {
                    ChunkSight::Nothing => {
                        &&& result is Pending
                        &&& final(self).buffered() == seen.buffer
                    },
                    ChunkSight::End => {
                        &&& result == Polled::Ready(
                            None::<SerializerResult<T, serde_json::Error>>,
                        )
                        &&& final(self).buffered() == seen.buffer
                    },
                    ChunkSight::Record(record) => {
                        &&& result matches Polled::Ready(Some(item))
                        &&& value_of(*parse, line_of(record), item)
                        &&& final(self).buffered() == after_record(seen.buffer)
                    },
                }
            }),
    {
        loop
            invariant
                forall|line: &[u8]| #[trigger] call_requires(*parse, (line,)),
                scan_chunks(self.chunks(), self.buffered()) == scan_chunks(
                    old(self).chunks(),
                    old(self).buffered(),
                ),
            decreases self.reader@.len(),
        {
            if let Some(data) = self.process_buffer(parse) {
                return Polled::Ready(Some(data));
            }
            let ghost chunks = self.reader@;
            let ghost buffer = self.buf@;
            match self.reader.pop_front() {
                None => {
                    return Polled::Pending;
                },
                Some(chunk) => {
                    assert(self.reader@ =~= chunks.drop_first());
                    if chunk.len() == 0 {
                        return Polled::Ready(None);
                    }
                    let mut chunk: Vec<u8> = chunk;
                    self.buf.append(&mut chunk);
                    assert(self.buf@ =~= buffer + chunks[0]@);
                },
            }
        }
    }
}

impl JsonSerializer {
    pub fn new() -> (result: Self)
        ensures
            result == (JsonSerializer {  }),
    {
        JsonSerializer {  }
    }

    /// The bytes of a value whose JSON is `encoded`.
    pub fn serialize(&self, encoded: Result<Vec<u8>, serde_json::Error>) -> (result:
        SerializerResult<Vec<u8>, serde_json::Error>)
        ensures
            match encoded {
                Ok(json) => result matches Ok(bytes) && bytes@ == json@.push(NEWLINE),
                Err(error) => result == Err::<Vec<u8>, _>(SerializerError::ErrorSerializing(error)),
            },
    {
        match encoded {
            Ok(json) => {
                let mut ser: Vec<u8> = json;
                ser.push(NEWLINE);
                Ok(ser)
            },
            Err(error) => Err(SerializerError::ErrorSerializing(error)),
        }
    }

    /// The stream of a file of which `reader` was read.
    pub fn deserialize(&self, reader: VecDeque<Vec<u8>>) -> (result: JsonDeserializerStream)
        ensures
            result.chunks() == reader@,
            result.buffered().len() == 0,
    {
        JsonDeserializerStream::new(reader)
    }

    /// The values of a file that was read to its end: one for each record.
    pub fn read_file<T, F: Fn(&[u8]) -> Result<T, serde_json::Error>>(
        &self,
        bytes: Vec<u8>,
        parse: &F,
    ) -> (result: Vec<SerializerResult<T, serde_json::Error>>)
        requires
            forall|line: &[u8]| #[trigger] call_requires(*parse, (line,)),
        ensures
            result@.len() == records(bytes@).len(),
            forall|i: int|
                0 <= i < result@.len() ==> value_of(
                    *parse,
                    line_of(records(bytes@)[i]),
                    #[trigger] result@[i],
                ),
    {
        let ghost text = bytes@;
        let mut reader: VecDeque<Vec<u8>> = VecDeque::new();
        reader.push_back(bytes);
        let mut stream: JsonDeserializerStream = self.deserialize(reader);
        let mut result: Vec<SerializerResult<T, serde_json::Error>> = Vec::new();
        let mut more: bool = true;
        let ghost mut left = text;
        proof {
            reveal_with_fuel(joined, 2);
            assert(stream.buffered() =~= Seq::<u8>::empty());
            assert(Seq::<u8>::empty() + text =~= text);
            assert(joined(stream.chunks(), stream.buffered()) =~= text);
            assert(Seq::<Seq<u8>>::empty() + records(text) =~= records(text));
        }
        let ghost mut taken = Seq::<Seq<u8>>::empty();
        while more
            invariant
                forall|line: &[u8]| #[trigger] call_requires(*parse, (line,)),
                more ==> joined(stream.chunks(), stream.buffered()) == left,
                records(text) == taken + records(left),
                taken.len() == result@.len(),
                forall|i: int|
                    0 <= i < taken.len() ==> value_of(
                        *parse,
                        line_of(taken[i]),
                        #[trigger] result@[i],
                    ),
                !more ==> !holds_record(left),
            decreases left.len() + (if more { 1int } else { 0int }),
        {
            proof {
                law_poll_follows_the_file(stream.chunks(), stream.buffered());
                lemma_place(left, NEWLINE);
            }
            match stream.poll_next(parse) {
                Polled::Ready(Some(item)) => {
                    result.push(item);
                    proof {
                        let record = first_record(left);
                        assert(taken + records(left) =~= taken.push(record) + records(
                            after_record(left),
                        ));
                        taken = taken.push(record);
                        left = after_record(left);
                    }
                },
                _ => {
                    more = false;
                },
            }
        }
        assert(records(text) =~= taken);
        result
    }
}

} // verus!
