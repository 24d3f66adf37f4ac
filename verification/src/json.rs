//! Logs of JSON records, and what a log needs of its serializer.
use vstd::prelude::*;
use std::collections::VecDeque;

use crate::bytes::{find, lemma_place, NEWLINE};
use crate::framing::{
    after_record, first_record, holds_record, lemma_first_record_stays, records,
};

verus! {

/// What reading a log file to its end gave: the bytes, and the fault that cut
/// the reading short where one did.
pub struct LogText {
    pub bytes: Vec<u8>,
    pub fault: Option<std::io::Error>,
}

/// The format of a log.
///
/// A log is the encodings of its transactions one behind the other. `encoded`,
/// `transactions` and `write_fault` name what the methods give; that they depend
/// on nothing else is what a serializer promises. An implementation that is itself
/// verified says what they are; another need not mention them.
pub trait Serializer<T> {
    type SerializerError;

    type DeserializeError;

    /// What is appended to a log for `value`.
    closed spec fn encoded(&self, value: T) -> Result<Seq<u8>, Self::SerializerError> {
        arbitrary()
    }

    /// What a log that read as `bytes`, and then failed with `fault` where there
    /// is one, holds. Nothing behind the first error matters.
    closed spec fn transactions(&self, bytes: Seq<u8>, fault: Option<std::io::Error>) -> Seq<
        Result<T, Self::DeserializeError>,
    > {
        arbitrary()
    }

    /// The error that stands for a record that could not be written.
    closed spec fn write_fault(&self, fault: std::io::Error) -> Self::SerializerError {
        arbitrary()
    }

    fn desserialize(&self, read: LogText) -> (result: Vec<Result<T, Self::DeserializeError>>)
        ensures
            result@ == self.transactions(read.bytes@, read.fault),
    ;

    fn serialize(&self, value: &T) -> (result: Result<Vec<u8>, Self::SerializerError>)
        ensures
            match self.encoded(*value) {
                Ok(record) => result matches Ok(bytes) && bytes@ == record,
                Err(error) => result == Err::<Vec<u8>, _>(error),
            },
    ;

    fn write_failed(&self, fault: std::io::Error) -> (result: Self::SerializerError)
        ensures
            result == self.write_fault(fault),
    ;
}

#[derive(Debug)]
pub enum JsonSerializeError {
    IoError(std::io::Error),
    SerdeJsonError(serde_json::Error),
}

impl From<std::io::Error> for JsonSerializeError {
    fn from(error: std::io::Error) -> (result: Self) {
        JsonSerializeError::IoError(error)
    }
}

impl vstd::std_specs::convert::FromSpecImpl<std::io::Error> for JsonSerializeError {
    open spec fn obeys_from_spec() -> bool {
        true
    }

    open spec fn from_spec(error: std::io::Error) -> Self {
        JsonSerializeError::IoError(error)
    }
}

impl From<serde_json::Error> for JsonSerializeError {
    fn from(error: serde_json::Error) -> (result: Self) {
        JsonSerializeError::SerdeJsonError(error)
    }
}

impl vstd::std_specs::convert::FromSpecImpl<serde_json::Error> for JsonSerializeError {
    open spec fn obeys_from_spec() -> bool {
        true
    }

    open spec fn from_spec(error: serde_json::Error) -> Self {
        JsonSerializeError::SerdeJsonError(error)
    }
}

/// Writes each transaction as one line of JSON.
pub struct JsonSerializer {}

impl Default for JsonSerializer {
    fn default() -> (result: Self)
        ensures
            result == (JsonSerializer {  }),
    {
        JsonSerializer {  }
    }
}

/// What came of asking for the next item of a stream.
pub enum Polled<T> {
    Pending,
    Ready(T),
}

/// The transactions of a log that is being read.
///
/// `read` holds what the reads gave that are done and not yet looked at: bytes,
/// no bytes at the end of the log, or the fault of a read.
pub struct JsonSerializerStream {
    read: VecDeque<Result<Vec<u8>, std::io::Error>>,
    buffer: Vec<u8>,
}

/// What a poll comes upon.
pub enum Sight {
    /// No record, and no read to look at.
    Nothing,
    /// The end of the log.
    End,
    /// A read that failed.
    Fault(std::io::Error),
    /// A record.
    Record(Seq<u8>),
}

/// What a poll comes upon, and the reads and the buffered bytes that are left
/// then. A record is still in the buffer.
pub struct Scan {
    pub sight: Sight,
    pub reads: Seq<Result<Vec<u8>, std::io::Error>>,
    pub buffer: Seq<u8>,
}

/// Reads are taken until the buffer holds a record, or there is none to take.
pub open spec fn scan(reads: Seq<Result<Vec<u8>, std::io::Error>>, buffer: Seq<u8>) -> Scan
    decreases reads.len(),
{
    if holds_record(buffer) {
        Scan { sight: Sight::Record(first_record(buffer)), reads, buffer }
    } else if reads.len() == 0 {
        Scan { sight: Sight::Nothing, reads, buffer }
    } else {
        let left = reads.drop_first();
        match reads[0] {
            Err(fault) => Scan { sight: Sight::Fault(fault), reads: left, buffer },
            Ok(chunk) => if chunk@.len() == 0 {
                Scan { sight: Sight::End, reads: left, buffer }
            } else {
                scan(left, buffer + chunk@)
            },
        }
    }
}

/// The bytes of the reads up to the end of the log or to a fault, behind what is
/// buffered; and that fault.
pub open spec fn gathered(reads: Seq<Result<Vec<u8>, std::io::Error>>, buffer: Seq<u8>) -> (
    Seq<u8>,
    Option<std::io::Error>,
)
    decreases reads.len(),
{
    if reads.len() == 0 {
        (buffer, None)
    } else {
        match reads[0] {
            Err(fault) => (buffer, Some(fault)),
            Ok(chunk) => if chunk@.len() == 0 {
                (buffer, None)
            } else {
                gathered(reads.drop_first(), buffer + chunk@)
            },
        }
    }
}

/// Whether `parse` may make `parsed` of `line`.
pub open spec fn parses<T, F: Fn(&[u8]) -> Result<T, serde_json::Error>>(
    parse: F,
    line: Seq<u8>,
    parsed: Result<T, serde_json::Error>,
) -> bool {
    exists|slice: &[u8]| slice@ == line && call_ensures(parse, (slice,), parsed)
}

/// Whether `item` may be what a stream gives for the record `line`.
pub open spec fn item_of<T, F: Fn(&[u8]) -> Result<T, serde_json::Error>>(
    parse: F,
    line: Seq<u8>,
    item: Result<T, JsonSerializeError>,
) -> bool {
    match item {
        Ok(value) => parses(parse, line, Ok(value)),
        Err(JsonSerializeError::SerdeJsonError(error)) => parses(parse, line, Err(error)),
        Err(JsonSerializeError::IoError(_)) => false,
    }
}

/// Whether `items` may be what a stream gives for the records `lines`: an item
/// for each, up to the first that is an error; behind them, where none is, the
/// fault.
pub open spec fn items_of<T, F: Fn(&[u8]) -> Result<T, serde_json::Error>>(
    parse: F,
    lines: Seq<Seq<u8>>,
    fault: Option<std::io::Error>,
    items: Seq<Result<T, JsonSerializeError>>,
) -> bool
    decreases lines.len(),
{
    if lines.len() == 0 {
        match fault {
            None => items.len() == 0,
            Some(error) => items == seq![
                Err::<T, JsonSerializeError>(JsonSerializeError::IoError(error)),
            ],
        }
    } else {
        &&& items.len() > 0
        &&& item_of(parse, lines[0], items[0])
        &&& if items[0] is Ok {
            items_of(parse, lines.drop_first(), fault, items.drop_first())
        } else {
            items.len() == 1
        }
    }
}

/// However a log is cut into reads, its records come one by one in the order in
/// which they stand in the log; behind them, and only there, come its end and the
/// fault that cut the reading short.
pub proof fn law_poll_follows_the_log(reads: Seq<Result<Vec<u8>, std::io::Error>>, buffer: Seq<u8>)
    ensures
        ({
            let seen = scan(reads, buffer);
            let (text, fault) = gathered(reads, buffer);
            match seen.sight {
                Sight::Record(line) => {
                    &&& holds_record(text)
                    &&& line == first_record(text)
                    &&& holds_record(seen.buffer)
                    &&& line == first_record(seen.buffer)
                    &&& gathered(seen.reads, after_record(seen.buffer)) == (
                        after_record(text),
                        fault,
                    )
                },
                Sight::Fault(error) => !holds_record(text) && fault == Some(error),
                Sight::End => !holds_record(text) && fault is None,
                Sight::Nothing => !holds_record(text) && fault is None,
            }
        }),
    decreases reads.len(),
{
    if holds_record(buffer) {
        lemma_gathered_joined(reads, first_record(buffer), after_record(buffer));
        lemma_place(buffer, NEWLINE);
        assert(first_record(buffer) + after_record(buffer) =~= buffer);
        let (text, fault) = gathered(reads, buffer);
        let (rest, _) = gathered(reads, after_record(buffer));
        lemma_gathered_extends(reads, buffer);
        let more = text.skip(buffer.len() as int);
        assert(text =~= buffer + more);
        lemma_first_record_stays(buffer, more);
        assert(after_record(text) =~= text.skip(first_record(buffer).len() as int));
        assert(rest =~= after_record(text));
    } else if reads.len() > 0 && reads[0] is Ok && reads[0]->Ok_0@.len() > 0 {
        law_poll_follows_the_log(reads.drop_first(), buffer + reads[0]->Ok_0@);
    }
}

proof fn lemma_gathered_extends(reads: Seq<Result<Vec<u8>, std::io::Error>>, buffer: Seq<u8>)
    ensures
        gathered(reads, buffer).0.len() >= buffer.len(),
        gathered(reads, buffer).0.take(buffer.len() as int) == buffer,
    decreases reads.len(),
{
    if reads.len() > 0 && reads[0] is Ok && reads[0]->Ok_0@.len() > 0 {
        let longer = buffer + reads[0]->Ok_0@;
        lemma_gathered_extends(reads.drop_first(), longer);
        let text = gathered(reads, buffer).0;
        assert(text.take(buffer.len() as int) =~= text.take(longer.len() as int).take(
            buffer.len() as int,
        ));
        assert(longer.take(buffer.len() as int) =~= buffer);
    } else {
        assert(buffer.take(buffer.len() as int) =~= buffer);
    }
}

proof fn lemma_gathered_joined(
    reads: Seq<Result<Vec<u8>, std::io::Error>>,
    start: Seq<u8>,
    buffer: Seq<u8>,
)
    ensures
        gathered(reads, start + buffer) == (
            start + gathered(reads, buffer).0,
            gathered(reads, buffer).1,
        ),
    decreases reads.len(),
{
    if reads.len() > 0 && reads[0] is Ok && reads[0]->Ok_0@.len() > 0 {
        let chunk = reads[0]->Ok_0@;
        lemma_gathered_joined(reads.drop_first(), start, buffer + chunk);
        assert(start + buffer + chunk =~= start + (buffer + chunk));
    }
}

impl JsonSerializerStream {
    /// The reads that are done and not yet looked at.
    pub closed spec fn reads(&self) -> Seq<Result<Vec<u8>, std::io::Error>> {
        self.read@
    }

    /// The bytes that were read and belong to no item yet.
    pub closed spec fn buffered(&self) -> Seq<u8> {
        self.buffer@
    }

    /// Hands in what one more read gave.
    pub fn feed(&mut self, read: Result<Vec<u8>, std::io::Error>)
        ensures
            final(self).reads() == old(self).reads().push(read),
            final(self).buffered() == old(self).buffered(),
    {
        self.read.push_back(read);
    }

    /// Asks for the next transaction. `Pending` says that one more read has to
    /// be handed in. A record that `parse` refuses stays in the buffer, so that
    /// asking again gives the same record again.
    pub fn poll_next<T, F: Fn(&[u8]) -> Result<T, serde_json::Error>>(&mut self, parse: &F) -> (
    result: Polled<Option<Result<T, JsonSerializeError>>>)
        requires
            forall|line: &[u8]| #[trigger] call_requires(*parse, (line,)),
        ensures
            ({
                let seen = scan(old(self).reads(), old(self).buffered());
                &&& final(self).reads() == seen.reads
                &&& match seen.sight {
                    Sight::Nothing => {
                        &&& result is Pending
                        &&& final(self).buffered() == seen.buffer
                    },
                    Sight::End => {
                        &&& result == Polled::Ready(None::<Result<T, JsonSerializeError>>)
                        &&& final(self).buffered() == seen.buffer
                    },
                    Sight::Fault(error) => {
                        &&& result == Polled::Ready(
                            Some(Err::<T, _>(JsonSerializeError::IoError(error))),
                        )
                        &&& final(self).buffered() == seen.buffer
                    },
                    Sight::Record(line) => {
                        &&& result matches Polled::Ready(Some(item))
                        &&& item_of(*parse, line, item)
                        &&& final(self).buffered() == if item is Ok {
                            after_record(seen.buffer)
                        } else {
                            seen.buffer
                        }
                    },
                }
            }),
    {
        loop
            invariant
                forall|line: &[u8]| #[trigger] call_requires(*parse, (line,)),
                scan(self.reads(), self.buffered()) == scan(old(self).reads(), old(self).buffered()),
            decreases self.read@.len(),
        {
            let at: usize = find(self.buffer.as_slice(), NEWLINE);
            if at < self.buffer.len() {
                let ghost before = self.buffer@;
                let (head, tail) = self.buffer.as_slice().split_at(at + 1);
                assert(head@ =~= first_record(before));
                assert(tail@ =~= after_record(before));
                let parsed: Result<T, serde_json::Error> = parse(head);
                assert(parses::<T, F>(*parse, first_record(before), parsed));
                match parsed {
                    Ok(transaction) => {
                        let mut rest: Vec<u8> = Vec::new();
                        rest.extend_from_slice(tail);
                        assert(rest@ =~= tail@);
                        self.buffer = rest;
                        return Polled::Ready(Some(Ok(transaction)));
                    },
                    Err(error) => {
                        return Polled::Ready(Some(Err(JsonSerializeError::from(error))));
                    },
                }
            }
            let ghost reads = self.read@;
            let ghost buffer = self.buffer@;
            match self.read.pop_front() {
                None => {
                    return Polled::Pending;
                },
                Some(Err(error)) => {
                    assert(self.read@ =~= reads.drop_first());
                    return Polled::Ready(Some(Err(JsonSerializeError::IoError(error))));
                },
                Some(Ok(chunk)) => {
                    assert(self.read@ =~= reads.drop_first());
                    if chunk.len() == 0 {
                        return Polled::Ready(None);
                    }
                    self.buffer.extend_from_slice(chunk.as_slice());
                    assert(self.buffer@ =~= buffer + chunk@);
                },
            }
        }
    }
}

impl JsonSerializer {
    /// The record of a transaction whose JSON is `encoded`.
    pub fn serialize(&self, encoded: Result<Vec<u8>, serde_json::Error>) -> (result: Result<
        Vec<u8>,
        JsonSerializeError,
    >)
        ensures
            match encoded {
                Ok(json) => result matches Ok(record) && record@ == json@.push(NEWLINE),
                Err(error) => result == Err::<Vec<u8>, _>(
                    JsonSerializeError::SerdeJsonError(error),
                ),
            },
    {
        match encoded {
            Ok(json) => {
                let mut record: Vec<u8> = json;
                record.push(NEWLINE);
                Ok(record)
            },
            Err(error) => Err(JsonSerializeError::from(error)),
        }
    }

    /// The stream of a log of which nothing has been read yet.
    pub fn desserialize(&self) -> (result: JsonSerializerStream)
        ensures
            result.reads().len() == 0,
            result.buffered().len() == 0,
    {
        JsonSerializerStream { read: VecDeque::new(), buffer: Vec::new() }
    }

    /// The transactions of a log that was read to its end: those of its records
    /// that `parse` takes, up to the first that it refuses, and the fault that
    /// cut the reading short.
    pub fn read_log<T, F: Fn(&[u8]) -> Result<T, serde_json::Error>>(
        &self,
        read: LogText,
        parse: &F,
    ) -> (result: Vec<Result<T, JsonSerializeError>>)
        requires
            forall|line: &[u8]| #[trigger] call_requires(*parse, (line,)),
        ensures
            items_of(*parse, records(read.bytes@), read.fault, result@),
    {
        let LogText { bytes, fault } = read;
        let ghost lines = records(bytes@);
        let ghost cause = fault;
        let mut stream: JsonSerializerStream = self.desserialize();
        let ghost text = bytes@;
        assert(stream.buffered() =~= Seq::<u8>::empty());
        if bytes.len() > 0 {
            stream.feed(Ok(bytes));
        }
        if let Some(error) = fault {
            stream.feed(Err(error));
        }
        proof {
            reveal_with_fuel(gathered, 3);
            assert(Seq::<u8>::empty() + text =~= text);
            assert(gathered(stream.reads(), stream.buffered()) == (text, cause));
        }
        let mut result: Vec<Result<T, JsonSerializeError>> = Vec::new();
        let mut more: bool = true;
        let ghost mut left = text;
        assert(forall|rest: Seq<Result<T, JsonSerializeError>>| #[trigger]
            (result@ + rest) =~= rest);
        while more
            invariant
                forall|line: &[u8]| #[trigger] call_requires(*parse, (line,)),
                more ==> gathered(stream.reads(), stream.buffered()) == (left, cause),
                more ==> forall|rest: Seq<Result<T, JsonSerializeError>>|
                    items_of(*parse, records(left), cause, rest) ==> items_of(
                        *parse,
                        lines,
                        cause,
                        #[trigger] (result@ + rest),
                    ),
                !more ==> items_of(*parse, lines, cause, result@),
            decreases left.len() + (if more { 1int } else { 0int }),
        {
            let ghost before = result@;
            proof {
                law_poll_follows_the_log(stream.reads(), stream.buffered());
                lemma_place(left, NEWLINE);
            }
            match stream.poll_next(parse) {
                Polled::Ready(Some(item)) => {
                    more = item.is_ok();
                    result.push(item);
                    proof {
                        let one = seq![item];
                        assert(result@ =~= before + one);
                        if !more {
                            assert(items_of(*parse, records(left), cause, one));
                        } else {
                            let next = after_record(left);
                            assert(records(left).drop_first() =~= records(next));
                            assert forall|rest: Seq<Result<T, JsonSerializeError>>|
                                items_of(*parse, records(next), cause, rest) implies items_of(
                                *parse,
                                lines,
                                cause,
                                #[trigger] (result@ + rest),
                            ) by {
                                assert((one + rest).drop_first() =~= rest);
                                assert(items_of(*parse, records(left), cause, one + rest));
                                assert(before + (one + rest) =~= result@ + rest);
                            }
                            left = next;
                        }
                    }
                },
                _ => {
                    more = false;
                    proof {
                        let none = Seq::<Result<T, JsonSerializeError>>::empty();
                        assert(items_of(*parse, records(left), cause, none));
                        assert(before + none =~= before);
                    }
                },
            }
        }
        result
    }
}

} // verus!
