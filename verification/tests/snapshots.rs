use std::collections::VecDeque;
use std::io;

use prevayler_rs::error::PrevaylerError;
use prevayler_rs::json::Polled;
use prevayler_rs::redolog::{
    file_name_for_index, files, get_index_from_file, load_snapshot, process_files,
    process_snapshots, read_index, snapshot_name_for_index, Entry, FileAction, LogRead, OpenLog,
    ReDoLog,
};
use prevayler_rs::serializer::{
    JsonDeserializerStream, JsonSerializer, Serializer, SerializerError, SerializerResult,
};
use prevayler_rs::Transaction;
use serde::de::DeserializeOwned;
use serde::{Deserialize, Serialize};

type Pair = (u8, u8);

struct AddToFirstElement {
    value: u8,
}

impl Serialize for AddToFirstElement {
    fn serialize<S: serde::Serializer>(&self, serializer: S) -> Result<S::Ok, S::Error> {
        serializer.serialize_u8(self.value)
    }
}

impl<'de> Deserialize<'de> for AddToFirstElement {
    fn deserialize<D: serde::Deserializer<'de>>(deserializer: D) -> Result<Self, D::Error> {
        Ok(AddToFirstElement { value: u8::deserialize(deserializer)? })
    }
}

impl Transaction<Pair> for AddToFirstElement {
    type Output = ();

    fn execute(self, data: &mut Pair) {
        data.0 += self.value;
    }
}

struct Json(JsonSerializer);

impl<T: Serialize + DeserializeOwned> Serializer<T> for Json {
    type Error = serde_json::Error;

    fn serialize(&self, value: &T) -> SerializerResult<Vec<u8>, serde_json::Error> {
        self.0.serialize(serde_json::to_vec(value))
    }

    fn deserialize(&self, bytes: Vec<u8>) -> Vec<SerializerResult<T, serde_json::Error>> {
        self.0.read_file(bytes, &|line: &[u8]| serde_json::from_slice::<T>(line))
    }
}

fn json() -> Json {
    Json(JsonSerializer::new())
}

type Log = ReDoLog<AddToFirstElement, Json>;

/// A directory in memory. It lists the file that was created last first.
struct Directory {
    files: Vec<(Vec<u8>, Vec<u8>)>,
    log: usize,
}

impl Directory {
    fn new() -> Self {
        Directory { files: Vec::new(), log: 0 }
    }

    fn names(&self) -> Vec<Vec<u8>> {
        let entry = |name: &Vec<u8>| Ok(Entry { name: name.clone(), is_file: true });
        files(self.files.iter().rev().map(|file| entry(&file.0)).collect()).unwrap()
    }

    fn read(&self, name: Vec<u8>) -> LogRead {
        let contents = Ok(self.contents(&name));
        LogRead { name, contents }
    }

    fn contents(&self, name: &[u8]) -> Vec<u8> {
        self.files.iter().find(|file| file.0 == name).unwrap().1.clone()
    }

    fn text(&self, name: &str) -> String {
        String::from_utf8(self.contents(name.as_bytes())).unwrap()
    }

    fn open(&mut self, open: OpenLog) {
        match open {
            OpenLog::Append(name) => {
                self.log = self.files.iter().position(|file| file.0 == name).unwrap();
            }
            OpenLog::Create(name) => {
                self.files.push((name, Vec::new()));
                self.log = self.files.len() - 1;
            }
        }
    }

    fn perform(&mut self, actions: Vec<FileAction>) {
        for action in actions {
            match action {
                FileAction::CreateLog(name) => self.open(OpenLog::Create(name)),
                FileAction::WriteLog(bytes) => self.files[self.log].1.extend(bytes),
                FileAction::CreateSnapshot(name) => self.files.push((name, Vec::new())),
                FileAction::WriteSnapshot(bytes) => {
                    self.files.last_mut().unwrap().1.extend(bytes)
                }
                FileAction::FlushLog | FileAction::FlushSnapshot => {}
            }
        }
    }

    fn restore(&mut self, max_size: u64, data: &mut Pair) -> Log {
        let read = self.names().into_iter().map(|name| self.read(name)).collect();
        let (log, open) = Log::new(b"dir".to_vec(), max_size, json(), data, read).unwrap();
        self.open(open);
        log
    }

    fn recover(&mut self, max_size: u64, data: &mut Pair) -> Log {
        let selection = process_snapshots(self.names());
        let snapshot = selection.snapshot.map(|name| Ok(self.contents(&name)));
        let read = selection.files.into_iter().map(|name| self.read(name)).collect();
        let (log, open) = Log::new_with_snapshot(
            b"dir".to_vec(),
            max_size,
            json(),
            data,
            selection.index,
            snapshot,
            read,
        )
        .unwrap();
        self.open(open);
        log
    }

    fn execute(&mut self, log: &mut Log, data: &mut Pair, value: u8) {
        let transaction = AddToFirstElement { value };
        let bytes = log.serialize(&transaction).unwrap();
        assert!(log.has_room());
        self.perform(log.write_to_log(bytes));
        transaction.execute(data);
    }

    fn snapshot(&mut self, log: &mut Log, data: &Pair) {
        let (actions, result) = log.snapshot(data);
        assert!(result.is_ok());
        self.perform(actions);
        let next = log.resume_snapshot(Ok(())).unwrap();
        self.perform(vec![next]);
    }

    fn all_names(&self) -> Vec<String> {
        let text = |file: &(Vec<u8>, Vec<u8>)| String::from_utf8(file.0.clone()).unwrap();
        self.files.iter().map(text).collect()
    }
}

fn failure() -> io::Error {
    io::Error::new(io::ErrorKind::Other, "no disk")
}

fn is_failure(error: &io::Error) -> bool {
    error.kind() == io::ErrorKind::Other && error.to_string() == "no disk"
}

fn named(names: &[&str]) -> Vec<Vec<u8>> {
    names.iter().map(|name| name.as_bytes().to_vec()).collect()
}

#[test]
fn redo_log_with_snapshot() {
    let mut temp = Directory::new();
    {
        let mut data = (3, 4);
        let mut log = temp.recover(10, &mut data);
        temp.execute(&mut log, &mut data, 7);
        temp.snapshot(&mut log, &data);
    }
    {
        let mut data = (3, 4);
        let mut log = temp.recover(10, &mut data);
        temp.execute(&mut log, &mut data, 1);
        assert_eq!((11, 4), data);
    }
    {
        let mut data = (0, 0);
        temp.recover(10, &mut data);
        assert_eq!((11, 4), data);
    }
    assert_eq!(
        temp.all_names(),
        ["redolog.log.0000000000", "snapshot.log.0000000001", "redolog.log.0000000002"]
    );
    assert_eq!(temp.text("redolog.log.0000000000"), "7\n");
    assert_eq!(temp.text("snapshot.log.0000000001"), "[10,4]\n");
    assert_eq!(temp.text("redolog.log.0000000002"), "1\n");
}

#[test]
fn a_log_saves_the_state() {
    let mut directory = Directory::new();
    for value in [7, 32] {
        let mut data = (3, 4);
        let mut log = directory.restore(10, &mut data);
        directory.execute(&mut log, &mut data, value);
    }
    let mut data = (3, 4);
    directory.restore(10, &mut data);
    assert_eq!((42, 4), data);
    assert_eq!(directory.all_names(), ["redolog.log.0000000000"]);
}

#[test]
fn a_full_file_is_followed_by_the_next() {
    let mut directory = Directory::new();
    let mut data = (0, 0);
    let mut log = directory.restore(2, &mut data);
    for value in 1..=6 {
        directory.execute(&mut log, &mut data, value);
    }
    assert_eq!(directory.text("redolog.log.0000000000"), "1\n");
    assert_eq!(directory.text("redolog.log.0000000001"), "2\n3\n");
    assert_eq!(directory.text("redolog.log.0000000002"), "4\n5\n");
    assert_eq!(directory.text("redolog.log.0000000003"), "6\n");
    let mut again = (0, 0);
    let log = directory.restore(2, &mut again);
    assert_eq!((21, 0), again);
    assert_eq!(log.files_left(), u64::MAX - 3);
}

#[test]
fn a_reopened_log_counts_each_transaction() {
    let mut directory = Directory::new();
    let mut data = (0, 0);
    let mut log = directory.restore(3, &mut data);
    for value in 1..=3 {
        directory.execute(&mut log, &mut data, value);
    }
    assert_eq!(directory.text("redolog.log.0000000001"), "3\n");
    let mut log = directory.restore(3, &mut (0, 0));
    directory.execute(&mut log, &mut data, 4);
    directory.execute(&mut log, &mut data, 5);
    assert_eq!(directory.text("redolog.log.0000000001"), "3\n4\n");
    assert_eq!(directory.text("redolog.log.0000000002"), "5\n");
}

#[test]
fn no_file_holds_more_than_the_limit() {
    for max_size in 0..5u64 {
        let most = max_size.max(1) as usize;
        let mut directory = Directory::new();
        let mut data = (0, 0);
        let mut log = directory.recover(max_size, &mut data);
        for step in 0..40u8 {
            directory.execute(&mut log, &mut data, 1);
            if step % 3 == 0 {
                log = directory.recover(max_size, &mut (0, 0));
            }
            if step % 11 == 0 {
                directory.snapshot(&mut log, &data);
            }
            for (name, bytes) in &directory.files {
                let lines = bytes.iter().filter(|byte| **byte == b'\n').count();
                assert!(name.starts_with(b"snapshot") || lines <= most);
            }
        }
        let mut again = (0, 0);
        directory.recover(max_size, &mut again);
        assert_eq!((40, 0), again);
    }
}

#[test]
fn a_snapshot_is_recovered_whatever_stands_before_it() {
    let mut directory = Directory::new();
    let mut data = (0, 9);
    let mut log = directory.recover(2, &mut data);
    for value in 1..=4 {
        directory.execute(&mut log, &mut data, value);
    }
    directory.snapshot(&mut log, &data);
    directory.files[0].1 = b"no log".to_vec();
    let mut again = (100, 100);
    let mut log = directory.recover(2, &mut again);
    assert_eq!((10, 9), again);
    directory.execute(&mut log, &mut again, 5);
    directory.snapshot(&mut log, &again);
    directory.execute(&mut log, &mut again, 6);
    directory.execute(&mut log, &mut again, 7);
    let mut last = (0, 0);
    directory.recover(2, &mut last);
    assert_eq!((28, 9), last);
}

#[test]
fn file_names_have_ten_digits() {
    assert_eq!(file_name_for_index(12), b"redolog.log.0000000012");
    assert_eq!(snapshot_name_for_index(12), b"snapshot.log.0000000012");
    assert_eq!(file_name_for_index(u64::MAX), b"redolog.log.18446744073709551615");
    for index in [0, 1, 9_999_999_999, 10_000_000_000, u64::MAX] {
        assert_eq!(get_index_from_file(&file_name_for_index(index)), index);
        assert_eq!(get_index_from_file(&snapshot_name_for_index(index)), index);
    }
}

#[test]
fn the_index_is_the_extension() {
    assert_eq!(read_index(b"redolog.1.2"), Some(2));
    assert_eq!(read_index(b"redolog.+2"), Some(2));
    assert_eq!(read_index(b"redolog"), None);
    assert_eq!(read_index(b"redolog."), None);
    assert_eq!(read_index(b"redolog.log"), None);
    assert_eq!(read_index(b".7"), None);
    assert_eq!(read_index(b"redolog.18446744073709551616"), None);
}

#[test]
fn logs_and_snapshots_are_listed() {
    let entry = |name: &str, is_file: bool| {
        Ok(Entry { name: name.as_bytes().to_vec(), is_file })
    };
    let listing = vec![
        entry("snapshot.log.1", true),
        entry("notes", true),
        entry("redolog.log.0", true),
        entry("redolog.d", false),
        entry("my.redolog", true),
    ];
    assert_eq!(files(listing).unwrap(), named(&["snapshot.log.1", "redolog.log.0"]));
    let listing = vec![entry("redolog.log.0", true), Err(failure()), Err(io::Error::other("x"))];
    assert!(is_failure(&files(listing).unwrap_err()));
}

#[test]
fn the_last_snapshot_is_selected() {
    let selection = process_snapshots(named(&[
        "redolog.log.9",
        "snapshot.log.3",
        "redolog.log.10",
        "snapshot.log.7",
        "redolog.log.1",
    ]));
    assert_eq!(selection.index, 8);
    assert_eq!(selection.snapshot, Some(b"snapshot.log.7".to_vec()));
    assert_eq!(selection.files, named(&["redolog.log.9", "redolog.log.10"]));
}

#[test]
fn without_a_snapshot_all_files_are_selected() {
    let selection = process_snapshots(Vec::new());
    assert_eq!((selection.index, selection.snapshot), (0, None));
    assert_eq!(selection.files, named(&[]));
    let selection = process_snapshots(named(&["redolog.log.5", "redolog.log.4"]));
    assert_eq!((selection.index, selection.snapshot), (0, None));
    assert_eq!(selection.files, named(&["redolog.log.4", "redolog.log.5"]));
    let selection = process_snapshots(named(&["redolog"]));
    assert_eq!(selection.files, named(&["redolog"]));
}

#[test]
fn files_of_one_index_keep_their_order() {
    let selection = process_snapshots(named(&["snapshot.log.2", "redolog.log.2"]));
    assert_eq!(selection.snapshot, Some(b"snapshot.log.2".to_vec()));
    assert_eq!(selection.files, named(&["redolog.log.2"]));
    let selection = process_snapshots(named(&["redolog.log.2", "snapshot.log.2"]));
    assert_eq!(selection.snapshot, Some(b"snapshot.log.2".to_vec()));
    assert_eq!(selection.files, named(&[]));
}

#[test]
fn recovery_begins_behind_the_snapshot() {
    let mut data = (1, 1);
    let (log, open) = Log::new_with_snapshot(
        Vec::new(),
        10,
        json(),
        &mut data,
        6,
        Some(Ok(b"[5,6]\n[7,8]\n".to_vec())),
        Vec::new(),
    )
    .unwrap();
    assert_eq!(data, (5, 6));
    assert_eq!(log.files_left(), u64::MAX - 6);
    assert!(matches!(open, OpenLog::Create(name) if name == b"redolog.log.0000000006"));
}

#[test]
fn a_snapshot_may_be_unreadable() {
    let recover = |snapshot: Result<Vec<u8>, io::Error>| {
        let mut data = (1, 1);
        let log = Log::try_new_with_snapshot(
            Vec::new(),
            10,
            json(),
            &mut data,
            6,
            Some(snapshot),
            Vec::new(),
        );
        assert_eq!(data, (1, 1));
        log
    };
    match recover(Err(failure())) {
        Some(Err(PrevaylerError::IOError(error))) => assert!(is_failure(&error)),
        _ => panic!("no fault"),
    }
    assert!(matches!(
        recover(Ok(b"[5]\n".to_vec())),
        Some(Err(PrevaylerError::SerializationError(SerializerError::ErrorDeserializing(_))))
    ));
    assert!(recover(Ok(b"[5,6]".to_vec())).is_none());
}

#[test]
fn a_snapshot_is_its_first_value() {
    let value = load_snapshot::<Pair, Json>(&json(), Ok(b"[5,6]\n[7,8]\n".to_vec()));
    assert!(matches!(value, Some(Ok((5, 6)))));
    assert!(load_snapshot::<Pair, Json>(&json(), Ok(Vec::new())).is_none());
}

#[test]
fn files_are_processed_up_to_the_first_error() {
    let read = |name: &str, contents: Result<&str, io::Error>| LogRead {
        name: name.as_bytes().to_vec(),
        contents: contents.map(|text| text.as_bytes().to_vec()),
    };
    let mut data = (0, 0);
    let done = process_files::<Pair, AddToFirstElement, Json>(
        &json(),
        vec![read("redolog.4", Ok("1\n2\n3\n")), read("redolog.6", Ok("4\n5\n6"))],
        &mut data,
    );
    assert!(matches!(done, Ok((6, 2, name)) if name == b"redolog.6"));
    assert_eq!(data, (15, 0));

    let mut data = (0, 0);
    let failed = process_files::<Pair, AddToFirstElement, Json>(
        &json(),
        vec![read("redolog.4", Ok("1\nx\n3\n")), read("redolog.6", Ok("4\n"))],
        &mut data,
    );
    assert!(matches!(
        failed,
        Err(PrevaylerError::SerializationError(SerializerError::ErrorDeserializing(_)))
    ));
    assert_eq!(data, (1, 0));

    let mut data = (0, 0);
    let failed = process_files::<Pair, AddToFirstElement, Json>(
        &json(),
        vec![read("redolog.4", Ok("1\n")), read("redolog.6", Err(failure()))],
        &mut data,
    );
    match failed {
        Err(PrevaylerError::IOError(error)) => assert!(is_failure(&error)),
        _ => panic!("no fault"),
    }
    assert_eq!(data, (1, 0));

    let mut data = (2, 0);
    let none = process_files::<Pair, AddToFirstElement, Json>(&json(), Vec::new(), &mut data);
    assert!(matches!(none, Ok((0, 0, name)) if name.is_empty()));
    assert_eq!(data, (2, 0));
}

#[test]
fn files_that_were_processed_are_appended_to() {
    let mut data = (0, 0);
    let read = LogRead { name: b"redolog.4".to_vec(), contents: Ok(b"1\n".to_vec()) };
    let (log, open) =
        Log::new_from_files(Vec::new(), vec![read], 9, 10, json(), &mut data).unwrap();
    assert!(matches!(open, OpenLog::Append(name) if name == b"redolog.4"));
    assert_eq!(log.files_left(), u64::MAX - 4);
    assert_eq!(data, (1, 0));
}

#[test]
fn a_value_that_cannot_be_written_is_refused() {
    struct Refusing;

    impl<T> Serializer<T> for Refusing {
        type Error = u8;

        fn serialize(&self, _: &T) -> SerializerResult<Vec<u8>, u8> {
            Err(SerializerError::ErrorSerializing(7))
        }

        fn deserialize(&self, _: Vec<u8>) -> Vec<SerializerResult<T, u8>> {
            Vec::new()
        }
    }

    let (mut log, _) =
        ReDoLog::<AddToFirstElement, Refusing>::new_empty(Vec::new(), 4, 10, Refusing);
    assert!(matches!(
        log.serialize(&AddToFirstElement { value: 1 }),
        Err(PrevaylerError::SerializationError(SerializerError::ErrorSerializing(7)))
    ));
    let (actions, result) = log.snapshot(&(1u8, 2u8));
    assert!(matches!(
        result,
        Err(PrevaylerError::SerializationError(SerializerError::ErrorSerializing(7)))
    ));
    assert_eq!(actions.len(), 1);
    assert!(
        matches!(&actions[0], FileAction::CreateSnapshot(n) if n == b"snapshot.log.0000000005")
    );
    assert_eq!(log.files_left(), u64::MAX - 5);
    assert!(!log.is_in_snapshot());
}

#[test]
fn a_snapshot_goes_on_with_the_next_file() {
    let mut data = (3, 4);
    let mut directory = Directory::new();
    let mut log = directory.recover(10, &mut data);
    let (actions, result) = log.snapshot(&(10u8, 4u8));
    assert!(result.is_ok());
    assert!(log.is_in_snapshot());
    assert_eq!(actions.len(), 3);
    directory.perform(actions);
    let next = log.resume_snapshot(Ok(())).unwrap();
    assert!(matches!(&next, FileAction::CreateLog(n) if n == b"redolog.log.0000000002"));
    directory.perform(vec![next]);
    assert!(!log.is_in_snapshot());
    assert_eq!(log.files_left(), u64::MAX - 2);
    assert_eq!(
        directory.all_names(),
        ["redolog.log.0000000000", "snapshot.log.0000000001", "redolog.log.0000000002"]
    );
    assert_eq!(directory.text("redolog.log.0000000000"), "");
    assert_eq!(directory.text("snapshot.log.0000000001"), "[10,4]\n");
    assert_eq!(directory.text("redolog.log.0000000002"), "");
}

#[test]
fn a_snapshot_that_fails_leaves_the_log_where_it_is() {
    let (mut log, _) = Log::new_empty(Vec::new(), 4, 10, json());
    assert!(log.snapshot(&(1u8, 2u8)).1.is_ok());
    match log.resume_snapshot(Err(failure())) {
        Err(error) => assert!(is_failure(&error)),
        Ok(_) => panic!("no fault"),
    }
    assert!(!log.is_in_snapshot());
    assert_eq!(log.files_left(), u64::MAX - 5);
    let actions = log.write_to_log(b"1\n".to_vec());
    assert!(matches!(&actions[0], FileAction::WriteLog(bytes) if bytes == b"1\n"));
}

#[test]
fn a_write_is_flushed() {
    let (mut log, _) = Log::new_empty(Vec::new(), 4, 2, json());
    let actions = log.write_to_log(b"1\n".to_vec());
    assert_eq!(actions.len(), 2);
    assert!(matches!(&actions[0], FileAction::WriteLog(bytes) if bytes == b"1\n"));
    assert!(matches!(actions[1], FileAction::FlushLog));
    let actions = log.write_to_log(b"2\n".to_vec());
    assert_eq!(actions.len(), 3);
    assert!(matches!(&actions[0], FileAction::CreateLog(n) if n == b"redolog.log.0000000005"));
    assert!(matches!(&actions[1], FileAction::WriteLog(bytes) if bytes == b"2\n"));
    assert!(matches!(actions[2], FileAction::FlushLog));
}

#[test]
fn a_log_runs_out_of_indices() {
    let (log, _) = Log::new_empty(Vec::new(), u64::MAX, 1, json());
    assert!(!log.has_room());
    assert_eq!(log.files_left(), 0);
    let (log, _) = Log::new_empty(Vec::new(), u64::MAX, 2, json());
    assert!(log.has_room());
}

#[test]
fn errors_become_errors_of_the_log() {
    let error: PrevaylerError<u8> = PrevaylerError::from(failure());
    assert!(matches!(error, PrevaylerError::IOError(_)));
    let error = PrevaylerError::from(SerializerError::ErrorDeserializing(3u8));
    assert!(matches!(
        error,
        PrevaylerError::SerializationError(SerializerError::ErrorDeserializing(3))
    ));
}

fn parse(line: &[u8]) -> Result<i64, serde_json::Error> {
    serde_json::from_slice(line)
}

fn next(
    stream: &mut JsonDeserializerStream,
) -> Polled<Option<SerializerResult<i64, serde_json::Error>>> {
    stream.poll_next(&parse)
}

#[test]
fn a_line_is_json_and_a_newline() {
    let json = JsonSerializer::new();
    assert_eq!(json.serialize(serde_json::to_vec(&(1, "x"))).unwrap(), b"[1,\"x\"]\n");
    let refused = serde_json::from_slice::<Vec<u8>>(b"no list");
    assert!(matches!(json.serialize(refused), Err(SerializerError::ErrorSerializing(_))));
}

#[test]
fn a_file_is_read_back() {
    let json = JsonSerializer::new();
    let mut bytes: Vec<u8> = Vec::new();
    for value in [5, -6, 7] {
        bytes.extend(json.serialize(serde_json::to_vec(&value)).unwrap());
    }
    bytes.extend_from_slice(b"8");
    let items: Vec<SerializerResult<i64, serde_json::Error>> = json.read_file(bytes, &parse);
    let values: Vec<i64> = items.into_iter().map(|item| item.unwrap()).collect();
    assert_eq!(values, [5, -6, 7]);
}

#[test]
fn a_line_that_is_refused_is_passed_over() {
    let items = JsonSerializer::new().read_file(b"1\nx\n3\n".to_vec(), &parse);
    assert_eq!(items.len(), 3);
    assert!(matches!(items[0], Ok(1)));
    assert!(matches!(items[1], Err(SerializerError::ErrorDeserializing(_))));
    assert!(matches!(items[2], Ok(3)));
}

#[test]
fn lines_may_be_cut_anywhere() {
    let text: &[u8] = b"10\n-7\n[1\n300\n";
    for cut in 1..text.len() {
        let reader = VecDeque::from(vec![text[..cut].to_vec(), text[cut..].to_vec()]);
        let mut stream = JsonSerializer::new().deserialize(reader);
        assert!(matches!(next(&mut stream), Polled::Ready(Some(Ok(10)))));
        assert!(matches!(next(&mut stream), Polled::Ready(Some(Ok(-7)))));
        assert!(matches!(next(&mut stream), Polled::Ready(Some(Err(_)))));
        assert!(matches!(next(&mut stream), Polled::Ready(Some(Ok(300)))));
        assert!(matches!(next(&mut stream), Polled::Pending));
        stream.feed(Vec::new());
        assert!(matches!(next(&mut stream), Polled::Ready(None)));
    }
}

#[test]
fn the_buffer_is_taken_line_by_line() {
    let mut stream = JsonDeserializerStream::new(VecDeque::new());
    let none: Option<SerializerResult<i64, serde_json::Error>> = stream.process_buffer(&parse);
    assert!(none.is_none());
    stream.feed(b"1\n2\n3".to_vec());
    assert!(matches!(next(&mut stream), Polled::Ready(Some(Ok(1)))));
    assert!(matches!(stream.process_buffer(&parse), Some(Ok(2))));
    assert!(stream.process_buffer(&parse).is_none());
}
