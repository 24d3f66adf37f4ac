use std::io;

use prevayler_rs::json::LogText;
use prevayler_rs::log::{
    last_file_to_open, read_log_files, DirEntry, LogAction, LogFileRead, LogStep, LOG_LIMIT,
};
use prevayler_rs::prevayler::ExecuteStep;
use prevayler_rs::{
    JsonSerializeError, JsonSerializer, Prevayler, PrevaylerBuilder, PrevaylerError, RedoLog,
    RedoLogError, Serializer, Transaction,
};
use serde::{Deserialize, Serialize};

struct PlusN(i64);

impl Serialize for PlusN {
    fn serialize<S: serde::Serializer>(&self, serializer: S) -> Result<S::Ok, S::Error> {
        serializer.serialize_i64(self.0)
    }
}

impl<'de> Deserialize<'de> for PlusN {
    fn deserialize<D: serde::Deserializer<'de>>(deserializer: D) -> Result<Self, D::Error> {
        Ok(PlusN(i64::deserialize(deserializer)?))
    }
}

impl Transaction<i64> for PlusN {
    type Output = i64;

    fn execute(self, target: &mut i64) -> i64 {
        *target += self.0;
        *target
    }
}

/// What a step of the test data's serializer may fail with.
type Fault = PrevaylerError<JsonSerializeError, JsonSerializeError>;

struct Json(JsonSerializer);

impl Default for Json {
    fn default() -> Self {
        Json(JsonSerializer::default())
    }
}

impl Serializer<PlusN> for Json {
    type SerializerError = JsonSerializeError;
    type DeserializeError = JsonSerializeError;

    fn desserialize(&self, read: LogText) -> Vec<Result<PlusN, JsonSerializeError>> {
        self.0.read_log(read, &|line: &[u8]| serde_json::from_slice::<PlusN>(line))
    }

    fn serialize(&self, value: &PlusN) -> Result<Vec<u8>, JsonSerializeError> {
        self.0.serialize(serde_json::to_vec(value))
    }

    fn write_failed(&self, fault: io::Error) -> JsonSerializeError {
        JsonSerializeError::from(fault)
    }
}

/// A directory in memory. It lists the file that was created last first.
struct Directory {
    files: Vec<(Vec<u8>, Vec<u8>)>,
    open: usize,
}

impl Directory {
    fn new() -> Self {
        Directory { files: Vec::new(), open: 0 }
    }

    fn with(files: &[(&str, &str)]) -> Self {
        let files = files.iter().map(|(n, c)| (n.as_bytes().to_vec(), c.as_bytes().to_vec()));
        Directory { files: files.collect(), open: 0 }
    }

    fn listing(&self) -> Vec<Result<DirEntry, io::Error>> {
        let entry = |name: &Vec<u8>| Ok(DirEntry { name: name.clone(), is_file: Ok(true) });
        self.files.iter().rev().map(|file| entry(&file.0)).collect()
    }

    fn names(&self) -> Vec<Vec<u8>> {
        read_log_files(self.listing()).unwrap()
    }

    fn contents(&self, name: &[u8]) -> Vec<u8> {
        self.files.iter().find(|file| file.0 == name).unwrap().1.clone()
    }

    fn read(&self) -> Vec<LogFileRead> {
        let text = |name: &Vec<u8>| Ok(LogText { bytes: self.contents(name), fault: None });
        self.names().into_iter().map(|name| LogFileRead { text: text(&name), name }).collect()
    }

    fn open_last(&mut self) {
        let last = last_file_to_open(&self.names());
        match self.files.iter().position(|file| file.0 == last) {
            Some(at) => self.open = at,
            None => self.create(last),
        }
    }

    fn create(&mut self, name: Vec<u8>) {
        self.files.push((name, Vec::new()));
        self.open = self.files.len() - 1;
    }

    fn perform(&mut self, action: &LogAction) {
        match action {
            LogAction::Append(bytes) => self.files[self.open].1.extend_from_slice(bytes),
            LogAction::Sync => {}
            LogAction::Create(name) => self.create(name.clone()),
        }
    }

    fn prevail(&mut self, data: i64) -> Result<Prevayler<i64, PlusN, Json>, Fault> {
        let files = self.read();
        self.open_last();
        Prevayler::new(data, b"dir".to_vec(), files, Ok(()), Json::default())
    }

    fn execute(
        &mut self,
        prevayler: &mut Prevayler<i64, PlusN, Json>,
        transaction: PlusN,
    ) -> Result<i64, Fault> {
        let mut step = prevayler.execute(transaction);
        loop {
            match step {
                ExecuteStep::Done(result) => return result,
                ExecuteStep::Perform(action) => {
                    self.perform(&action);
                    step = prevayler.resume(Ok(()));
                }
            }
        }
    }
}

fn names(directory: &Directory) -> Vec<String> {
    let text = |name: Vec<u8>| String::from_utf8(name).unwrap();
    directory.names().into_iter().map(text).collect()
}

fn text(directory: &Directory, name: &str) -> String {
    String::from_utf8(directory.contents(name.as_bytes())).unwrap()
}

fn failure() -> io::Error {
    io::Error::new(io::ErrorKind::Other, "no disk")
}

fn is_failure(error: &io::Error) -> bool {
    error.kind() == io::ErrorKind::Other && error.to_string() == "no disk"
}

#[test]
fn simple_transaction() {
    let mut tempdir = Directory::new();
    let builder: PrevaylerBuilder<PlusN, i64, Json> =
        PrevaylerBuilder::create(10).with_path(b"dir".to_vec());
    let files = tempdir.read();
    tempdir.open_last();
    let mut prevailer = builder.build(files, Ok(())).unwrap();
    let plus_2 = PlusN(2);
    let result = tempdir.execute(&mut prevailer, plus_2).unwrap();
    assert_eq!(12, result);
    assert_eq!(12, *prevailer.query());
}

#[test]
fn simple_transaction_with_persistence() {
    let mut tempdir = Directory::new();
    let mut prevailer = tempdir.prevail(10).unwrap();
    let plus_2 = PlusN(2);
    let result = tempdir.execute(&mut prevailer, plus_2).unwrap();
    let prevailer = tempdir.prevail(10).unwrap();
    assert_eq!(12, result);
    assert_eq!(12, *prevailer.query());
}

#[test]
fn multiple_log_files() {
    let mut tempdir = Directory::new();
    let mut prevailer = tempdir.prevail(10).unwrap();
    tempdir.execute(&mut prevailer, PlusN(2)).unwrap();
    tempdir.execute(&mut prevailer, PlusN(2)).unwrap();
    tempdir.execute(&mut prevailer, PlusN(2)).unwrap();
    tempdir.execute(&mut prevailer, PlusN(2)).unwrap();
    tempdir.execute(&mut prevailer, PlusN(2)).unwrap();
    let prevailer = tempdir.prevail(10).unwrap();
    assert_eq!(20, *prevailer.query());
    let log_files: Vec<String> = names(&tempdir);
    assert_eq!(
        vec![
            "redo_log.00000000.log".to_string(),
            "redo_log.00000001.log".to_string(),
            "redo_log.00000002.log".to_string()
        ],
        log_files
    );
}

#[test]
fn each_file_takes_the_limit() {
    assert_eq!(LOG_LIMIT, 2);
    let mut directory = Directory::new();
    let mut prevayler = directory.prevail(0).unwrap();
    for n in 1..=5 {
        directory.execute(&mut prevayler, PlusN(n)).unwrap();
    }
    assert_eq!(text(&directory, "redo_log.00000000.log"), "1\n2\n");
    assert_eq!(text(&directory, "redo_log.00000001.log"), "3\n4\n");
    assert_eq!(text(&directory, "redo_log.00000002.log"), "5\n");
}

#[test]
fn a_log_goes_on_where_it_was_left() {
    let mut directory = Directory::new();
    for n in 1..=3 {
        let mut prevayler = directory.prevail(0).unwrap();
        directory.execute(&mut prevayler, PlusN(n)).unwrap();
    }
    assert_eq!(text(&directory, "redo_log.00000000.log"), "1\n2\n");
    assert_eq!(text(&directory, "redo_log.00000001.log"), "3\n");
    assert_eq!(6, *directory.prevail(0).unwrap().query());
}

#[test]
fn execution_with_a_snapshot_limit_changes_nothing() {
    let mut directory = Directory::new();
    let mut prevayler = directory.prevail(0).unwrap();
    for limit in [0usize, 1, 7] {
        let mut step = prevayler.execute_with_snapshot(PlusN(5), limit);
        loop {
            match step {
                ExecuteStep::Done(result) => {
                    result.unwrap();
                    break;
                }
                ExecuteStep::Perform(action) => {
                    directory.perform(&action);
                    step = prevayler.resume(Ok(()));
                }
            }
        }
    }
    assert_eq!(15, *prevayler.query());
    assert_eq!(names(&directory), ["redo_log.00000000.log", "redo_log.00000001.log"]);
}

#[test]
fn transactions_are_converted() {
    struct Two;

    impl From<Two> for PlusN {
        fn from(_: Two) -> PlusN {
            PlusN(2)
        }
    }

    let mut directory = Directory::new();
    let mut prevayler = directory.prevail(0).unwrap();
    match prevayler.execute(Two) {
        ExecuteStep::Perform(LogAction::Append(bytes)) => assert_eq!(bytes, b"2\n"),
        _ => panic!("nothing is appended"),
    }
}

#[test]
fn a_byte_is_incremented() {
    struct Increment {
        increment: u8,
    }

    impl Transaction<u8> for Increment {
        type Output = ();

        fn execute(self, data: &mut u8) {
            *data += self.increment;
        }
    }

    struct Raw;

    impl Serializer<Increment> for Raw {
        type SerializerError = ();
        type DeserializeError = ();

        fn desserialize(&self, read: LogText) -> Vec<Result<Increment, ()>> {
            read.bytes.into_iter().map(|increment| Ok(Increment { increment })).collect()
        }

        fn serialize(&self, value: &Increment) -> Result<Vec<u8>, ()> {
            Ok(vec![value.increment])
        }

        fn write_failed(&self, _: io::Error) {}
    }

    let mut directory = Directory::new();
    directory.open_last();
    let mut prevayler: Prevayler<u8, Increment, Raw> =
        Prevayler::new(0, b".".to_vec(), Vec::new(), Ok(()), Raw).unwrap();
    let mut step = prevayler.execute(Increment { increment: 1 });
    loop {
        match step {
            ExecuteStep::Done(result) => {
                assert!(result.is_ok());
                break;
            }
            ExecuteStep::Perform(action) => {
                directory.perform(&action);
                step = prevayler.resume(Ok(()));
            }
        }
    }
    assert_eq!(1, *prevayler.query());
    let again: Prevayler<u8, Increment, Raw> =
        Prevayler::new(0, b".".to_vec(), directory.read(), Ok(()), Raw).unwrap();
    assert_eq!(1, *again.query());
}

#[test]
fn a_builder_falls_back_on_defaults() {
    let builder: PrevaylerBuilder<PlusN, i64, Json> = PrevaylerBuilder::create(3);
    assert_eq!(builder.directory(), b".");
    let builder = builder.with_path(b"some/where".to_vec()).with_serializer(Json::default());
    assert_eq!(builder.directory(), b"some/where");
    assert_eq!(3, *builder.build(Vec::new(), Ok(())).unwrap().query());
}

#[test]
fn a_torn_record_is_ignored() {
    let mut directory = Directory::with(&[("redo_log.00000000.log", "4\n5")]);
    assert_eq!(5, *directory.prevail(1).unwrap().query());
}

#[test]
fn an_unreadable_record_shows_as_deserialization_error() {
    let mut directory = Directory::with(&[("redo_log.00000000.log", "4\nx\n5\n")]);
    let error = directory.prevail(1).err().unwrap();
    assert!(matches!(
        error,
        PrevaylerError::DeserializationError(JsonSerializeError::SerdeJsonError(_))
    ));
}

#[test]
fn a_replay_stops_at_the_first_error() {
    let files = vec![
        LogFileRead {
            name: b"redo_log.00000000.log".to_vec(),
            text: Ok(LogText { bytes: b"4\nx\n5\n".to_vec(), fault: None }),
        },
        LogFileRead {
            name: b"redo_log.00000001.log".to_vec(),
            text: Ok(LogText { bytes: b"6\n".to_vec(), fault: None }),
        },
    ];
    let mut data = 1;
    let log = RedoLog::new::<i64, PlusN, Json>(&mut data, Vec::new(), files, Ok(()), &Json::default());
    assert!(matches!(log, Err(RedoLogError::DeserializeError(_))));
    assert_eq!(data, 5);
}

#[test]
fn a_fault_of_reading_stops_a_replay() {
    let files = vec![LogFileRead {
        name: b"redo_log.00000000.log".to_vec(),
        text: Ok(LogText { bytes: b"4\n5\n6".to_vec(), fault: Some(failure()) }),
    }];
    let mut data = 1;
    let log = RedoLog::new::<i64, PlusN, Json>(&mut data, Vec::new(), files, Ok(()), &Json::default());
    match log {
        Err(RedoLogError::DeserializeError(JsonSerializeError::IoError(error))) => {
            assert!(is_failure(&error));
        }
        _ => panic!("no fault"),
    }
    assert_eq!(data, 10);
}

#[test]
fn a_file_that_cannot_be_opened_stops_a_replay() {
    let files = vec![LogFileRead {
        name: b"redo_log.00000000.log".to_vec(),
        text: Err(failure()),
    }];
    let prevayler: Result<Prevayler<i64, PlusN, Json>, Fault> =
        Prevayler::new(1, Vec::new(), files, Ok(()), Json::default());
    match prevayler {
        Err(PrevaylerError::IoError(error)) => assert!(is_failure(&error)),
        _ => panic!("no fault"),
    }
}

#[test]
fn the_last_file_may_fail_to_open_for_appending() {
    let prevayler: Result<Prevayler<i64, PlusN, Json>, Fault> =
        Prevayler::new(1, Vec::new(), Vec::new(), Err(failure()), Json::default());
    match prevayler {
        Err(PrevaylerError::IoError(error)) => assert!(is_failure(&error)),
        _ => panic!("no fault"),
    }
}

#[test]
fn a_log_file_without_an_index_is_unexpected() {
    let mut directory = Directory::with(&[("redo_log.first.log", "")]);
    assert!(matches!(directory.prevail(1), Err(PrevaylerError::UnexpectedLogFile)));
    let mut directory = Directory::with(&[("server.log", "")]);
    assert!(matches!(directory.prevail(1), Err(PrevaylerError::UnexpectedLogFile)));
}

#[test]
fn only_log_files_are_listed() {
    let entry = |name: &str, is_file: Result<bool, io::Error>| {
        Ok(DirEntry { name: name.as_bytes().to_vec(), is_file })
    };
    let listing = vec![
        entry("b.log", Ok(true)),
        entry("notes.txt", Err(failure())),
        entry("a.LOG", Ok(true)),
        entry("dir.log", Ok(false)),
        entry(".log", Ok(true)),
    ];
    let found: Vec<Vec<u8>> = read_log_files(listing).unwrap();
    assert_eq!(found, [b".log".to_vec(), b"a.LOG".to_vec(), b"b.log".to_vec()]);
}

#[test]
fn a_fault_of_listing_is_handed_on() {
    let listing = vec![Err(failure())];
    assert!(is_failure(&read_log_files(listing).unwrap_err()));
    let listing =
        vec![Ok(DirEntry { name: b"a.log".to_vec(), is_file: Err(failure()) })];
    assert!(is_failure(&read_log_files(listing).unwrap_err()));
}

#[test]
fn a_record_that_is_not_written_is_not_executed() {
    let mut directory = Directory::new();
    let mut prevayler = directory.prevail(10).unwrap();
    assert!(matches!(prevayler.execute(PlusN(2)), ExecuteStep::Perform(LogAction::Append(_))));
    match prevayler.resume(Err(failure())) {
        ExecuteStep::Done(Err(PrevaylerError::SerializationError(
            JsonSerializeError::IoError(error),
        ))) => assert!(is_failure(&error)),
        _ => panic!("no fault"),
    }
    assert_eq!(10, *prevayler.query());
}

#[test]
fn a_record_that_is_not_synced_is_not_executed() {
    let mut directory = Directory::new();
    let mut prevayler = directory.prevail(10).unwrap();
    match prevayler.execute(PlusN(2)) {
        ExecuteStep::Perform(action) => directory.perform(&action),
        ExecuteStep::Done(_) => panic!("done before it began"),
    }
    assert!(matches!(prevayler.resume(Ok(())), ExecuteStep::Perform(LogAction::Sync)));
    match prevayler.resume(Err(failure())) {
        ExecuteStep::Done(Err(PrevaylerError::IoError(error))) => assert!(is_failure(&error)),
        _ => panic!("no fault"),
    }
    assert_eq!(10, *prevayler.query());
    assert_eq!(12, *directory.prevail(10).unwrap().query());
}

#[test]
fn a_file_that_cannot_be_created_ends_the_execution() {
    let mut directory = Directory::new();
    let mut prevayler = directory.prevail(10).unwrap();
    directory.execute(&mut prevayler, PlusN(1)).unwrap();
    let mut step = prevayler.execute(PlusN(2));
    loop {
        match step {
            ExecuteStep::Done(Err(PrevaylerError::IoError(error))) => {
                assert!(is_failure(&error));
                break;
            }
            ExecuteStep::Done(_) => panic!("no fault"),
            ExecuteStep::Perform(LogAction::Create(name)) => {
                assert_eq!(name, b"redo_log.00000001.log");
                step = prevayler.resume(Err(failure()));
            }
            ExecuteStep::Perform(action) => {
                directory.perform(&action);
                step = prevayler.resume(Ok(()));
            }
        }
    }
    assert_eq!(11, *prevayler.query());
    assert_eq!(13, *directory.prevail(10).unwrap().query());
}

#[test]
fn a_transaction_that_cannot_be_encoded_is_refused() {
    struct Refusing;

    impl Serializer<PlusN> for Refusing {
        type SerializerError = &'static str;
        type DeserializeError = ();

        fn desserialize(&self, _: LogText) -> Vec<Result<PlusN, ()>> {
            Vec::new()
        }

        fn serialize(&self, _: &PlusN) -> Result<Vec<u8>, &'static str> {
            Err("refused")
        }

        fn write_failed(&self, _: io::Error) -> &'static str {
            "not written"
        }
    }

    let mut data = 0i64;
    let mut log =
        RedoLog::new::<i64, PlusN, Refusing>(&mut data, Vec::new(), Vec::new(), Ok(()), &Refusing)
            .ok()
            .unwrap();
    assert!(matches!(
        log.write_transaction_log(&Refusing, &PlusN(1)),
        LogStep::Done(Err(RedoLogError::SerializeError("refused")))
    ));
    let mut prevayler: Prevayler<i64, PlusN, Refusing> =
        Prevayler::new(0, Vec::new(), Vec::new(), Ok(()), Refusing).ok().unwrap();
    assert!(matches!(
        prevayler.execute(PlusN(1)),
        ExecuteStep::Done(Err(PrevaylerError::SerializationError("refused")))
    ));
}

#[test]
fn a_record_that_is_not_written_is_a_serialize_error() {
    let mut data = 0i64;
    let serializer = Json::default();
    let mut log =
        RedoLog::new::<i64, PlusN, Json>(&mut data, Vec::new(), Vec::new(), Ok(()), &serializer)
            .ok()
            .unwrap();
    assert!(matches!(
        log.write_transaction_log(&serializer, &PlusN(1)),
        LogStep::Perform(LogAction::Append(_))
    ));
    match log.resume::<PlusN, Json>(&serializer, Err(failure())) {
        LogStep::Done(Err(RedoLogError::SerializeError(JsonSerializeError::IoError(error)))) => {
            assert!(is_failure(&error));
        }
        _ => panic!("no fault"),
    }
}

#[test]
fn a_log_counts_its_transactions() {
    let mut data = 0i64;
    let serializer = Json::default();
    let mut log =
        RedoLog::new::<i64, PlusN, Json>(&mut data, Vec::new(), Vec::new(), Ok(()), &serializer)
            .ok()
            .unwrap();
    assert!(log.has_room());
    let mut counts = Vec::new();
    for n in 1..=3 {
        let mut step = log.write_transaction_log(&serializer, &PlusN(n));
        while matches!(step, LogStep::Perform(_)) {
            step = log.resume::<PlusN, Json>(&serializer, Ok(()));
        }
        if let LogStep::Done(Ok(count)) = step {
            counts.push(count);
        }
    }
    assert_eq!(counts, [1, 0, 1]);
}

#[test]
fn an_execution_that_is_given_up_is_not_executed() {
    let mut directory = Directory::new();
    let mut prevayler = directory.prevail(10).unwrap();
    assert!(matches!(prevayler.execute(PlusN(5)), ExecuteStep::Perform(LogAction::Append(_))));
    assert_eq!(12, directory.execute(&mut prevayler, PlusN(2)).unwrap());
    assert_eq!(12, *prevayler.query());
    assert_eq!(text(&directory, "redo_log.00000000.log"), "2\n");
}

#[test]
fn transactions_are_executed_in_the_order_of_the_log() {
    let mut directory = Directory::new();
    let mut prevayler = directory.prevail(0).unwrap();
    let mut results = Vec::new();
    for n in [7, -3, 4] {
        results.push(directory.execute(&mut prevayler, PlusN(n)).unwrap());
    }
    assert_eq!(results, [7, 4, 8]);
    assert_eq!(text(&directory, "redo_log.00000000.log"), "7\n-3\n");
    assert_eq!(text(&directory, "redo_log.00000001.log"), "4\n");
}

#[test]
fn errors_of_the_log_become_errors_of_the_prevayler() {
    let error: PrevaylerError<i8, u8> = PrevaylerError::from(RedoLogError::SerializeError(-1i8));
    assert!(matches!(error, PrevaylerError::SerializationError(-1)));
    let error: PrevaylerError<i8, u8> = PrevaylerError::from(RedoLogError::DeserializeError(7u8));
    assert!(matches!(error, PrevaylerError::DeserializationError(7)));
    let error: PrevaylerError<i8, u8> =
        PrevaylerError::from(RedoLogError::<i8, u8>::UnexpectedLogFile);
    assert!(matches!(error, PrevaylerError::UnexpectedLogFile));
    let error: PrevaylerError<i8, u8> =
        PrevaylerError::from(RedoLogError::<i8, u8>::IoError(failure()));
    assert!(matches!(error, PrevaylerError::IoError(_)));
    let error: PrevaylerError<i8, u8> = PrevaylerError::from(failure());
    assert!(matches!(error, PrevaylerError::IoError(_)));
}
