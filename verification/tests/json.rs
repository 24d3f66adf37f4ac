use std::io;

use prevayler_rs::json::{LogText, Polled};
use prevayler_rs::{JsonSerializeError, JsonSerializer, JsonSerializerStream};

fn parse(line: &[u8]) -> Result<i64, serde_json::Error> {
    serde_json::from_slice(line)
}

fn failure() -> io::Error {
    io::Error::new(io::ErrorKind::Other, "no disk")
}

fn numbers(items: Vec<Result<i64, JsonSerializeError>>) -> Vec<i64> {
    items.into_iter().map(|item| item.unwrap()).collect()
}

fn next(stream: &mut JsonSerializerStream) -> Polled<Option<Result<i64, JsonSerializeError>>> {
    stream.poll_next(&parse)
}

#[test]
fn a_record_is_json_and_a_newline() {
    let record = JsonSerializer::default().serialize(serde_json::to_vec("a\nb"));
    assert_eq!(record.unwrap(), b"\"a\\nb\"\n");
}

#[test]
fn a_value_that_has_no_json_is_refused() {
    let refused = serde_json::from_slice::<Vec<u8>>(b"no list");
    let result = JsonSerializer::default().serialize(refused);
    assert!(matches!(result, Err(JsonSerializeError::SerdeJsonError(_))));
}

#[test]
fn what_is_written_is_read_back() {
    let json = JsonSerializer::default();
    let values: Vec<i64> = vec![3, -4, 0, i64::MAX];
    let mut bytes: Vec<u8> = Vec::new();
    for value in &values {
        bytes.extend(json.serialize(serde_json::to_vec(value)).unwrap());
    }
    bytes.extend_from_slice(b"12");
    assert_eq!(numbers(json.read_log(LogText { bytes, fault: None }, &parse)), values);
}

#[test]
fn an_empty_log_holds_nothing() {
    let json = JsonSerializer::default();
    let read = json.read_log(LogText { bytes: Vec::new(), fault: None }, &parse);
    assert_eq!(numbers(read), Vec::<i64>::new());
}

#[test]
fn reading_stops_at_a_record_that_is_refused() {
    let text = LogText { bytes: b"1\n2 2\n3\n".to_vec(), fault: Some(failure()) };
    let items = JsonSerializer::default().read_log(text, &parse);
    assert_eq!(items.len(), 2);
    assert_eq!(*items[0].as_ref().unwrap(), 1);
    assert!(matches!(items[1], Err(JsonSerializeError::SerdeJsonError(_))));
}

#[test]
fn a_fault_comes_behind_the_records() {
    let text = LogText { bytes: b"1\n2\n3".to_vec(), fault: Some(failure()) };
    let items = JsonSerializer::default().read_log(text, &parse);
    assert_eq!(items.len(), 3);
    assert_eq!(*items[1].as_ref().unwrap(), 2);
    assert!(matches!(items[2], Err(JsonSerializeError::IoError(_))));
}

#[test]
fn records_may_be_cut_anywhere() {
    let text: &[u8] = b"10\n-7\n[1\n300\n";
    for cut in 0..text.len() {
        let mut stream = JsonSerializer::default().desserialize();
        for chunk in [&text[..cut], &text[cut..]] {
            if chunk.len() > 0 {
                stream.feed(Ok(chunk.to_vec()));
            }
        }
        assert!(matches!(next(&mut stream), Polled::Ready(Some(Ok(10)))));
        assert!(matches!(next(&mut stream), Polled::Ready(Some(Ok(-7)))));
        assert!(matches!(
            next(&mut stream),
            Polled::Ready(Some(Err(JsonSerializeError::SerdeJsonError(_))))
        ));
    }
}

#[test]
fn a_stream_waits_for_reads() {
    let mut stream = JsonSerializer::default().desserialize();
    assert!(matches!(next(&mut stream), Polled::Pending));
    stream.feed(Ok(b"4".to_vec()));
    assert!(matches!(next(&mut stream), Polled::Pending));
    stream.feed(Ok(b"2\n1".to_vec()));
    assert!(matches!(next(&mut stream), Polled::Ready(Some(Ok(42)))));
    assert!(matches!(next(&mut stream), Polled::Pending));
    stream.feed(Ok(Vec::new()));
    assert!(matches!(next(&mut stream), Polled::Ready(None)));
}

#[test]
fn a_record_that_is_refused_comes_again() {
    let mut stream = JsonSerializer::default().desserialize();
    stream.feed(Ok(b"x\n1\n".to_vec()));
    for _ in 0..3 {
        assert!(matches!(
            next(&mut stream),
            Polled::Ready(Some(Err(JsonSerializeError::SerdeJsonError(_))))
        ));
    }
}

#[test]
fn a_stream_goes_on_behind_a_fault() {
    let mut stream = JsonSerializer::default().desserialize();
    stream.feed(Ok(b"1".to_vec()));
    stream.feed(Err(failure()));
    stream.feed(Ok(b"2\n".to_vec()));
    assert!(matches!(
        next(&mut stream),
        Polled::Ready(Some(Err(JsonSerializeError::IoError(_))))
    ));
    assert!(matches!(next(&mut stream), Polled::Ready(Some(Ok(12)))));
}

#[test]
fn errors_are_converted() {
    assert!(matches!(JsonSerializeError::from(failure()), JsonSerializeError::IoError(_)));
    let error = parse(b"x").unwrap_err();
    assert!(matches!(JsonSerializeError::from(error), JsonSerializeError::SerdeJsonError(_)));
}
