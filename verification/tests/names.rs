use prevayler_rs::bytes::{find, read_unsigned, starts_with, write_padded};
use prevayler_rs::log::last_file_to_open;
use prevayler_rs::names::{check_log_name, make_log_name, read_log_index};
use prevayler_rs::order::{arrange, is_lexical};

#[test]
fn numbers_are_padded() {
    assert_eq!(write_padded(0, 8), b"00000000");
    assert_eq!(write_padded(42, 8), b"00000042");
    assert_eq!(write_padded(123_456_789, 8), b"123456789");
    assert_eq!(write_padded(u64::MAX, 10), b"18446744073709551615");
    assert_eq!(write_padded(0, 0), b"0");
}

#[test]
fn numbers_are_read() {
    assert_eq!(read_unsigned(b"007", 255), Some(7));
    assert_eq!(read_unsigned(b"+7", 255), Some(7));
    assert_eq!(read_unsigned(b"255", 255), Some(255));
    assert_eq!(read_unsigned(b"256", 255), None);
    assert_eq!(read_unsigned(b"18446744073709551615", u64::MAX), Some(u64::MAX));
    assert_eq!(read_unsigned(b"18446744073709551616", u64::MAX), None);
    for text in ["", "+", "-1", "++1", "1 ", "0x1"] {
        assert_eq!(read_unsigned(text.as_bytes(), u64::MAX), None);
    }
}

#[test]
fn bytes_are_found() {
    assert_eq!(find(b"a.b.c", b'.'), 1);
    assert_eq!(find(b"abc", b'.'), 3);
    assert!(starts_with(b"redolog.log", b"redolog"));
    assert!(!starts_with(b"redo", b"redolog"));
    assert!(!starts_with(b"redOlog", b"redolog"));
}

#[test]
fn log_names_have_eight_digits() {
    assert_eq!(make_log_name(0), b"redo_log.00000000.log");
    assert_eq!(make_log_name(12), b"redo_log.00000012.log");
    assert_eq!(make_log_name(1_234_567_890), b"redo_log.1234567890.log");
}

#[test]
fn log_names_are_read_back() {
    for index in [0usize, 1, 99_999_999, 100_000_000, usize::MAX] {
        let name = make_log_name(index);
        assert!(check_log_name(&name));
        assert_eq!(read_log_index(&name), Some(index));
    }
}

#[test]
fn the_index_is_the_second_piece() {
    assert_eq!(read_log_index(b"a.7.log"), Some(7));
    assert_eq!(read_log_index(b"a.+7.8.log"), Some(7));
    assert_eq!(read_log_index(b"a.log"), None);
    assert_eq!(read_log_index(b".log"), None);
    assert_eq!(read_log_index(b"a..log"), None);
    assert_eq!(read_log_index(b"a.99999999999999999999.log"), None);
}

#[test]
fn log_names_end_in_log() {
    for name in [".log", "a.log", "a.LoG"] {
        assert!(check_log_name(name.as_bytes()));
    }
    for name in ["", "log", "a.lo", "a.log ", "a.blog", "a.log.gz"] {
        assert!(!check_log_name(name.as_bytes()));
    }
}

#[test]
fn log_names_stand_in_the_order_of_their_indices() {
    assert!(is_lexical(&make_log_name(9), &make_log_name(10)));
    assert!(!is_lexical(&make_log_name(10), &make_log_name(9)));
    assert!(is_lexical(&make_log_name(99_999_998), &make_log_name(99_999_999)));
    assert!(is_lexical(&make_log_name(100_000_000), &make_log_name(99_999_999)));
}

#[test]
fn names_are_arranged() {
    let names: Vec<Vec<u8>> = ["b", "", "ab", "a", "B", "a"].map(|n| n.as_bytes().to_vec()).to_vec();
    let sorted: Vec<Vec<u8>> = ["", "B", "a", "a", "ab", "b"].map(|n| n.as_bytes().to_vec()).to_vec();
    assert_eq!(arrange(names), sorted);
}

#[test]
fn a_log_goes_on_with_its_last_file() {
    assert_eq!(last_file_to_open(&Vec::new()), b"redo_log.00000000.log");
    let names = vec![make_log_name(3), make_log_name(5)];
    assert_eq!(last_file_to_open(&names), b"redo_log.00000005.log");
}
