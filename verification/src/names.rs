//! The names of log files.
use vstd::prelude::*;
use vstd::slice::slice_subrange;

use crate::bytes::{
    find, is_digit, lemma_padded, lemma_padded_is_read_back, lemma_place, lemma_place_unique, padded,
    place, read_unsigned, unsigned, write_padded, DOT,
};
use crate::order::{lemma_padded_in_order, lexical, power_of_ten};

verus! {

/// How many digits the index of a log file has at least.
pub const INDEX_WIDTH: usize = 8;

/// `redo_log.`
pub open spec fn log_name_start() -> Seq<u8> {
    seq![0x72u8, 0x65, 0x64, 0x6f, 0x5f, 0x6c, 0x6f, 0x67, 0x2e]
}

/// `.log`
pub open spec fn log_name_end() -> Seq<u8> {
    seq![0x2eu8, 0x6c, 0x6f, 0x67]
}

/// The name of the log file with an index, such as `redo_log.00000012.log`.
pub open spec fn log_name(index: int) -> Seq<u8> {
    log_name_start() + padded(index, INDEX_WIDTH as int) + log_name_end()
}

/// The name of the log file with index `index`.
pub fn make_log_name(index: usize) -> (result: Vec<u8>)
    ensures
        result@ == log_name(index as int),
{
    let mut name: Vec<u8> = vec![0x72u8, 0x65, 0x64, 0x6f, 0x5f, 0x6c, 0x6f, 0x67, 0x2e];
    assert(name@ =~= log_name_start());
    let mut digits: Vec<u8> = write_padded(index as u64, INDEX_WIDTH);
    name.append(&mut digits);
    let mut end: Vec<u8> = vec![0x2eu8, 0x6c, 0x6f, 0x67];
    assert(end@ =~= log_name_end());
    name.append(&mut end);
    assert(name@ =~= log_name(index as int));
    name
}

/// A letter in its small form.
pub open spec fn small(byte: u8) -> u8 {
    if 0x41 <= byte <= 0x5a {
        (byte + 0x20) as u8
    } else {
        byte
    }
}

fn make_small(byte: u8) -> (result: u8)
    ensures
        result == small(byte),
{
    if byte >= 0x41 && byte <= 0x5a {
        byte + 0x20
    } else {
        byte
    }
}

/// Whether a file is a log file by its name: it ends with `.log`, in small or
/// capital letters.
pub open spec fn is_log_name(name: Seq<u8>) -> bool {
    let n = name.len();
    &&& n >= 4
    &&& name[n - 4] == DOT
    &&& small(name[n - 3]) == 0x6c
    &&& small(name[n - 2]) == 0x6f
    &&& small(name[n - 1]) == 0x67
}

/// Whether `name` is that of a log file.
pub fn check_log_name(name: &[u8]) -> (result: bool)
    ensures
        result == is_log_name(name@),
{
    let n: usize = name.len();
    n >= 4 && name[n - 4] == DOT && make_small(name[n - 3]) == 0x6c && make_small(name[n - 2])
        == 0x6f && make_small(name[n - 1]) == 0x67
}

/// What stands between the first dot of a name and the second, or the end.
pub open spec fn second_piece(name: Seq<u8>) -> Seq<u8> {
    let rest = name.skip(place(name, DOT) + 1);
    rest.take(place(rest, DOT))
}

/// The index that a log file has by its name, where it has one.
pub open spec fn index_of_log(name: Seq<u8>) -> Option<int> {
    unsigned(second_piece(name), usize::MAX as int)
}

/// The index of the log file `name`.
pub fn read_log_index(name: &[u8]) -> (result: Option<usize>)
    requires
        is_log_name(name@),
    ensures
        result is Some <==> index_of_log(name@) is Some,
        result matches Some(index) ==> index_of_log(name@) == Some(index as int),
{
    let n: usize = name.len();
    let first: usize = find(name, DOT);
    proof {
        lemma_place(name@, DOT);
        assert(name@.contains(DOT)) by {
            assert(name@[name@.len() - 4] == DOT);
        }
    }
    let rest = slice_subrange(name, first + 1, n);
    assert(rest@ =~= name@.skip(place(name@, DOT) + 1));
    let second: usize = find(rest, DOT);
    let piece = slice_subrange(rest, 0, second);
    assert(piece@ =~= second_piece(name@));
    match read_unsigned(piece, usize::MAX as u64) {
        Some(index) => Some(index as usize),
        None => None,
    }
}

/// The name that is made for an index is that of a log file, and is read as that
/// index.
pub proof fn law_log_name_is_read_back(index: usize)
    ensures
        is_log_name(log_name(index as int)),
        index_of_log(log_name(index as int)) == Some(index as int),
{
    let digits = padded(index as int, INDEX_WIDTH as int);
    let name = log_name(index as int);
    lemma_padded(index as int, INDEX_WIDTH as int);
    assert(name[name.len() - 4] == log_name_end()[0]);
    assert(name[name.len() - 3] == log_name_end()[1]);
    assert(name[name.len() - 2] == log_name_end()[2]);
    assert(name[name.len() - 1] == log_name_end()[3]);
    assert forall|i: int| 0 <= i < 8 implies name[i] != DOT by {
        assert(name[i] == log_name_start()[i]);
    }
    assert(name[8] == log_name_start()[8]);
    lemma_place_unique(name, DOT, 8);
    let rest = name.skip(9);
    assert(rest =~= digits + log_name_end());
    assert forall|i: int| 0 <= i < digits.len() implies rest[i] != DOT by {
        assert(rest[i] == digits[i]);
        assert(is_digit(digits[i]));
    }
    assert(rest[digits.len() as int] == log_name_end()[0]);
    lemma_place_unique(rest, DOT, digits.len() as int);
    assert(second_piece(name) =~= digits);
    lemma_padded_is_read_back(index as int, INDEX_WIDTH as int, usize::MAX as int);
}

/// Log files stand in the order of their indices, as far as those have eight
/// digits: `redo_log.100000000.log` stands before `redo_log.99999999.log`.
pub proof fn law_log_names_in_order(a: int, b: int)
    requires
        0 <= a < b < 100_000_000,
    ensures
        lexical(log_name(a), log_name(b)),
        !lexical(log_name(b), log_name(a)),
        log_name(a) != log_name(b),
{
    reveal_with_fuel(power_of_ten, 9);
    lemma_padded_in_order(log_name_start(), log_name_end(), INDEX_WIDTH as int, a, b);
    crate::order::lemma_lexical_total(log_name(a), log_name(b));
}

} // verus!
