//! What calls on numbers, file names and listings promise, each over what it was given
//! and what it gave.
use vstd::prelude::*;

use crate::bytes::{
    all_digits, decimal, find, is_digit, lemma_decimal, lemma_padded, lemma_padded_is_read_back,
    lemma_place, lemma_place_unique, number, padded, read_unsigned, write_padded, DOT, PLUS, ZERO,
};
use crate::log::{last_file_to_open, lemma_listed_stops, listed, read_log_files, DirEntry};
use crate::names::{
    check_log_name, is_log_name, law_log_name_is_read_back, law_log_names_in_order, make_log_name,
    read_log_index, second_piece,
};
use crate::order::{
    arrange, is_lexical, lemma_arranged, lexical, of_rank, same_rank, Ranked,
};
use crate::redolog::{
    check_log_file, check_snapshot_file, extension, file_name_for_index, files, get_index_from_file,
    is_log_file, is_snapshot_file, kept, lemma_kept_stops, lemma_last_dot, read_index,
    snapshot_name_for_index, Entry,
};
use crate::snapshot_laws::law_file_names_are_read_back;

verus! {

proof fn lemma_number_is_not_negative(digits: Seq<u8>)
    requires
        all_digits(digits),
    ensures
        number(digits) >= 0,
    decreases digits.len(),
{
    if digits.len() > 0 {
        assert(is_digit(digits[digits.len() - 1]));
        assert forall|i: int| 0 <= i < digits.len() - 1 implies is_digit(
            #[trigger] digits.drop_last()[i],
        ) by {
            assert(digits.drop_last()[i] == digits[i]);
        }
        lemma_number_is_not_negative(digits.drop_last());
    }
}

/// A text of one digit, with or without a plus sign, is read as that digit. Nothing,
/// a plus sign alone, or any other byte is not read.
pub proof fn law_one_digit_is_read(text: &[u8], most: u64, result: Option<u64>)
    requires
        call_ensures(read_unsigned, (text, most), result),
        text@.len() <= 1 || (text@.len() == 2 && text@[0] == 0x2b),
    ensures
        text@.len() == 0 ==> result is None,
        text@.len() > 0 ==> {
            let last = text@.last();
            if 0x30 <= last <= 0x39 && last - 0x30 <= most {
                result == Some((last - 0x30) as u64)
            } else {
                result is None
            }
        },
{
    if text@.len() > 0 {
        let last = text@.last();
        let digits = if text@[0] == PLUS {
            text@.drop_first()
        } else {
            text@
        };
        if digits.len() == 1 {
            assert(digits =~= seq![last]);
            assert(digits.drop_last() =~= Seq::<u8>::empty());
            assert(number(digits.drop_last()) == 0);
            if is_digit(last) {
                assert(all_digits(digits));
            } else {
                assert(!is_digit(digits[0]));
            }
        }
    }
}

/// A digit behind a number makes ten times the number and the digit of it, as far as
/// that is not too large. Behind what is no number, or with another byte, there is
/// none.
pub proof fn law_one_more_digit_is_read(
    text: &[u8],
    shorter: &[u8],
    most: u64,
    result: Option<u64>,
    before: Option<u64>,
)
    requires
        call_ensures(read_unsigned, (text, most), result),
        call_ensures(read_unsigned, (shorter, most), before),
        text@.len() > 0,
        shorter@ == text@.drop_last(),
        shorter@.len() > 0,
        shorter@ != seq![0x2bu8],
    ensures
        ({
            let last = text@.last();
            match before {
                Some(n) => if 0x30 <= last <= 0x39 && n * 10 + (last - 0x30) <= most {
                    result == Some((n * 10 + (last - 0x30)) as u64)
                } else {
                    result is None
                },
                None => result is None,
            }
        }),
{
    let last = text@.last();
    let (digits, fewer) = if text@[0] == PLUS {
        (text@.drop_first(), shorter@.drop_first())
    } else {
        (text@, shorter@)
    };
    assert(shorter@[0] == text@[0]);
    if shorter@.len() == 1 && text@[0] == PLUS {
        assert(shorter@ =~= seq![0x2bu8]);
    }
    assert(digits.drop_last() =~= fewer);
    assert(digits =~= fewer.push(last));
    if all_digits(digits) {
        assert(is_digit(digits[digits.len() - 1]));
        assert forall|i: int| 0 <= i < fewer.len() implies is_digit(#[trigger] fewer[i]) by {
            assert(fewer[i] == digits[i]);
        }
        lemma_number_is_not_negative(fewer);
    }
    if all_digits(fewer) && is_digit(last) {
        assert forall|i: int| 0 <= i < digits.len() implies is_digit(#[trigger] digits[i]) by {
            if i < fewer.len() {
                assert(fewer[i] == digits[i]);
            }
        }
        lemma_number_is_not_negative(fewer);
    }
}

proof fn lemma_no_zero_in_front(n: int)
    requires
        0 <= n,
    ensures
        decimal(n).len() > 1 ==> decimal(n)[0] != ZERO,
        n >= 1 ==> decimal(n)[0] != ZERO,
    decreases n,
{
    if n >= 10 {
        lemma_no_zero_in_front(n / 10);
        lemma_decimal(n / 10);
        assert(decimal(n)[0] == decimal(n / 10)[0]);
    }
}

/// A number is written in digits, as many as were asked for or as it needs, and is
/// read back.
pub proof fn law_number_is_written(n: u64, width: usize, result: Vec<u8>)
    requires
        call_ensures(write_padded, (n, width), result),
    ensures
        result@.len() >= 1,
        result@.len() >= width,
        forall|i: int| 0 <= i < result@.len() ==> 0x30 <= #[trigger] result@[i] <= 0x39,
        result@.len() > width && result@.len() > 1 ==> result@[0] != 0x30,
        forall|text: &[u8], most: u64, read: Option<u64>|
            text@ == result@ && n <= most && #[trigger] call_ensures(
                read_unsigned,
                (text, most),
                read,
            ) ==> read == Some(n),
{
    lemma_padded(n as int, width as int);
    lemma_no_zero_in_front(n as int);
    lemma_decimal(n as int);
    assert forall|i: int| 0 <= i < result@.len() implies 0x30 <= #[trigger] result@[i] <= 0x39 by {
        assert(is_digit(padded(n as int, width as int)[i]));
    }
    assert forall|text: &[u8], most: u64, read: Option<u64>|
        text@ == result@ && n <= most && #[trigger] call_ensures(
            read_unsigned,
            (text, most),
            read,
        ) implies read == Some(n) by {
        lemma_padded_is_read_back(n as int, width as int, most as int);
    }
}

/// The first byte of a kind is found, or the end.
pub proof fn law_first_byte_is_found(text: &[u8], byte: u8, at: usize)
    requires
        call_ensures(find, (text, byte), at),
    ensures
        at <= text@.len(),
        at < text@.len() ==> text@[at as int] == byte,
        forall|i: int| 0 <= i < at ==> text@[i] != byte,
{
    lemma_place(text@, byte);
}

/// Whether `a` and `b` are alike up to `at`, where `a` ends or has the smaller byte.
pub open spec fn differ_at(a: Seq<u8>, b: Seq<u8>, at: int) -> bool {
    &&& 0 <= at <= a.len()
    &&& at <= b.len()
    &&& a.take(at) == b.take(at)
    &&& at == a.len() || (at < b.len() && a[at] < b[at])
}

/// Whether `a` is `b` or stands before it, byte by byte.
pub open spec fn stands_no_later(a: Seq<u8>, b: Seq<u8>) -> bool {
    exists|at: int| #[trigger] differ_at(a, b, at)
}

pub proof fn lemma_lexical_is_byte_by_byte(a: Seq<u8>, b: Seq<u8>)
    ensures
        lexical(a, b) <==> stands_no_later(a, b),
    decreases a.len(),
{
    if a.len() == 0 || b.len() == 0 || a[0] != b[0] {
        assert(a.take(0) =~= b.take(0));
        if lexical(a, b) {
            assert(differ_at(a, b, 0));
        }
        if stands_no_later(a, b) {
            let at = choose|at: int| #[trigger] differ_at(a, b, at);
            if at > 0 {
                assert(a.take(at)[0] == a[0]);
                assert(b.take(at)[0] == b[0]);
            }
        }
    } else {
        let c = a.drop_first();
        let d = b.drop_first();
        lemma_lexical_is_byte_by_byte(c, d);
        if stands_no_later(c, d) {
            let at = choose|at: int| #[trigger] differ_at(c, d, at);
            assert(a.take(at + 1) =~= seq![a[0]] + c.take(at));
            assert(b.take(at + 1) =~= seq![b[0]] + d.take(at));
            assert(differ_at(a, b, at + 1));
        }
        if stands_no_later(a, b) {
            let at = choose|at: int| #[trigger] differ_at(a, b, at);
            assert(c.take(at - 1) =~= a.take(at).drop_first());
            assert(d.take(at - 1) =~= b.take(at).drop_first());
            assert(differ_at(c, d, at - 1));
        }
    }
}

/// Names are compared byte by byte.
pub proof fn law_names_are_compared_byte_by_byte(a: &[u8], b: &[u8], result: bool)
    requires
        call_ensures(is_lexical, (a, b), result),
    ensures
        result <==> stands_no_later(a@, b@),
{
    lemma_lexical_is_byte_by_byte(a@, b@);
}

/// Names are arranged byte by byte, and none is lost or added.
pub proof fn law_names_are_arranged(names: Vec<Vec<u8>>, result: Vec<Vec<u8>>)
    requires
        call_ensures(arrange::<Vec<u8>>, (names,), result),
    ensures
        result@.to_multiset() == names@.to_multiset(),
        result@.len() == names@.len(),
        forall|i: int, j: int|
            0 <= i < j < result@.len() ==> stands_no_later(
                (#[trigger] result@[i])@,
                (#[trigger] result@[j])@,
            ),
{
    lemma_arranged(names@);
    assert forall|i: int, j: int| 0 <= i < j < result@.len() implies stands_no_later(
        (#[trigger] result@[i])@,
        (#[trigger] result@[j])@,
    ) by {
        assert(result@[i].not_after(result@[j]));
        lemma_lexical_is_byte_by_byte(result@[i]@, result@[j]@);
    }
}

/// Whatever is arranged, stands in order; those of one rank keep the order that they
/// had, and none is lost or added.
pub proof fn law_arranging_is_stable<T: Ranked>(items: Vec<T>, result: Vec<T>, rank: T)
    requires
        call_ensures(arrange::<T>, (items,), result),
    ensures
        forall|i: int, j: int|
            0 <= i < j < result@.len() ==> (#[trigger] result@[i]).not_after(
                #[trigger] result@[j],
            ),
        result@.to_multiset() == items@.to_multiset(),
        result@.filter(|item: T| item.not_after(rank) && rank.not_after(item)) == items@.filter(
            |item: T| item.not_after(rank) && rank.not_after(item),
        ),
{
    lemma_arranged(items@);
    let in_rank = |item: T| item.not_after(rank) && rank.not_after(item);
    assert(in_rank =~= (|item: T| same_rank(item, rank)));
    assert(of_rank(result@, rank) == of_rank(items@, rank));
}

/// A log file is named `redo_log.`, its index in eight digits or more, and `.log`.
pub proof fn law_log_name_is_made(index: usize, digits: Vec<u8>, result: Vec<u8>)
    requires
        call_ensures(make_log_name, (index,), result),
        call_ensures(write_padded, (index as u64, 8usize), digits),
    ensures
        result@ == seq![0x72u8, 0x65, 0x64, 0x6f, 0x5f, 0x6c, 0x6f, 0x67, 0x2e] + digits@
            + seq![0x2eu8, 0x6c, 0x6f, 0x67],
{
}

/// The name of a log file is read as the index that it was made for, is told to be
/// one, and stands behind the names of smaller indices, up to eight digits.
pub proof fn law_made_log_name_is_read(
    index: usize,
    name: &[u8],
    made: Vec<u8>,
    is_log: bool,
    read: Option<usize>,
    smaller: usize,
    earlier: Vec<u8>,
)
    requires
        call_ensures(make_log_name, (index,), made),
        name@ == made@,
        call_ensures(check_log_name, (name,), is_log),
        call_ensures(read_log_index, (name,), read),
        call_ensures(make_log_name, (smaller,), earlier),
    ensures
        is_log,
        read == Some(index),
        smaller < index < 100_000_000 ==> stands_no_later(earlier@, made@) && earlier@ != made@,
{
    law_log_name_is_read_back(index);
    if smaller < index < 100_000_000 {
        law_log_names_in_order(smaller as int, index as int);
        lemma_lexical_is_byte_by_byte(earlier@, made@);
    }
}

/// Whether a name ends in `.log`, in small or capital letters.
pub open spec fn ends_in_log(name: Seq<u8>) -> bool {
    let n = name.len();
    &&& n >= 4
    &&& name[n - 4] == 0x2e
    &&& name[n - 3] == 0x6c || name[n - 3] == 0x4c
    &&& name[n - 2] == 0x6f || name[n - 2] == 0x4f
    &&& name[n - 1] == 0x67 || name[n - 1] == 0x47
}

pub proof fn lemma_log_name_ends_in_log(name: Seq<u8>)
    ensures
        is_log_name(name) <==> ends_in_log(name),
{
}

/// A log file is told by the end of its name.
pub proof fn law_log_name_is_checked(name: &[u8], result: bool)
    requires
        call_ensures(check_log_name, (name,), result),
    ensures
        result <==> ends_in_log(name@),
{
    lemma_log_name_ends_in_log(name@);
}

/// The index of a log file is the number between the first dot of its name and the
/// second, or the end.
pub proof fn law_log_index_is_the_second_piece(
    name: &[u8],
    front: Seq<u8>,
    piece: &[u8],
    rest: Seq<u8>,
    number: Option<u64>,
    result: Option<usize>,
)
    requires
        call_ensures(read_log_index, (name,), result),
        call_ensures(read_unsigned, (piece, usize::MAX as u64), number),
        !front.contains(0x2e),
        !piece@.contains(0x2e),
        rest.len() == 0 || rest[0] == 0x2e,
        name@ == front + seq![0x2eu8] + piece@ + rest,
    ensures
        match number {
            Some(n) => result == Some(n as usize),
            None => result is None,
        },
{
    let whole = name@;
    assert forall|i: int| 0 <= i < front.len() implies whole[i] != DOT by {
        assert(whole[i] == front[i]);
        assert(front.contains(front[i]));
    }
    assert(whole[front.len() as int] == DOT);
    lemma_place_unique(whole, DOT, front.len() as int);
    let behind = whole.skip(front.len() as int + 1);
    assert(behind =~= piece@ + rest);
    assert forall|i: int| 0 <= i < piece@.len() implies behind[i] != DOT by {
        assert(behind[i] == piece@[i]);
        assert(piece@.contains(piece@[i]));
    }
    if rest.len() > 0 {
        assert(behind[piece@.len() as int] == rest[0]);
    }
    lemma_place_unique(behind, DOT, piece@.len() as int);
    assert(second_piece(whole) =~= piece@);
}

/// A log goes on with its last file, or begins with the one of index 0.
pub proof fn law_log_goes_on_with_its_last_file(
    names: Vec<Vec<u8>>,
    first: Vec<u8>,
    result: Vec<u8>,
)
    requires
        call_ensures(last_file_to_open, (&names,), result),
        call_ensures(make_log_name, (0usize,), first),
    ensures
        names@.len() == 0 ==> result@ == first@,
        names@.len() > 0 ==> result@ == names@.last()@,
{
    if names@.len() > 0 {
        assert(names@.map_values(|name: Vec<u8>| name@).last() == names@.last()@);
    }
}

/// Whether an entry is a log file.
pub open spec fn is_wanted(entry: Result<DirEntry, std::io::Error>) -> bool {
    &&& entry matches Ok(found)
    &&& ends_in_log(found.name@)
    &&& found.is_file matches Ok(true)
}

/// The fault that an entry stands for, where it does: it could not be listed, or is
/// named like a log file and could not be asked whether it is a file.
pub open spec fn fault_of(entry: Result<DirEntry, std::io::Error>) -> Option<std::io::Error> {
    match entry {
        Err(fault) => Some(fault),
        Ok(found) => if ends_in_log(found.name@) {
            match found.is_file {
                Err(fault) => Some(fault),
                Ok(_) => None,
            }
        } else {
            None
        },
    }
}

/// The names of the entries that are log files.
pub open spec fn wanted_names(listing: Seq<Result<DirEntry, std::io::Error>>) -> Seq<Vec<u8>> {
    listing.filter(|entry: Result<DirEntry, std::io::Error>| is_wanted(entry)).map_values(
        |entry: Result<DirEntry, std::io::Error>| entry->Ok_0.name,
    )
}

proof fn lemma_listed(listing: Seq<Result<DirEntry, std::io::Error>>)
    requires
        forall|i: int| 0 <= i < listing.len() ==> fault_of(#[trigger] listing[i]) is None,
    ensures
        listed(listing) == Ok::<Seq<Vec<u8>>, std::io::Error>(wanted_names(listing)),
    decreases listing.len(),
{
    reveal(Seq::filter);
    if listing.len() > 0 {
        let earlier = listing.drop_last();
        let last = listing.last();
        assert forall|i: int| 0 <= i < earlier.len() implies fault_of(
            #[trigger] earlier[i],
        ) is None by {
            assert(earlier[i] == listing[i]);
        }
        lemma_listed(earlier);
        assert(fault_of(listing[listing.len() - 1]) is None);
        if let Ok(entry) = last {
            lemma_log_name_ends_in_log(entry.name@);
        }
        let keep = |entry: Result<DirEntry, std::io::Error>| is_wanted(entry);
        if is_wanted(last) {
            assert(listing.filter(keep) =~= earlier.filter(keep).push(last));
            assert(wanted_names(listing) =~= wanted_names(earlier).push(last->Ok_0.name));
        } else {
            assert(listing.filter(keep) =~= earlier.filter(keep));
        }
    } else {
        assert(wanted_names(listing) =~= Seq::empty());
    }
}

/// The log files of a directory are its files whose names end in `.log`, each of them
/// once for each entry, in the order of their names. The first fault is handed on.
pub proof fn law_log_files_are_listed(
    listing: Vec<Result<DirEntry, std::io::Error>>,
    result: Result<Vec<Vec<u8>>, std::io::Error>,
)
    requires
        call_ensures(read_log_files, (listing,), result),
    ensures
        (forall|i: int| 0 <= i < listing@.len() ==> fault_of(#[trigger] listing@[i]) is None) ==> {
            &&& result matches Ok(names)
            &&& names@.to_multiset() == wanted_names(listing@).to_multiset()
            &&& forall|i: int, j: int|
                0 <= i < j < names@.len() ==> stands_no_later(
                    (#[trigger] names@[i])@,
                    (#[trigger] names@[j])@,
                )
        },
        forall|k: int|
            0 <= k < listing@.len() && fault_of(#[trigger] listing@[k]) is Some && (forall|i: int|
                0 <= i < k ==> fault_of(#[trigger] listing@[i]) is None) ==> result == Err::<
                Vec<Vec<u8>>,
                _,
            >(fault_of(listing@[k])->Some_0),
{
    let all = listing@;
    if forall|i: int| 0 <= i < all.len() ==> fault_of(#[trigger] all[i]) is None {
        lemma_listed(all);
        let names = result->Ok_0@;
        assert forall|i: int, j: int| 0 <= i < j < names.len() implies stands_no_later(
            (#[trigger] names[i])@,
            (#[trigger] names[j])@,
        ) by {
            lemma_arranged(wanted_names(all));
            assert(names[i].not_after(names[j]));
            lemma_lexical_is_byte_by_byte(names[i]@, names[j]@);
        }
    }
    assert forall|k: int|
        0 <= k < all.len() && fault_of(#[trigger] all[k]) is Some && (forall|i: int|
            0 <= i < k ==> fault_of(#[trigger] all[i]) is None) implies result == Err::<
        Vec<Vec<u8>>,
        _,
    >(fault_of(all[k])->Some_0) by {
        let before = all.take(k);
        assert forall|i: int| 0 <= i < before.len() implies fault_of(
            #[trigger] before[i],
        ) is None by {
            assert(before[i] == all[i]);
        }
        lemma_listed(before);
        assert(all.take(k + 1).drop_last() =~= before);
        if let Ok(entry) = all[k] {
            lemma_log_name_ends_in_log(entry.name@);
        }
        lemma_listed_stops(all, k + 1);
    }
}

/// The index of a file is the number behind the last dot of its name, where that dot
/// is not the very first byte; other names have none.
pub proof fn law_index_is_the_extension(
    name: &[u8],
    front: Seq<u8>,
    digits: &[u8],
    number: Option<u64>,
    result: Option<u64>,
)
    requires
        call_ensures(read_index, (name,), result),
        call_ensures(read_unsigned, (digits, u64::MAX), number),
        front.len() > 0,
        !digits@.contains(0x2e),
        name@ == front + seq![0x2eu8] + digits@,
    ensures
        result == number,
{
    let whole = name@;
    assert(whole[front.len() as int] == DOT);
    assert forall|i: int| front.len() < i < whole.len() implies whole[i] != DOT by {
        assert(whole[i] == digits@[i - front.len() - 1]);
        assert(digits@.contains(digits@[i - front.len() - 1]));
    }
    lemma_last_dot(whole, front.len() as int);
    assert(extension(whole)->Some_0 =~= digits@);
}

/// A name without a dot behind its first byte has no index.
pub proof fn law_name_without_extension_has_no_index(name: &[u8], result: Option<u64>)
    requires
        call_ensures(read_index, (name,), result),
        forall|i: int| 1 <= i < name@.len() ==> name@[i] != 0x2e,
    ensures
        result is None,
{
    if name@.len() > 0 {
        lemma_last_dot(
            name@,
            if name@[0] == DOT {
                0
            } else {
                -1
            },
        );
    }
}

/// Log files and snapshots are named `redolog.log.` and `snapshot.log.`, with the index
/// in ten digits or more, and are read as that index.
pub proof fn law_file_names_are_made(
    index: u64,
    digits: Vec<u8>,
    log: Vec<u8>,
    snapshot: Vec<u8>,
    log_index: u64,
    snapshot_index: u64,
)
    requires
        call_ensures(write_padded, (index, 10usize), digits),
        call_ensures(file_name_for_index, (index,), log),
        call_ensures(snapshot_name_for_index, (index,), snapshot),
        call_ensures(get_index_from_file, (&log,), log_index),
        call_ensures(get_index_from_file, (&snapshot,), snapshot_index),
    ensures
        log@ == seq![0x72u8, 0x65, 0x64, 0x6f, 0x6c, 0x6f, 0x67, 0x2e, 0x6c, 0x6f, 0x67, 0x2e]
            + digits@,
        snapshot@ == seq![
            0x73u8,
            0x6e,
            0x61,
            0x70,
            0x73,
            0x68,
            0x6f,
            0x74,
            0x2e,
            0x6c,
            0x6f,
            0x67,
            0x2e,
        ] + digits@,
        log_index == index,
        snapshot_index == index,
{
    law_file_names_are_read_back(index);
}

/// Whether a name begins with `redolog`.
pub open spec fn begins_like_a_log(name: Seq<u8>) -> bool {
    name.len() >= 7 && name.take(7) == seq![0x72u8, 0x65, 0x64, 0x6f, 0x6c, 0x6f, 0x67]
}

/// Whether a name begins with `snapshot`.
pub open spec fn begins_like_a_snapshot(name: Seq<u8>) -> bool {
    name.len() >= 8 && name.take(8) == seq![0x73u8, 0x6e, 0x61, 0x70, 0x73, 0x68, 0x6f, 0x74]
}

pub proof fn lemma_file_name_begins(name: Seq<u8>)
    ensures
        is_log_file(name) <==> begins_like_a_log(name),
        is_snapshot_file(name) <==> begins_like_a_snapshot(name),
{
    if name.len() >= 7 {
        assert(name.take(7) =~= name.subrange(0, 7));
    }
    if name.len() >= 8 {
        assert(name.take(8) =~= name.subrange(0, 8));
    }
}

/// Log files and snapshots are told by how their names begin.
pub proof fn law_file_names_are_checked(name: Vec<u8>, is_log: bool, is_snapshot: bool)
    requires
        call_ensures(check_log_file, (&name,), is_log),
        call_ensures(check_snapshot_file, (&name,), is_snapshot),
    ensures
        is_log <==> begins_like_a_log(name@),
        is_snapshot <==> begins_like_a_snapshot(name@),
{
    lemma_file_name_begins(name@);
}

/// Whether an entry is a log file or a snapshot.
pub open spec fn is_taken(entry: Result<Entry, std::io::Error>) -> bool {
    &&& entry matches Ok(found)
    &&& found.is_file
    &&& begins_like_a_log(found.name@) || begins_like_a_snapshot(found.name@)
}

/// The names of the entries that are log files or snapshots.
pub open spec fn taken_names(listing: Seq<Result<Entry, std::io::Error>>) -> Seq<Vec<u8>> {
    listing.filter(|entry: Result<Entry, std::io::Error>| is_taken(entry)).map_values(
        |entry: Result<Entry, std::io::Error>| entry->Ok_0.name,
    )
}

proof fn lemma_kept(listing: Seq<Result<Entry, std::io::Error>>)
    requires
        forall|i: int| 0 <= i < listing.len() ==> (#[trigger] listing[i]) is Ok,
    ensures
        kept(listing) == Ok::<Seq<Vec<u8>>, std::io::Error>(taken_names(listing)),
    decreases listing.len(),
{
    reveal(Seq::filter);
    if listing.len() > 0 {
        let earlier = listing.drop_last();
        let last = listing.last();
        assert forall|i: int| 0 <= i < earlier.len() implies (#[trigger] earlier[i]) is Ok by {
            assert(earlier[i] == listing[i]);
        }
        lemma_kept(earlier);
        assert(listing[listing.len() - 1] is Ok);
        lemma_file_name_begins(last->Ok_0.name@);
        let keep = |entry: Result<Entry, std::io::Error>| is_taken(entry);
        if is_taken(last) {
            assert(listing.filter(keep) =~= earlier.filter(keep).push(last));
            assert(taken_names(listing) =~= taken_names(earlier).push(last->Ok_0.name));
        } else {
            assert(listing.filter(keep) =~= earlier.filter(keep));
        }
    } else {
        assert(taken_names(listing) =~= Seq::empty());
    }
}

/// The files of a log are those whose names begin like that of a log file or a
/// snapshot, in the order in which they are listed. The first fault is handed on.
pub proof fn law_files_are_listed(
    listing: Vec<Result<Entry, std::io::Error>>,
    result: Result<Vec<Vec<u8>>, std::io::Error>,
)
    requires
        call_ensures(files, (listing,), result),
    ensures
        (forall|i: int| 0 <= i < listing@.len() ==> (#[trigger] listing@[i]) is Ok) ==> (
        result matches Ok(names) && names@ == taken_names(listing@)),
        forall|k: int|
            0 <= k < listing@.len() && (#[trigger] listing@[k]) is Err && (forall|i: int|
                0 <= i < k ==> (#[trigger] listing@[i]) is Ok) ==> result == Err::<
                Vec<Vec<u8>>,
                _,
            >(listing@[k]->Err_0),
{
    let all = listing@;
    if forall|i: int| 0 <= i < all.len() ==> (#[trigger] all[i]) is Ok {
        lemma_kept(all);
    }
    assert forall|k: int|
        0 <= k < all.len() && (#[trigger] all[k]) is Err && (forall|i: int|
            0 <= i < k ==> (#[trigger] all[i]) is Ok) implies result == Err::<Vec<Vec<u8>>, _>(
        all[k]->Err_0,
    ) by {
        let before = all.take(k);
        assert forall|i: int| 0 <= i < before.len() implies (#[trigger] before[i]) is Ok by {
            assert(before[i] == all[i]);
        }
        lemma_kept(before);
        assert(all.take(k + 1).drop_last() =~= before);
        lemma_kept_stops(all, k + 1);
    }
}

/// The index may be asked for of any name that ends in `.log`, and of any name that has
/// one behind its last dot.
pub proof fn law_index_may_be_asked_for(name: &[u8], file: Vec<u8>, index: Option<u64>)
    requires
        name@ == file@,
        call_ensures(read_index, (name,), index),
    ensures
        ends_in_log(name@) ==> call_requires(read_log_index, (name,)),
        index is Some ==> call_requires(get_index_from_file, (&file,)),
{
    lemma_log_name_ends_in_log(name@);
}

/// Both ways of asking for an index give the same one.
pub proof fn law_index_is_one(name: &[u8], file: Vec<u8>, index: Option<u64>, found: u64)
    requires
        name@ == file@,
        call_ensures(read_index, (name,), index),
        call_ensures(get_index_from_file, (&file,), found),
    ensures
        index == Some(found),
{
}

} // verus!
