//! A redo log with snapshots.
use vstd::prelude::*;
use core::marker::PhantomData;
use vstd::slice::slice_subrange;

use crate::bytes::{padded, read_unsigned, starts_with, unsigned, write_padded, DOT};
use crate::error::{PrevaylerError, PrevaylerResult};
use crate::order::{
    arrange, arranged, is_lexical, lemma_lexical_total, lemma_lexical_transitive, lexical, Ranked,
};
use crate::serializer::{Serializer, SerializerResult};
use crate::transaction::Transaction;

verus! {

/// How many digits an index has at least in a file name.
pub const WIDTH: usize = 10;

/// `redolog`
pub open spec fn log_mark() -> Seq<u8> {
    seq![0x72u8, 0x65, 0x64, 0x6f, 0x6c, 0x6f, 0x67]
}

/// `snapshot`
pub open spec fn snapshot_mark() -> Seq<u8> {
    seq![0x73u8, 0x6e, 0x61, 0x70, 0x73, 0x68, 0x6f, 0x74]
}

/// `.log.`
pub open spec fn middle() -> Seq<u8> {
    seq![0x2eu8, 0x6c, 0x6f, 0x67, 0x2e]
}

/// The name of the log file with an index, such as `redolog.log.0000000012`.
pub open spec fn log_file_name(index: int) -> Seq<u8> {
    log_mark() + middle() + padded(index, WIDTH as int)
}

/// The name of the snapshot with an index, such as `snapshot.log.0000000012`.
pub open spec fn snapshot_file_name(index: int) -> Seq<u8> {
    snapshot_mark() + middle() + padded(index, WIDTH as int)
}

pub open spec fn is_log_file(name: Seq<u8>) -> bool {
    log_mark().is_prefix_of(name)
}

pub open spec fn is_snapshot_file(name: Seq<u8>) -> bool {
    snapshot_mark().is_prefix_of(name)
}

/// The place of the last dot of a name, or -1 where it has none.
pub open spec fn last_dot(name: Seq<u8>) -> int
    decreases name.len(),
{
    if name.len() == 0 {
        -1
    } else if name.last() == DOT {
        name.len() - 1
    } else {
        last_dot(name.drop_last())
    }
}

/// What stands behind the last dot of a name. A dot at the very beginning is part
/// of the name.
pub open spec fn extension(name: Seq<u8>) -> Option<Seq<u8>> {
    if last_dot(name) > 0 {
        Some(name.skip(last_dot(name) + 1))
    } else {
        None
    }
}

/// The index that a file has by its name, where it has one.
pub open spec fn index_in(name: Seq<u8>) -> Option<int> {
    match extension(name) {
        Some(digits) => unsigned(digits, u64::MAX as int),
        None => None,
    }
}

pub proof fn lemma_last_dot(name: Seq<u8>, at: int)
    requires
        -1 <= at < name.len(),
        at >= 0 ==> name[at] == DOT,
        forall|i: int| at < i < name.len() ==> name[i] != DOT,
    ensures
        last_dot(name) == at,
    decreases name.len(),
{
    if name.len() > 0 && at < name.len() - 1 {
        assert(name[name.len() - 1] != DOT);
        lemma_last_dot(name.drop_last(), at);
    }
}

/// The index of the file `name`, where its name has one.
pub fn read_index(name: &[u8]) -> (result: Option<u64>)
    ensures
        result is Some <==> index_in(name@) is Some,
        result matches Some(index) ==> index_in(name@) == Some(index as int),
{
    let n: usize = name.len();
    let mut start: usize = n;
    while start > 0 && name[start - 1] != DOT
        invariant
            start <= n == name@.len(),
            forall|i: int| start <= i < n ==> name@[i] != DOT,
        decreases start,
    {
        start = start - 1;
    }
    proof {
        lemma_last_dot(name@, start - 1);
    }
    if start < 2 {
        return None;
    }
    let digits = slice_subrange(name, start, n);
    assert(digits@ =~= name@.skip(start as int));
    read_unsigned(digits, u64::MAX)
}

/// The index of the file `name`.
pub fn get_index_from_file(name: &Vec<u8>) -> (result: u64)
    requires
        index_in(name@) is Some,
    ensures
        Some(result as int) == index_in(name@),
{
    match read_index(name.as_slice()) {
        Some(index) => index,
        None => {
            assert(false);
            0
        },
    }
}

/// The name of the log file with index `index`.
pub fn file_name_for_index(index: u64) -> (result: Vec<u8>)
    ensures
        result@ == log_file_name(index as int),
{
    let mut name: Vec<u8> = vec![
        0x72u8,
        0x65,
        0x64,
        0x6f,
        0x6c,
        0x6f,
        0x67,
        0x2e,
        0x6c,
        0x6f,
        0x67,
        0x2e,
    ];
    assert(name@ =~= log_mark() + middle());
    let mut digits: Vec<u8> = write_padded(index, WIDTH);
    name.append(&mut digits);
    name
}

/// The name of the snapshot with index `index`.
pub fn snapshot_name_for_index(index: u64) -> (result: Vec<u8>)
    ensures
        result@ == snapshot_file_name(index as int),
{
    let mut name: Vec<u8> = vec![
        0x73u8,
        0x6e,
        0x61,
        0x70,
        0x73,
        0x68,
        0x6f,
        0x74,
        0x2e,
        0x6c,
        0x6f,
        0x67,
        0x2e,
    ];
    assert(name@ =~= snapshot_mark() + middle());
    let mut digits: Vec<u8> = write_padded(index, WIDTH);
    name.append(&mut digits);
    name
}

/// Whether `name` is that of a log file.
pub fn check_log_file(name: &Vec<u8>) -> (result: bool)
    ensures
        result == is_log_file(name@),
{
    let mark: Vec<u8> = vec![0x72u8, 0x65, 0x64, 0x6f, 0x6c, 0x6f, 0x67];
    assert(mark@ =~= log_mark());
    starts_with(name.as_slice(), mark.as_slice())
}

/// Whether `name` is that of a snapshot.
pub fn check_snapshot_file(name: &Vec<u8>) -> (result: bool)
    ensures
        result == is_snapshot_file(name@),
{
    let mark: Vec<u8> = vec![0x73u8, 0x6e, 0x61, 0x70, 0x73, 0x68, 0x6f, 0x74];
    assert(mark@ =~= snapshot_mark());
    starts_with(name.as_slice(), mark.as_slice())
}

/// What a directory says of one of its entries.
pub struct Entry {
    pub name: Vec<u8>,
    pub is_file: bool,
}

/// The log files and snapshots among the entries of a directory, or the first
/// fault of listing them.
pub open spec fn kept(listing: Seq<Result<Entry, std::io::Error>>) -> Result<
    Seq<Vec<u8>>,
    std::io::Error,
>
    decreases listing.len(),
{
    if listing.len() == 0 {
        Ok(Seq::empty())
    } else {
        match kept(listing.drop_last()) {
            Err(fault) => Err(fault),
            Ok(names) => match listing.last() {
                Err(fault) => Err(fault),
                Ok(entry) => if entry.is_file && (is_log_file(entry.name@) || is_snapshot_file(
                    entry.name@,
                )) {
                    Ok(names.push(entry.name))
                } else {
                    Ok(names)
                },
            },
        }
    }
}

pub proof fn lemma_kept_stops(listing: Seq<Result<Entry, std::io::Error>>, at: int)
    requires
        0 <= at <= listing.len(),
        kept(listing.take(at)) is Err,
    ensures
        kept(listing) == kept(listing.take(at)),
    decreases listing.len() - at,
{
    if at < listing.len() {
        assert(listing.take(at + 1).drop_last() =~= listing.take(at));
        lemma_kept_stops(listing, at + 1);
    } else {
        assert(listing.take(at) =~= listing);
    }
}

/// The names of the log files and snapshots of a directory.
pub fn files(listing: Vec<Result<Entry, std::io::Error>>) -> (result: Result<
    Vec<Vec<u8>>,
    std::io::Error,
>)
    ensures
        match kept(listing@) {
            Ok(names) => result matches Ok(made) && made@ == names,
            Err(fault) => result == Err::<Vec<Vec<u8>>, _>(fault),
        },
{
    let mut names: Vec<Vec<u8>> = Vec::new();
    let ghost all = listing@;
    assert(all.take(0) =~= Seq::empty());
    for item in it: listing
        invariant
            it.seq() == all,
            kept(all.take(it.index() as int)) == Ok::<_, std::io::Error>(names@),
    {
        let ghost n = it.index() as int;
        proof {
            assert(all.take(n + 1).drop_last() =~= all.take(n));
            if kept(all.take(n + 1)) is Err {
                lemma_kept_stops(all, n + 1);
            }
        }
        match item {
            Err(fault) => {
                return Err(fault);
            },
            Ok(entry) => {
                if entry.is_file && (check_log_file(&entry.name) || check_snapshot_file(
                    &entry.name,
                )) {
                    names.push(entry.name);
                }
            },
        }
    }
    assert(all.take(all.len() as int) =~= all);
    Ok(names)
}

/// A file name with its index. It is the index that ranks it.
pub struct Indexed {
    pub index: u64,
    pub name: Vec<u8>,
}

impl Ranked for Indexed {
    open spec fn not_after(self, other: Self) -> bool {
        self.index <= other.index
    }

    proof fn total(a: Self, b: Self) {
    }

    proof fn transitive(a: Self, b: Self, c: Self) {
    }

    fn is_not_after(&self, other: &Self) -> (result: bool) {
        self.index <= other.index
    }
}

/// The rank of a file: its index, where it has one.
pub open spec fn rank_of(name: Seq<u8>) -> u64 {
    match index_in(name) {
        Some(index) => index as u64,
        None => 0,
    }
}

/// The names with their ranks.
pub open spec fn indexed(names: Seq<Vec<u8>>) -> Seq<Indexed> {
    names.map_values(|name: Vec<u8>| Indexed { index: rank_of(name@), name })
}

pub open spec fn all_indexed(names: Seq<Vec<u8>>) -> bool {
    forall|i: int| 0 <= i < names.len() ==> index_in(#[trigger] names[i]@) is Some
}

/// The place of the last snapshot, or -1 where there is none.
pub open spec fn last_snapshot(files: Seq<Indexed>) -> int
    decreases files.len(),
{
    if files.len() == 0 {
        -1
    } else if is_snapshot_file(files.last().name@) {
        files.len() - 1
    } else {
        last_snapshot(files.drop_last())
    }
}

proof fn lemma_last_snapshot(files: Seq<Indexed>, at: int)
    requires
        -1 <= at < files.len(),
        at >= 0 ==> is_snapshot_file(files[at].name@),
        forall|i: int| at < i < files.len() ==> !is_snapshot_file(#[trigger] files[i].name@),
    ensures
        last_snapshot(files) == at,
    decreases files.len(),
{
    if files.len() > 0 && at < files.len() - 1 {
        assert(!is_snapshot_file(files[files.len() - 1].name@));
        lemma_last_snapshot(files.drop_last(), at);
    }
}

/// Which files the data is restored from.
pub struct Selection {
    /// The index that the next log file gets where none follows the snapshot.
    pub index: u64,
    /// The snapshot to begin with.
    pub snapshot: Option<Vec<u8>>,
    /// The log files to replay, in this order.
    pub files: Vec<Vec<u8>>,
}

/// The files of a directory by their indices, from the last snapshot on.
pub open spec fn selected(names: Seq<Vec<u8>>) -> (int, Option<Vec<u8>>, Seq<Vec<u8>>) {
    let ranked = arranged(indexed(names));
    let at = last_snapshot(ranked);
    let files = ranked.skip(at + 1).map_values(|file: Indexed| file.name);
    if at < 0 {
        (0, None, files)
    } else {
        (ranked[at].index + 1, Some(ranked[at].name), files)
    }
}

/// Selects the files that the data is restored from. Files are told apart by
/// their indices: where there are several, or a snapshot, each has to have one.
pub fn process_snapshots(names: Vec<Vec<u8>>) -> (result: Selection)
    requires
        names@.len() > 1 || (names@.len() == 1 && is_snapshot_file(names@[0]@)) ==> all_indexed(
            names@,
        ),
        selected(names@).0 <= u64::MAX,
    ensures
        result.index == selected(names@).0,
        result.snapshot == selected(names@).1,
        result.files@ == selected(names@).2,
{
    let mut files: Vec<Indexed> = Vec::new();
    let ghost all = names@;
    for name in it: names
        invariant
            it.seq() == all,
            files@ =~= indexed(all.take(it.index() as int)),
    {
        let ghost n = it.index() as int;
        let index: u64 = match read_index(name.as_slice()) {
            Some(index) => index,
            None => 0,
        };
        files.push(Indexed { index, name });
        assert(all.take(n + 1) =~= all.take(n).push(name));
    }
    assert(all.take(all.len() as int) =~= all);
    let mut ranked: Vec<Indexed> = arrange(files);
    let ghost sorted = ranked@;
    let mut later: Vec<Vec<u8>> = Vec::new();
    let mut index: u64 = 0;
    let mut snapshot: Option<Vec<u8>> = None;
    let ghost mut left = sorted;
    let mut more: bool = true;
    // `later` holds the names behind those that are left, the last one first.
    while more
        invariant
            sorted == arranged(indexed(names@)),
            selected(names@).0 <= u64::MAX,
            left.len() <= sorted.len(),
            left == sorted.take(left.len() as int),
            more ==> ranked@ == left && index == 0 && snapshot is None,
            later@.reverse() =~= sorted.skip(left.len() as int).map_values(
                |file: Indexed| file.name,
            ),
            more ==> forall|i: int|
                left.len() <= i < sorted.len() ==> !is_snapshot_file(#[trigger] sorted[i].name@),
            !more ==> last_snapshot(sorted) == left.len() - 1,
            !more ==> index == selected(names@).0 && snapshot == selected(names@).1,
        decreases left.len() + (if more { 1int } else { 0int }),
    {
        match ranked.pop() {
            None => {
                more = false;
                proof {
                    lemma_last_snapshot(sorted, -1);
                }
            },
            Some(file) => {
                let ghost n = left.len() as int;
                assert(file == sorted[n - 1]);
                if check_snapshot_file(&file.name) {
                    proof {
                        lemma_last_snapshot(sorted, n - 1);
                    }
                    index = file.index + 1;
                    snapshot = Some(file.name);
                    more = false;
                } else {
                    proof {
                        left = left.drop_last();
                        assert(left =~= sorted.take(left.len() as int));
                    }
                    let ghost before = later@;
                    later.push(file.name);
                    proof {
                        let to_name = |file: Indexed| file.name;
                        assert(sorted.skip(n - 1) =~= seq![sorted[n - 1]] + sorted.skip(n));
                        assert(later@.reverse() =~= seq![file.name] + before.reverse());
                        assert(later@.reverse() =~= sorted.skip(n - 1).map_values(to_name));
                    }
                }
            },
        }
    }
    let mut files: Vec<Vec<u8>> = Vec::new();
    let ghost all_later = later@;
    while later.len() > 0
        invariant
            files@ + later@.reverse() =~= all_later.reverse(),
        decreases later@.len(),
    {
        let ghost before = later@;
        match later.pop() {
            Some(name) => {
                assert(before.reverse() =~= seq![name] + later@.reverse());
                files.push(name);
            },
            None => {},
        }
    }
    assert(later@.reverse() =~= Seq::<Vec<u8>>::empty());
    assert(files@ =~= selected(names@).2);
    Selection { index, snapshot, files }
}

/// A file that was read, or the fault of opening it.
pub struct LogRead {
    pub name: Vec<u8>,
    pub contents: Result<Vec<u8>, std::io::Error>,
}

impl Ranked for LogRead {
    open spec fn not_after(self, other: Self) -> bool {
        lexical(self.name@, other.name@)
    }

    proof fn total(a: Self, b: Self) {
        lemma_lexical_total(a.name@, b.name@);
    }

    proof fn transitive(a: Self, b: Self, c: Self) {
        lemma_lexical_transitive(a.name@, b.name@, c.name@);
    }

    fn is_not_after(&self, other: &Self) -> (result: bool) {
        is_lexical(self.name.as_slice(), other.name.as_slice())
    }
}

/// `LogRead` as plain bytes.
pub struct ReadView {
    pub name: Seq<u8>,
    pub contents: Result<Seq<u8>, std::io::Error>,
}

impl View for LogRead {
    type V = ReadView;

    open spec fn view(&self) -> ReadView {
        ReadView {
            name: self.name@,
            contents: match self.contents {
                Ok(bytes) => Ok(bytes@),
                Err(fault) => Err(fault),
            },
        }
    }
}

pub open spec fn read_views(files: Seq<LogRead>) -> Seq<ReadView> {
    files.map_values(|file: LogRead| file@)
}

/// What a replay leaves: the data, how many transactions came from the last file,
/// and the error at which it stopped.
pub struct Restored<T, E> {
    pub data: T,
    pub count: int,
    pub error: Option<PrevaylerError<E>>,
}

impl<T, E> Restored<T, E> {
    /// Whether the replay came to `data` without an error.
    pub open spec fn reached(self, data: T, count: int) -> bool {
        &&& self.data == data
        &&& self.count == count
        &&& self.error is None
    }
}

/// The transactions of one file are executed one after the other, up to the first
/// that could not be read.
pub open spec fn restore_items<T, D: Transaction<T>, E>(
    items: Seq<SerializerResult<D, E>>,
    data: T,
) -> Restored<T, E>
    decreases items.len(),
{
    if items.len() == 0 {
        Restored { data, count: 0, error: None }
    } else {
        let before = restore_items(items.drop_last(), data);
        if before.error is Some {
            before
        } else {
            match items.last() {
                Ok(transaction) => Restored {
                    data: transaction.after(before.data),
                    count: before.count + 1,
                    error: None,
                },
                Err(error) => Restored {
                    data: before.data,
                    count: before.count,
                    error: Some(PrevaylerError::SerializationError(error)),
                },
            }
        }
    }
}

/// The files of a log are replayed one after the other, up to the first error.
pub open spec fn restore_files<T, D: Transaction<T>, S: Serializer<D>>(
    serializer: &S,
    files: Seq<ReadView>,
    data: T,
) -> Restored<T, S::Error>
    decreases files.len(),
{
    if files.len() == 0 {
        Restored { data, count: 0, error: None }
    } else {
        let before = restore_files::<T, D, S>(serializer, files.drop_last(), data);
        if before.error is Some {
            before
        } else {
            match files.last().contents {
                Err(fault) => Restored {
                    data: before.data,
                    count: 0,
                    error: Some(PrevaylerError::IOError(fault)),
                },
                Ok(bytes) => restore_items(serializer.items(bytes), before.data),
            }
        }
    }
}

pub proof fn lemma_restore_items_stops<T, D: Transaction<T>, E>(
    items: Seq<SerializerResult<D, E>>,
    data: T,
    at: int,
)
    requires
        0 <= at <= items.len(),
        restore_items(items.take(at), data).error is Some,
    ensures
        restore_items(items, data) == restore_items(items.take(at), data),
    decreases items.len() - at,
{
    if at < items.len() {
        assert(items.take(at + 1).drop_last() =~= items.take(at));
        lemma_restore_items_stops(items, data, at + 1);
    } else {
        assert(items.take(at) =~= items);
    }
}

pub proof fn lemma_restore_files_stops<T, D: Transaction<T>, S: Serializer<D>>(
    serializer: &S,
    files: Seq<ReadView>,
    data: T,
    at: int,
)
    requires
        0 <= at <= files.len(),
        restore_files::<T, D, S>(serializer, files.take(at), data).error is Some,
    ensures
        restore_files::<T, D, S>(serializer, files, data) == restore_files::<T, D, S>(
            serializer,
            files.take(at),
            data,
        ),
    decreases files.len() - at,
{
    if at < files.len() {
        assert(files.take(at + 1).drop_last() =~= files.take(at));
        lemma_restore_files_stops::<T, D, S>(serializer, files, data, at + 1);
    } else {
        assert(files.take(at) =~= files);
    }
}

/// Whether each file that is replayed without an error has an index.
pub open spec fn replayed_indexed<T, D: Transaction<T>, S: Serializer<D>>(
    serializer: &S,
    files: Seq<ReadView>,
    data: T,
) -> bool {
    forall|i: int|
        0 <= i < files.len() && restore_files::<T, D, S>(
            serializer,
            #[trigger] files.take(i + 1),
            data,
        ).error is None ==> index_in(files[i].name) is Some
}

/// Replays `files` on `data`. Returns the index of the last file, how many
/// transactions it holds, and its name.
pub fn process_files<T, D: Transaction<T>, S: Serializer<D>>(
    serializer: &S,
    files: Vec<LogRead>,
    data: &mut T,
) -> (result: PrevaylerResult<(u64, u64, Vec<u8>), S::Error>)
    requires
        replayed_indexed::<T, D, S>(serializer, read_views(files@), *old(data)),
    ensures
        ({
            let restored = restore_files::<T, D, S>(serializer, read_views(files@), *old(data));
            &&& *final(data) == restored.data
            &&& match restored.error {
                Some(error) => result == Err::<(u64, u64, Vec<u8>), _>(error),
                None => {
                    &&& result matches Ok((index, count, name))
                    &&& count == restored.count
                    &&& files@.len() > 0 ==> {
                        &&& name@ == files@.last().name@
                        &&& Some(index as int) == index_in(name@)
                    }
                    &&& files@.len() == 0 ==> index == 0 && name@.len() == 0
                },
            }
        }),
{
    let mut index: u64 = 0;
    let mut count: u64 = 0;
    let mut last_file_name: Vec<u8> = Vec::new();
    let ghost all = read_views(files@);
    assert(all.take(0) =~= Seq::empty());
    for file in it: files
        invariant
            read_views(it.seq()) == all,
            all == read_views(files@),
            replayed_indexed::<T, D, S>(serializer, all, *old(data)),
            restore_files::<T, D, S>(
                serializer,
                all.take(it.index() as int),
                *old(data),
            ).reached(*data, count as int),
            it.index() == 0 ==> index == 0 && last_file_name@.len() == 0,
            it.index() > 0 ==> last_file_name@ == all[it.index() - 1].name && Some(index as int)
                == index_in(last_file_name@),
    {
        let ghost k = it.index() as int;
        let ghost before = *data;
        proof {
            assert(all[k] == file@);
            assert(all.take(k + 1).drop_last() =~= all.take(k));
            assert(all.take(k + 1).last() == all[k]);
        }
        count = 0;
        let LogRead { name, contents } = file;
        let bytes: Vec<u8> = match contents {
            Ok(bytes) => bytes,
            Err(fault) => {
                proof {
                    lemma_restore_files_stops::<T, D, S>(serializer, all, *old(data), k + 1);
                }
                return Err(PrevaylerError::from(fault));
            },
        };
        let transactions = serializer.deserialize(bytes);
        let length: usize = transactions.len();
        let ghost read = transactions@;
        assert(read.take(0) =~= Seq::empty());
        for transaction in inner: transactions
            invariant
                inner.seq() == read,
                0 <= k < all.len(),
                all == read_views(files@),
                count == inner.index(),
                read.len() == length,
                restore_items(read.take(inner.index() as int), before).reached(
                    *data,
                    count as int,
                ),
                restore_files::<T, D, S>(serializer, all.take(k + 1), *old(data))
                    == restore_items(read, before),
        {
            let ghost m = inner.index() as int;
            assert(read.take(m + 1).drop_last() =~= read.take(m));
            assert(read.take(m + 1).last() == transaction);
            match transaction {
                Ok(transaction) => {
                    count = count + 1;
                    let _output = transaction.execute(data);
                },
                Err(error) => {
                    proof {
                        lemma_restore_items_stops(read, before, m + 1);
                        lemma_restore_files_stops::<T, D, S>(serializer, all, *old(data), k + 1);
                    }
                    return Err(PrevaylerError::from(error));
                },
            }
        }
        assert(read.take(read.len() as int) =~= read);
        index = get_index_from_file(&name);
        last_file_name = name;
    }
    assert(all.take(all.len() as int) =~= all);
    Ok((index, count, last_file_name))
}

/// A redo log that a file is open for. `current_size` counts the transactions of
/// that file; the one that brings it to `max_size` begins the next file, and is not
/// counted there until the log is opened again.
pub struct ReDoLog<D, S> {
    path: Vec<u8>,
    max_size: u64,
    current_size: u64,
    index: u64,
    serializer: S,
    in_snapshot: bool,
    _p: PhantomData<D>,
}

/// A redo log as plain values.
#[verifier::ext_equal]
pub struct ReDoLogView {
    pub path: Seq<u8>,
    pub max_size: int,
    pub current_size: int,
    pub index: int,
}

/// How the file of a log has to be opened.
pub enum OpenLog {
    /// The file is there and is appended to.
    Append(Vec<u8>),
    /// The file is created.
    Create(Vec<u8>),
}

/// `OpenLog` as plain bytes.
pub enum OpenView {
    Append(Seq<u8>),
    Create(Seq<u8>),
}

impl View for OpenLog {
    type V = OpenView;

    open spec fn view(&self) -> OpenView {
        match *self {
            OpenLog::Append(name) => OpenView::Append(name@),
            OpenLog::Create(name) => OpenView::Create(name@),
        }
    }
}

/// The log that goes on with files that were replayed, and the file to open for
/// it; or the error at which the replay stopped. Where there is no file, the log
/// begins with the one of index `index`.
pub open spec fn resumed_log<T, E>(
    path: Seq<u8>,
    files: Seq<ReadView>,
    index: int,
    max_size: int,
    restored: Restored<T, E>,
) -> Result<(ReDoLogView, OpenView), PrevaylerError<E>> {
    match restored.error {
        Some(error) => Err(error),
        None => if files.len() == 0 {
            Ok(
                (
                    ReDoLogView { path, max_size, current_size: 0, index },
                    OpenView::Create(log_file_name(index)),
                ),
            )
        } else {
            Ok(
                (
                    ReDoLogView {
                        path,
                        max_size,
                        current_size: restored.count,
                        index: index_in(files.last().name)->Some_0,
                    },
                    OpenView::Append(files.last().name),
                ),
            )
        },
    }
}

/// Whether `result` is the log and the file, or the error, that `expected` says.
pub open spec fn is_resumed<D, S, E>(
    result: PrevaylerResult<(ReDoLog<D, S>, OpenLog), E>,
    expected: Result<(ReDoLogView, OpenView), PrevaylerError<E>>,
    serializer: S,
) -> bool {
    match expected {
        Err(error) => result == Err::<(ReDoLog<D, S>, OpenLog), _>(error),
        Ok((log, file)) => {
            &&& result matches Ok((made, open))
            &&& made@ == log
            &&& made.spec_serializer() == serializer
            &&& !made.in_snapshot()
            &&& open@ == file
        },
    }
}

impl<D, S> View for ReDoLog<D, S> {
    type V = ReDoLogView;

    closed spec fn view(&self) -> ReDoLogView {
        ReDoLogView {
            path: self.path@,
            max_size: self.max_size as int,
            current_size: self.current_size as int,
            index: self.index as int,
        }
    }
}

impl<D, S> ReDoLog<D, S> {
    pub closed spec fn spec_serializer(self) -> S {
        self.serializer
    }

    /// Whether a snapshot has begun and is not over.
    pub closed spec fn in_snapshot(self) -> bool {
        self.in_snapshot
    }

    /// A log without any file yet.
    pub fn new_empty(path: Vec<u8>, index: u64, max_size: u64, serializer: S) -> (result: (
        Self,
        OpenLog,
    ))
        ensures
            result.0@ == (ReDoLogView {
                path: path@,
                max_size: max_size as int,
                current_size: 0,
                index: index as int,
            }),
            result.0.spec_serializer() == serializer,
            !result.0.in_snapshot(),
            result.1@ == OpenView::Create(log_file_name(index as int)),
    {
        let file: Vec<u8> = file_name_for_index(index);
        (
            ReDoLog {
                path,
                max_size,
                current_size: 0,
                index,
                serializer,
                in_snapshot: false,
                _p: PhantomData {  },
            },
            OpenLog::Create(file),
        )
    }

    /// Replays `files` on `data` in the order in which they are given, and goes on
    /// with the last of them.
    pub fn new_from_files<T>(
        path: Vec<u8>,
        files: Vec<LogRead>,
        index: u64,
        max_size: u64,
        serializer: S,
        data: &mut T,
    ) -> (result: PrevaylerResult<(Self, OpenLog), S::Error>) where
        D: Transaction<T>,
        S: Serializer<D>,

        requires
            replayed_indexed::<T, D, S>(&serializer, read_views(files@), *old(data)),
        ensures
            ({
                let views = read_views(files@);
                let restored = restore_files::<T, D, S>(&serializer, views, *old(data));
                &&& *final(data) == restored.data
                &&& is_resumed(
                    result,
                    resumed_log(path@, views, index as int, max_size as int, restored),
                    serializer,
                )
            }),
    {
        if files.len() == 0 {
            return Ok(Self::new_empty(path, index, max_size, serializer));
        }
        let ghost views = read_views(files@);
        assert(views.last() == files@.last()@);
        match process_files::<T, D, S>(&serializer, files, data) {
            Ok((index, count, name)) => Ok(
                (
                    ReDoLog {
                        path,
                        max_size,
                        current_size: count,
                        index,
                        serializer,
                        in_snapshot: false,
                        _p: PhantomData {  },
                    },
                    OpenLog::Append(name),
                ),
            ),
            Err(error) => Err(error),
        }
    }

    /// Restores `data` from the files of the directory `path`: all are replayed in
    /// the order of their names.
    pub fn new<T>(
        path: Vec<u8>,
        max_size: u64,
        serializer: S,
        data: &mut T,
        files: Vec<LogRead>,
    ) -> (result: PrevaylerResult<(Self, OpenLog), S::Error>) where
        D: Transaction<T>,
        S: Serializer<D>,

        requires
            replayed_indexed::<T, D, S>(&serializer, read_views(arranged(files@)), *old(data)),
        ensures
            ({
                let views = read_views(arranged(files@));
                let restored = restore_files::<T, D, S>(&serializer, views, *old(data));
                &&& *final(data) == restored.data
                &&& is_resumed(
                    result,
                    resumed_log(path@, views, 0, max_size as int, restored),
                    serializer,
                )
            }),
    {
        let files: Vec<LogRead> = arrange(files);
        Self::new_from_files(path, files, 0, max_size, serializer, data)
    }
}

/// What a snapshot gives: its first value, the error of reading that, or the fault
/// of opening the file. A snapshot without any value gives nothing.
pub open spec fn snapshot_value<T, S: Serializer<T>>(
    serializer: &S,
    contents: Result<Seq<u8>, std::io::Error>,
) -> Option<PrevaylerResult<T, S::Error>> {
    match contents {
        Err(fault) => Some(Err(PrevaylerError::IOError(fault))),
        Ok(bytes) => {
            let items = serializer.items(bytes);
            if items.len() == 0 {
                None
            } else {
                match items[0] {
                    Ok(value) => Some(Ok(value)),
                    Err(error) => Some(Err(PrevaylerError::SerializationError(error))),
                }
            }
        },
    }
}

/// What a snapshot that was read gives.
pub fn load_snapshot<T, S: Serializer<T>>(
    serializer: &S,
    contents: Result<Vec<u8>, std::io::Error>,
) -> (result: Option<PrevaylerResult<T, S::Error>>)
    ensures
        result == snapshot_value::<T, S>(
            serializer,
            match contents {
                Ok(bytes) => Ok(bytes@),
                Err(fault) => Err(fault),
            },
        ),
{
    match contents {
        Err(fault) => Some(Err(PrevaylerError::from(fault))),
        Ok(bytes) => {
            let mut items = serializer.deserialize(bytes);
            if items.len() == 0 {
                return None;
            }
            match items.remove(0) {
                Ok(value) => Some(Ok(value)),
                Err(error) => Some(Err(PrevaylerError::from(error))),
            }
        },
    }
}

/// What the logs are replayed on: the value of the snapshot, or `data` where there
/// is no snapshot.
pub open spec fn replay_start<T, S: Serializer<T>>(
    serializer: &S,
    snapshot: Option<Result<Vec<u8>, std::io::Error>>,
    data: T,
) -> Option<PrevaylerResult<T, S::Error>> {
    match snapshot {
        None => Some(Ok(data)),
        Some(Ok(bytes)) => snapshot_value::<T, S>(serializer, Ok(bytes@)),
        Some(Err(fault)) => snapshot_value::<T, S>(serializer, Err(fault)),
    }
}

impl<D, S> ReDoLog<D, S> {
    /// Restores `data` as `new_with_snapshot` does, but where the snapshot holds no
    /// value gives nothing and leaves `data` as it is.
    pub fn try_new_with_snapshot<T>(
        path: Vec<u8>,
        max_size: u64,
        serializer: S,
        data: &mut T,
        index: u64,
        snapshot: Option<Result<Vec<u8>, std::io::Error>>,
        files: Vec<LogRead>,
    ) -> (result: Option<PrevaylerResult<(Self, OpenLog), <S as Serializer<D>>::Error>>) where
        D: Transaction<T>,
        S: Serializer<D> + Serializer<T, Error = <S as Serializer<D>>::Error>,

        requires
            replay_start::<T, S>(&serializer, snapshot, *old(data)) matches Some(Ok(start))
                ==> replayed_indexed::<T, D, S>(&serializer, read_views(files@), start),
        ensures
            match replay_start::<T, S>(&serializer, snapshot, *old(data)) {
                None => result is None && *final(data) == *old(data),
                Some(Err(error)) => {
                    &&& result == Some(Err::<(Self, OpenLog), _>(error))
                    &&& *final(data) == *old(data)
                },
                Some(Ok(start)) => {
                    let views = read_views(files@);
                    let restored = restore_files::<T, D, S>(&serializer, views, start);
                    &&& *final(data) == restored.data
                    &&& result matches Some(made)
                    &&& is_resumed(
                        made,
                        resumed_log(path@, views, index as int, max_size as int, restored),
                        serializer,
                    )
                },
            },
    {
        if let Some(contents) = snapshot {
            match load_snapshot::<T, S>(&serializer, contents) {
                None => {
                    return None;
                },
                Some(Err(error)) => {
                    return Some(Err(error));
                },
                Some(Ok(value)) => {
                    *data = value;
                },
            }
        }
        Some(Self::new_from_files(path, files, index, max_size, serializer, data))
    }

    /// Restores `data` from the files that `process_snapshots` selected: the first
    /// value of the snapshot, where there is one, with `files` replayed on it.
    pub fn new_with_snapshot<T>(
        path: Vec<u8>,
        max_size: u64,
        serializer: S,
        data: &mut T,
        index: u64,
        snapshot: Option<Result<Vec<u8>, std::io::Error>>,
        files: Vec<LogRead>,
    ) -> (result: PrevaylerResult<(Self, OpenLog), <S as Serializer<D>>::Error>) where
        D: Transaction<T>,
        S: Serializer<D> + Serializer<T, Error = <S as Serializer<D>>::Error>,

        requires
            replay_start::<T, S>(&serializer, snapshot, *old(data)) is Some,
            replay_start::<T, S>(&serializer, snapshot, *old(data)) matches Some(Ok(start))
                ==> replayed_indexed::<T, D, S>(&serializer, read_views(files@), start),
        ensures
            match replay_start::<T, S>(&serializer, snapshot, *old(data)) {
                None => false,
                Some(Err(error)) => {
                    &&& result == Err::<(Self, OpenLog), _>(error)
                    &&& *final(data) == *old(data)
                },
                Some(Ok(start)) => {
                    let views = read_views(files@);
                    let restored = restore_files::<T, D, S>(&serializer, views, start);
                    &&& *final(data) == restored.data
                    &&& is_resumed(
                        result,
                        resumed_log(path@, views, index as int, max_size as int, restored),
                        serializer,
                    )
                },
            },
    {
        Self::try_new_with_snapshot(
            path,
            max_size,
            serializer,
            data,
            index,
            snapshot,
            files,
        ).unwrap()
    }
}

/// What has to be done for a redo log.
pub enum FileAction {
    /// Create a file of this name in the directory of the log, and go on with it.
    CreateLog(Vec<u8>),
    /// Append these bytes to the file of the log.
    WriteLog(Vec<u8>),
    /// Flush the file of the log.
    FlushLog,
    /// Create a file of this name for a snapshot.
    CreateSnapshot(Vec<u8>),
    /// Write these bytes to the snapshot.
    WriteSnapshot(Vec<u8>),
    /// Flush the snapshot.
    FlushSnapshot,
}

/// `FileAction` as plain bytes.
pub enum FileActionView {
    CreateLog(Seq<u8>),
    WriteLog(Seq<u8>),
    FlushLog,
    CreateSnapshot(Seq<u8>),
    WriteSnapshot(Seq<u8>),
    FlushSnapshot,
}

impl View for FileAction {
    type V = FileActionView;

    open spec fn view(&self) -> FileActionView {
        match *self {
            FileAction::CreateLog(name) => FileActionView::CreateLog(name@),
            FileAction::WriteLog(bytes) => FileActionView::WriteLog(bytes@),
            FileAction::FlushLog => FileActionView::FlushLog,
            FileAction::CreateSnapshot(name) => FileActionView::CreateSnapshot(name@),
            FileAction::WriteSnapshot(bytes) => FileActionView::WriteSnapshot(bytes@),
            FileAction::FlushSnapshot => FileActionView::FlushSnapshot,
        }
    }
}

pub open spec fn action_views(actions: Seq<FileAction>) -> Seq<FileActionView> {
    actions.map_values(|action: FileAction| action@)
}

impl ReDoLogView {
    /// The log when it goes on with its next file.
    pub open spec fn next_file(self) -> ReDoLogView {
        ReDoLogView { index: self.index + 1, current_size: 0, ..self }
    }

    /// The log when one more transaction is counted.
    pub open spec fn counted(self) -> ReDoLogView {
        ReDoLogView { current_size: self.current_size + 1, ..self }
    }

    pub open spec fn is_full(self) -> bool {
        self.current_size >= self.max_size
    }

    /// Whether the counters can go up as often as one write makes them.
    pub open spec fn has_room(self) -> bool {
        &&& self.current_size < u64::MAX
        &&& self.counted().is_full() ==> self.index < u64::MAX
    }

    /// The log after a write. The transaction that finds the file full goes to the
    /// next file, and is not counted there.
    pub open spec fn written(self) -> ReDoLogView {
        if self.counted().is_full() {
            self.counted().next_file()
        } else {
            self.counted()
        }
    }

    /// What has to be done, in this order, to write `bytes`.
    pub open spec fn write_actions(self, bytes: Seq<u8>) -> Seq<FileActionView> {
        let write = seq![FileActionView::WriteLog(bytes), FileActionView::FlushLog];
        if self.counted().is_full() {
            seq![FileActionView::CreateLog(log_file_name(self.index + 1))] + write
        } else {
            write
        }
    }

    /// The log while a snapshot is taken, which has an index of its own.
    pub open spec fn in_snapshot(self) -> ReDoLogView {
        ReDoLogView { index: self.index + 1, ..self }
    }

    /// The log when a snapshot was taken: it goes on behind the snapshot.
    pub open spec fn after_snapshot(self) -> ReDoLogView {
        self.in_snapshot().next_file()
    }

    pub open spec fn create_snapshot(self) -> FileActionView {
        FileActionView::CreateSnapshot(snapshot_file_name(self.index + 1))
    }

    /// What has to be done, in this order, for a snapshot that consists of `bytes`.
    pub open spec fn snapshot_actions(self, bytes: Seq<u8>) -> Seq<FileActionView> {
        seq![
            self.create_snapshot(),
            FileActionView::WriteSnapshot(bytes),
            FileActionView::FlushSnapshot,
        ]
    }
}

impl<D, S> ReDoLog<D, S> {
    /// Whether the counters can go up as often as one write makes them.
    pub fn has_room(&self) -> (result: bool)
        ensures
            result == self@.has_room(),
    {
        self.current_size < u64::MAX && (self.current_size + 1 < self.max_size || self.index
            < u64::MAX)
    }

    /// How many more files the log can begin.
    pub fn files_left(&self) -> (result: u64)
        ensures
            result == u64::MAX - self@.index,
    {
        u64::MAX - self.index
    }

    /// The bytes of a transaction.
    pub fn serialize(&self, data: &D) -> (result: PrevaylerResult<Vec<u8>, S::Error>) where
        S: Serializer<D>,

        ensures
            match self.spec_serializer().encoded(*data) {
                Ok(bytes) => result matches Ok(made) && made@ == bytes,
                Err(error) => result == Err::<Vec<u8>, _>(
                    PrevaylerError::SerializationError(error),
                ),
            },
    {
        match self.serializer.serialize(data) {
            Ok(bytes) => Ok(bytes),
            Err(error) => Err(PrevaylerError::from(error)),
        }
    }

    /// Whether a snapshot has begun and is not over.
    pub fn is_in_snapshot(&self) -> (result: bool)
        ensures
            result == self.in_snapshot(),
    {
        self.in_snapshot
    }

    /// Begins to write the bytes of a transaction to the log. What has to be done
    /// is done in the order given, up to the first failure.
    pub fn write_to_log(&mut self, data: Vec<u8>) -> (result: Vec<FileAction>)
        requires
            !old(self).in_snapshot(),
            old(self)@.has_room(),
        ensures
            final(self)@ == old(self)@.written(),
            final(self).spec_serializer() == old(self).spec_serializer(),
            !final(self).in_snapshot(),
            action_views(result@) == old(self)@.write_actions(data@),
    {
        let ghost bytes = data@;
        let mut actions: Vec<FileAction> = Vec::new();
        self.current_size = self.current_size + 1;
        if let Some(action) = self.create_new_log_if_necessary() {
            actions.push(action);
        }
        actions.push(FileAction::WriteLog(data));
        actions.push(FileAction::FlushLog);
        assert(action_views(actions@) =~= old(self)@.write_actions(bytes));
        actions
    }

    /// Begins to take a snapshot of `data`. What has to be done is done in the order
    /// given, up to the first failure. Where the result is no error,
    /// `resume_snapshot` follows.
    pub fn snapshot<T>(&mut self, data: &T) -> (result: (
        Vec<FileAction>,
        PrevaylerResult<(), S::Error>,
    )) where S: Serializer<T>,
        requires
            !old(self).in_snapshot(),
            old(self)@.index < u64::MAX,
        ensures
            final(self)@ == old(self)@.in_snapshot(),
            final(self).spec_serializer() == old(self).spec_serializer(),
            match old(self).spec_serializer().encoded(*data) {
                Ok(bytes) => {
                    &&& action_views(result.0@) == old(self)@.snapshot_actions(bytes)
                    &&& result.1 is Ok
                    &&& final(self).in_snapshot()
                },
                Err(error) => {
                    &&& action_views(result.0@) == seq![old(self)@.create_snapshot()]
                    &&& result.1 == Err::<(), _>(PrevaylerError::SerializationError(error))
                    &&& !final(self).in_snapshot()
                },
            },
    {
        self.index = self.index + 1;
        let mut actions: Vec<FileAction> = Vec::new();
        actions.push(FileAction::CreateSnapshot(snapshot_name_for_index(self.index)));
        match self.serializer.serialize(data) {
            Ok(bytes) => {
                let ghost encoded = bytes@;
                actions.push(FileAction::WriteSnapshot(bytes));
                actions.push(FileAction::FlushSnapshot);
                assert(action_views(actions@) =~= old(self)@.snapshot_actions(encoded));
                self.in_snapshot = true;
                (actions, Ok(()))
            },
            Err(error) => {
                assert(action_views(actions@) =~= seq![old(self)@.create_snapshot()]);
                (actions, Err(PrevaylerError::from(error)))
            },
        }
    }

    /// Goes on with the snapshot that has begun, after what had to be done for it
    /// came to `outcome`: the log goes on with its next file. A failure ends the
    /// snapshot, and the log goes on with the file that is open.
    pub fn resume_snapshot(&mut self, outcome: Result<(), std::io::Error>) -> (result: Result<
        FileAction,
        std::io::Error,
    >)
        requires
            old(self).in_snapshot(),
            outcome is Ok ==> old(self)@.index < u64::MAX,
        ensures
            final(self).spec_serializer() == old(self).spec_serializer(),
            !final(self).in_snapshot(),
            match outcome {
                Ok(_) => {
                    &&& final(self)@ == old(self)@.next_file()
                    &&& result matches Ok(action)
                    &&& action@ == FileActionView::CreateLog(log_file_name(old(self)@.index + 1))
                },
                Err(fault) => {
                    &&& final(self)@ == old(self)@
                    &&& result == Err::<FileAction, _>(fault)
                },
            },
    {
        self.in_snapshot = false;
        match outcome {
            Ok(_) => Ok(self.create_new_log()),
            Err(fault) => Err(fault),
        }
    }

    /// Goes on with the next file where the one that is open is full.
    fn create_new_log_if_necessary(&mut self) -> (result: Option<FileAction>)
        requires
            old(self)@.is_full() ==> old(self)@.index < u64::MAX,
        ensures
            final(self).spec_serializer() == old(self).spec_serializer(),
            final(self).in_snapshot() == old(self).in_snapshot(),
            if old(self)@.is_full() {
                &&& final(self)@ == old(self)@.next_file()
                &&& result matches Some(action)
                &&& action@ == FileActionView::CreateLog(log_file_name(old(self)@.index + 1))
            } else {
                &&& final(self)@ == old(self)@
                &&& result is None
            },
    {
        if self.current_size >= self.max_size {
            Some(self.create_new_log())
        } else {
            None
        }
    }

    /// Goes on with the next file.
    fn create_new_log(&mut self) -> (result: FileAction)
        requires
            old(self)@.index < u64::MAX,
        ensures
            final(self)@ == old(self)@.next_file(),
            final(self).spec_serializer() == old(self).spec_serializer(),
            final(self).in_snapshot() == old(self).in_snapshot(),
            result@ == FileActionView::CreateLog(log_file_name(old(self)@.index + 1)),
    {
        self.index = self.index + 1;
        self.current_size = 0;
        FileAction::CreateLog(file_name_for_index(self.index))
    }
}

} // verus!
