//! What the redo log with snapshots promises as a whole: what is written is restored,
//! from the log alone or from the last snapshot on.
use vstd::prelude::*;

use crate::bytes::{
    is_digit, lemma_padded, lemma_padded_is_read_back, lemma_place, lemma_unsigned_range, padded,
    DOT, NEWLINE,
};
use crate::error::PrevaylerError;
use crate::framing::{
    is_finished, is_record, law_torn_record, lemma_record_alone, lemma_records_joined, records,
};
use crate::json::parses;
use crate::laws::{
    disk_in_order, follows, json_log, lemma_json_log_records, reads_only, without_newlines,
    DiskFile,
};
use crate::order::{
    arranged, lemma_arranged, lemma_arranged_mapped, lemma_lexical_total, lemma_lexical_transitive,
    lemma_order_unique, lemma_padded_in_order, lexical, power_of_ten, Ranked,
};
use crate::redolog::{
    extension, index_in, indexed, is_log_file, is_snapshot_file, last_snapshot, lemma_last_dot,
    log_file_name, log_mark, middle, rank_of, read_views, restore_files, restore_items, resumed_log,
    selected, snapshot_file_name, snapshot_mark, snapshot_value, FileActionView, Indexed, LogRead,
    OpenView, ReDoLogView, ReadView, WIDTH,
};
use crate::serializer::{line_of, value_of, Serializer, SerializerError, SerializerResult};
use crate::transaction::Transaction;

verus! {

proof fn lemma_file_name(mark: Seq<u8>, index: u64)
    requires
        mark.len() > 0,
    ensures
        index_in(mark + middle() + padded(index as int, WIDTH as int)) == Some(index as int),
{
    let digits = padded(index as int, WIDTH as int);
    let start = mark + middle();
    let name = start + digits;
    lemma_padded(index as int, WIDTH as int);
    assert(name[start.len() - 1] == middle()[4]);
    assert forall|i: int| start.len() - 1 < i < name.len() implies name[i] != DOT by {
        assert(name[i] == digits[i - start.len()]);
        assert(is_digit(digits[i - start.len()]));
    }
    lemma_last_dot(name, start.len() - 1);
    assert(name.skip(start.len() as int) =~= digits);
    lemma_padded_is_read_back(index as int, WIDTH as int, u64::MAX as int);
}

/// The names that are made for an index are those of a log file and of a snapshot,
/// and are read as that index.
pub proof fn law_file_names_are_read_back(index: u64)
    ensures
        index_in(log_file_name(index as int)) == Some(index as int),
        index_in(snapshot_file_name(index as int)) == Some(index as int),
        is_log_file(log_file_name(index as int)),
        is_snapshot_file(snapshot_file_name(index as int)),
        !is_snapshot_file(log_file_name(index as int)),
        !is_log_file(snapshot_file_name(index as int)),
{
    lemma_file_name(log_mark(), index);
    lemma_file_name(snapshot_mark(), index);
    let log = log_file_name(index as int);
    let snapshot = snapshot_file_name(index as int);
    assert(log_mark() =~= log.subrange(0, log_mark().len() as int));
    assert(snapshot_mark() =~= snapshot.subrange(0, snapshot_mark().len() as int));
    if is_snapshot_file(log) {
        assert(log[0] == log_mark()[0]);
        assert(log.subrange(0, snapshot_mark().len() as int)[0] == snapshot_mark()[0]);
    }
    if is_log_file(snapshot) {
        assert(snapshot[0] == snapshot_mark()[0]);
        assert(snapshot.subrange(0, log_mark().len() as int)[0] == log_mark()[0]);
    }
}

/// Log files stand in the order of their indices, as far as those have ten digits:
/// `redolog.log.10000000000` stands before `redolog.log.9999999999`.
pub proof fn law_log_files_in_order(a: int, b: int)
    requires
        0 <= a < b < 10_000_000_000,
    ensures
        follows(log_file_name(b), log_file_name(a)),
{
    reveal_with_fuel(power_of_ten, 11);
    let start = log_mark() + middle();
    lemma_padded_in_order(start, Seq::empty(), WIDTH as int, a, b);
    assert(log_file_name(a) =~= start + padded(a, WIDTH as int) + Seq::empty());
    assert(log_file_name(b) =~= start + padded(b, WIDTH as int) + Seq::empty());
}

/// Files as they are read when nothing fails.
pub open spec fn contents_read(disk: Seq<DiskFile>) -> Seq<ReadView> {
    disk.map_values(|file: DiskFile| ReadView { name: file.name, contents: Ok(file.bytes) })
}

/// Whether each file has an index, above those of the files before it.
pub open spec fn by_index(disk: Seq<DiskFile>) -> bool {
    &&& forall|i: int| 0 <= i < disk.len() ==> index_in((#[trigger] disk[i]).name) is Some
    &&& forall|i: int, j: int|
        0 <= i < j < disk.len() ==> index_in((#[trigger] disk[i]).name)->Some_0 < index_in(
            (#[trigger] disk[j]).name,
        )->Some_0
}

/// In whatever order the files of a directory are read, they are replayed in the
/// order of their names.
pub proof fn law_reading_order_does_not_matter(disk: Seq<DiskFile>, files: Seq<LogRead>)
    requires
        disk_in_order(disk),
        read_views(files).to_multiset() == contents_read(disk).to_multiset(),
    ensures
        read_views(arranged(files)) == contents_read(disk),
{
    let view = |file: LogRead| file@;
    let sorted = read_views(arranged(files));
    let expected = contents_read(disk);
    lemma_arranged(files);
    lemma_arranged_mapped(files, view);
    assert forall|i: int, j: int| 0 <= i < j < sorted.len() implies lexical(
        (#[trigger] sorted[i]).name,
        (#[trigger] sorted[j]).name,
    ) by {
        assert(arranged(files)[i].not_after(arranged(files)[j]));
    }
    assert forall|i: int, j: int| 0 <= i < j < expected.len() implies !lexical(
        (#[trigger] expected[j]).name,
        (#[trigger] expected[i]).name,
    ) by {
        assert(follows(disk[j].name, disk[i].name));
        lemma_lexical_total(disk[i].name, disk[j].name);
    }
    lemma_order_unique(sorted, expected, |a: ReadView, b: ReadView| lexical(a.name, b.name));
}

/// The place of the last snapshot among files, or -1 where there is none.
pub open spec fn snapshot_place(disk: Seq<DiskFile>) -> int
    decreases disk.len(),
{
    if disk.len() == 0 {
        -1
    } else if is_snapshot_file(disk.last().name) {
        disk.len() - 1
    } else {
        snapshot_place(disk.drop_last())
    }
}

proof fn lemma_snapshot_place(files: Seq<Indexed>, disk: Seq<DiskFile>)
    requires
        files.len() == disk.len(),
        forall|i: int| 0 <= i < files.len() ==> (#[trigger] files[i]).name@ == disk[i].name,
    ensures
        last_snapshot(files) == snapshot_place(disk),
        -1 <= snapshot_place(disk) < disk.len(),
    decreases files.len(),
{
    if files.len() > 0 {
        assert(files[files.len() - 1].name@ == disk[disk.len() - 1].name);
        lemma_snapshot_place(files.drop_last(), disk.drop_last());
    }
}

proof fn lemma_ranked(names: Seq<Vec<u8>>, i: int)
    requires
        0 <= i < names.len(),
    ensures
        ({
            let file = arranged(indexed(names))[i];
            file.index == rank_of(file.name@)
        }),
{
    broadcast use vstd::seq_lib::group_to_multiset_ensures;

    let items = indexed(names);
    lemma_arranged(items);
    let file = arranged(items)[i];
    assert(arranged(items).to_multiset().count(file) > 0);
    assert(items.contains(file));
}

/// In whatever order a directory lists its files, the last snapshot is selected,
/// and the log files behind it in the order of their indices.
pub proof fn law_listing_order_does_not_matter_to_selection(
    disk: Seq<DiskFile>,
    listing: Seq<Vec<u8>>,
)
    requires
        by_index(disk),
        listing.map_values(|name: Vec<u8>| name@).to_multiset() == disk.map_values(
            |file: DiskFile| file.name,
        ).to_multiset(),
    ensures
        ({
            let at = snapshot_place(disk);
            let (index, snapshot, files) = selected(listing);
            &&& -1 <= at < disk.len()
            &&& files.map_values(|name: Vec<u8>| name@) == disk.skip(at + 1).map_values(
                |file: DiskFile| file.name,
            )
            &&& if at < 0 {
                index == 0 && snapshot is None
            } else {
                &&& Some(index - 1) == index_in(disk[at].name)
                &&& snapshot matches Some(name) && name@ == disk[at].name
            }
        }),
{
    let view = |file: Indexed| file.name@;
    let ranked = arranged(indexed(listing));
    let sorted = ranked.map_values(view);
    let expected = disk.map_values(|file: DiskFile| file.name);
    lemma_arranged(indexed(listing));
    lemma_arranged_mapped(indexed(listing), view);
    assert(indexed(listing).map_values(view) =~= listing.map_values(|name: Vec<u8>| name@));
    assert forall|i: int, j: int| 0 <= i < j < sorted.len() implies rank_of(#[trigger] sorted[i])
        <= rank_of(#[trigger] sorted[j]) by {
        lemma_ranked(listing, i);
        lemma_ranked(listing, j);
        assert(ranked[i].not_after(ranked[j]));
    }
    assert forall|i: int| 0 <= i < disk.len() implies index_in((#[trigger] disk[i]).name) == Some(
        rank_of(disk[i].name) as int,
    ) by {
        lemma_unsigned_range(extension(disk[i].name)->Some_0, u64::MAX as int);
    }
    assert forall|i: int, j: int| 0 <= i < j < expected.len() implies !(rank_of(
        #[trigger] expected[j],
    ) <= rank_of(#[trigger] expected[i])) by {
        assert(index_in(disk[i].name)->Some_0 < index_in(disk[j].name)->Some_0);
    }
    lemma_order_unique(sorted, expected, |a: Seq<u8>, b: Seq<u8>| rank_of(a) <= rank_of(b));
    assert(sorted.len() == expected.len());
    assert forall|i: int| 0 <= i < ranked.len() implies (#[trigger] ranked[i]).name@
        == disk[i].name by {
        assert(sorted[i] == expected[i]);
    }
    lemma_snapshot_place(ranked, disk);
    let at = snapshot_place(disk);
    if at >= 0 {
        lemma_ranked(listing, at);
    }
    assert(selected(listing).2.map_values(|name: Vec<u8>| name@) =~= disk.skip(at + 1).map_values(
        |file: DiskFile| file.name,
    ));
}

/// The files of a directory, with the places of the one that the log writes to and
/// of the one that a snapshot is written to.
#[verifier::ext_equal]
pub struct OpenDisk {
    pub files: Seq<DiskFile>,
    pub log: int,
    pub snapshot: Option<int>,
}

impl OpenDisk {
    /// A new file behind the others.
    pub open spec fn created(self, name: Seq<u8>) -> Seq<DiskFile> {
        self.files.push(DiskFile { name, bytes: Seq::empty() })
    }

    /// The files when bytes are appended to the one at a place.
    pub open spec fn appended(self, at: int, bytes: Seq<u8>) -> Seq<DiskFile> {
        let file = self.files[at];
        self.files.update(at, DiskFile { name: file.name, bytes: file.bytes + bytes })
    }

    /// What an action makes of the files.
    pub open spec fn done(self, action: FileActionView) -> OpenDisk {
        let places = self.files.len() as int;
        match action {
            FileActionView::CreateLog(name) => OpenDisk {
                files: self.created(name),
                log: places,
                ..self
            },
            FileActionView::WriteLog(bytes) => OpenDisk {
                files: self.appended(self.log, bytes),
                ..self
            },
            FileActionView::CreateSnapshot(name) => OpenDisk {
                files: self.created(name),
                snapshot: Some(places),
                ..self
            },
            FileActionView::WriteSnapshot(bytes) => match self.snapshot {
                Some(at) => OpenDisk { files: self.appended(at, bytes), ..self },
                None => self,
            },
            FileActionView::FlushLog | FileActionView::FlushSnapshot => self,
        }
    }

    /// What actions make of the files, one after the other.
    pub open spec fn all_done(self, actions: Seq<FileActionView>) -> OpenDisk
        decreases actions.len(),
    {
        if actions.len() == 0 {
            self
        } else {
            self.done(actions[0]).all_done(actions.drop_first())
        }
    }

    /// Whether the log writes to the last file, which is that of its index.
    pub open spec fn is_of(self, log: ReDoLogView) -> bool {
        &&& self.files.len() > 0
        &&& self.log == self.files.len() - 1
        &&& self.files.last().name == log_file_name(log.index)
    }
}

/// What a write of `bytes` makes of files of which the log writes to the last.
spec fn files_written(files: Seq<DiskFile>, log: ReDoLogView, bytes: Seq<u8>) -> Seq<DiskFile> {
    if log.counted().is_full() {
        files.push(DiskFile { name: log_file_name(log.index + 1), bytes })
    } else {
        files.drop_last().push(
            DiskFile { name: files.last().name, bytes: files.last().bytes + bytes },
        )
    }
}

proof fn lemma_disk_written(disk: OpenDisk, log: ReDoLogView, bytes: Seq<u8>)
    requires
        disk.is_of(log),
    ensures
        ({
            let after = disk.all_done(log.write_actions(bytes));
            &&& after.files == files_written(disk.files, log, bytes)
            &&& after.is_of(log.written())
            &&& after.snapshot == disk.snapshot
        }),
{
    reveal_with_fuel(OpenDisk::all_done, 4);
    let write = seq![FileActionView::WriteLog(bytes), FileActionView::FlushLog];
    assert(write.drop_first() =~= seq![FileActionView::FlushLog]);
    assert(write.drop_first().drop_first() =~= Seq::<FileActionView>::empty());
    let after = disk.all_done(log.write_actions(bytes));
    if log.counted().is_full() {
        let create = FileActionView::CreateLog(log_file_name(log.index + 1));
        let actions = seq![create] + write;
        assert(actions.drop_first() =~= write);
        assert(Seq::<u8>::empty() + bytes =~= bytes);
    }
    assert(after.files =~= files_written(disk.files, log, bytes));
}

/// Whether a file that holds `bytes` holds the transaction as one more when it is
/// written behind them.
pub open spec fn holds_more<D, S: Serializer<D>>(
    serializer: &S,
    bytes: Seq<u8>,
    transaction: D,
) -> bool {
    &&& serializer.encoded(transaction) is Ok
    &&& serializer.items(bytes + serializer.encoded(transaction)->Ok_0) == serializer.items(
        bytes,
    ).push(Ok(transaction))
}

/// What a write of `transaction` needs: that the serializer reads it back where it
/// is written.
pub open spec fn is_kept<D, S: Serializer<D>>(
    serializer: &S,
    files: Seq<DiskFile>,
    log: ReDoLogView,
    transaction: D,
) -> bool {
    if log.counted().is_full() {
        &&& serializer.items(Seq::empty()).len() == 0
        &&& holds_more(serializer, Seq::empty(), transaction)
    } else {
        holds_more(serializer, files.last().bytes, transaction)
    }
}

proof fn lemma_write_is_restored<T, D: Transaction<T>, S: Serializer<D>>(
    serializer: &S,
    files: Seq<DiskFile>,
    log: ReDoLogView,
    start: T,
    data: T,
    count: int,
    transaction: D,
)
    requires
        files.len() > 0,
        restore_files::<T, D, S>(serializer, contents_read(files), start).reached(data, count),
        is_kept(serializer, files, log, transaction),
    ensures
        restore_files::<T, D, S>(
            serializer,
            contents_read(files_written(files, log, serializer.encoded(transaction)->Ok_0)),
            start,
        ).reached(
            transaction.after(data),
            if log.counted().is_full() {
                1
            } else {
                count + 1
            },
        ),
{
    let bytes = serializer.encoded(transaction)->Ok_0;
    let views = contents_read(files_written(files, log, bytes));
    if log.counted().is_full() {
        assert(views.drop_last() =~= contents_read(files));
        let items = serializer.items(bytes);
        assert(Seq::<u8>::empty() + bytes =~= bytes);
        assert(items.drop_last() =~= serializer.items(Seq::empty()));
        assert(restore_items(items.drop_last(), data).reached(data, 0));
        assert(views.last().contents == Ok::<Seq<u8>, std::io::Error>(bytes));
    } else {
        assert(views.drop_last() =~= contents_read(files).drop_last());
        let items = serializer.items(files.last().bytes);
        assert(items.push(Ok(transaction)).drop_last() =~= items);
        assert(views.last().contents == Ok::<Seq<u8>, std::io::Error>(files.last().bytes + bytes));
        assert(contents_read(files).last().contents == Ok::<Seq<u8>, std::io::Error>(
            files.last().bytes,
        ));
    }
}

/// The directory of a log that has just begun.
pub open spec fn new_disk() -> OpenDisk {
    OpenDisk {
        files: seq![DiskFile { name: log_file_name(0), bytes: Seq::empty() }],
        log: 0,
        snapshot: None,
    }
}

/// A log that has just begun.
pub open spec fn new_log(path: Seq<u8>, max_size: int) -> ReDoLogView {
    ReDoLogView { path, max_size, current_size: 0, index: 0 }
}

/// Whether replaying the files on `start` gives `data`, and `log` writes to the
/// last of them.
pub open spec fn replays<T, D: Transaction<T>, S: Serializer<D>>(
    serializer: &S,
    disk: OpenDisk,
    log: ReDoLogView,
    start: T,
    data: T,
) -> bool {
    let restored = restore_files::<T, D, S>(serializer, contents_read(disk.files), start);
    &&& disk.is_of(log)
    &&& disk_in_order(disk.files)
    &&& restored.reached(data, restored.count)
}

/// A log that begins in an empty directory replays to what the data was.
pub proof fn law_empty_log_is_restored<T, D: Transaction<T>, S: Serializer<D>>(
    serializer: &S,
    path: Seq<u8>,
    max_size: int,
    start: T,
)
    requires
        serializer.items(Seq::empty()).len() == 0,
    ensures
        replays::<T, D, S>(serializer, new_disk(), new_log(path, max_size), start, start),
{
    let views = contents_read(new_disk().files);
    assert(views.drop_last() =~= Seq::empty());
    assert(restore_files::<T, D, S>(serializer, views.drop_last(), start).reached(start, 0));
}

/// A transaction that is written is restored: replaying the files gives what it
/// left of the data. The files stay in order as long as their indices have ten
/// digits.
pub proof fn law_write_is_restored<T, D: Transaction<T>, S: Serializer<D>>(
    serializer: &S,
    disk: OpenDisk,
    log: ReDoLogView,
    start: T,
    data: T,
    transaction: D,
)
    requires
        replays::<T, D, S>(serializer, disk, log, start, data),
        is_kept(serializer, disk.files, log, transaction),
        log.counted().is_full() ==> 0 <= log.index < 9_999_999_999,
    ensures
        replays::<T, D, S>(
            serializer,
            disk.all_done(log.write_actions(serializer.encoded(transaction)->Ok_0)),
            log.written(),
            start,
            transaction.after(data),
        ),
{
    let bytes = serializer.encoded(transaction)->Ok_0;
    let before = disk.files;
    let after = disk.all_done(log.write_actions(bytes)).files;
    let restored = restore_files::<T, D, S>(serializer, contents_read(before), start);
    lemma_disk_written(disk, log, bytes);
    lemma_write_is_restored::<T, D, S>(
        serializer,
        before,
        log,
        start,
        data,
        restored.count,
        transaction,
    );
    let last = before.len() - 1;
    assert forall|i: int, j: int| 0 <= i < j < after.len() implies follows(
        (#[trigger] after[j]).name,
        (#[trigger] after[i]).name,
    ) by {
        if j < before.len() {
            assert(follows(before[j].name, before[i].name));
        } else {
            law_log_files_in_order(log.index, log.index + 1);
            if i < last {
                assert(follows(before[last].name, before[i].name));
                lemma_lexical_transitive(before[i].name, before[last].name, after[j].name);
                lemma_lexical_total(before[i].name, before[last].name);
            }
        }
    }
}

/// Whether recovery from the last snapshot, or from `start` where there is none,
/// gives `data`, with `count` transactions in the last file, and `log` writes to
/// that file.
pub open spec fn recovers<T, D: Transaction<T>, S>(
    serializer: &S,
    disk: OpenDisk,
    log: ReDoLogView,
    start: T,
    data: T,
    count: int,
) -> bool where S: Serializer<D> + Serializer<T, Error = <S as Serializer<D>>::Error> {
    let at = snapshot_place(disk.files);
    let first = if at < 0 {
        Some(Ok(start))
    } else {
        snapshot_value::<T, S>(serializer, Ok(disk.files[at].bytes))
    };
    &&& disk.is_of(log)
    &&& -1 <= at < disk.files.len() - 1
    &&& by_index(disk.files)
    &&& 0 <= log.index <= u64::MAX
    &&& first matches Some(Ok(value)) && restore_files::<T, D, S>(
        serializer,
        contents_read(disk.files.skip(at + 1)),
        value,
    ).reached(data, count)
}

/// A log that begins in an empty directory recovers what the data was.
pub proof fn law_empty_log_is_recovered<T, D: Transaction<T>, S>(
    serializer: &S,
    path: Seq<u8>,
    max_size: int,
    start: T,
) where S: Serializer<D> + Serializer<T, Error = <S as Serializer<D>>::Error>
    requires
        Serializer::<D>::items(serializer, Seq::empty()).len() == 0,
    ensures
        recovers::<T, D, S>(serializer, new_disk(), new_log(path, max_size), start, start, 0),
{
    let files = new_disk().files;
    law_file_names_are_read_back(0);
    assert(files.drop_last() =~= Seq::empty());
    assert(snapshot_place(files.drop_last()) == -1);
    assert(files.skip(0) =~= files);
    let views = contents_read(files);
    assert(views.drop_last() =~= Seq::empty());
    assert(restore_files::<T, D, S>(serializer, views.drop_last(), start).reached(start, 0));
}

/// A transaction that is written is recovered: from the last snapshot on, the log
/// gives what the transaction left of the data.
pub proof fn law_write_is_recovered<T, D: Transaction<T>, S>(
    serializer: &S,
    disk: OpenDisk,
    log: ReDoLogView,
    start: T,
    data: T,
    count: int,
    transaction: D,
) where S: Serializer<D> + Serializer<T, Error = <S as Serializer<D>>::Error>
    requires
        recovers::<T, D, S>(serializer, disk, log, start, data, count),
        is_kept(serializer, disk.files, log, transaction),
        log.has_room(),
    ensures
        recovers::<T, D, S>(
            serializer,
            disk.all_done(
                log.write_actions(Serializer::<D>::encoded(serializer, transaction)->Ok_0),
            ),
            log.written(),
            start,
            transaction.after(data),
            if log.counted().is_full() {
                1
            } else {
                count + 1
            },
        ),
{
    let bytes = Serializer::<D>::encoded(serializer, transaction)->Ok_0;
    let before = disk.files;
    let after = disk.all_done(log.write_actions(bytes)).files;
    let at = snapshot_place(before);
    let tail = before.skip(at + 1);
    lemma_disk_written(disk, log, bytes);
    law_file_names_are_read_back(log.index as u64);
    if log.counted().is_full() {
        law_file_names_are_read_back((log.index + 1) as u64);
        assert(after.drop_last() =~= before);
    } else {
        assert(after.drop_last() =~= before.drop_last());
    }
    assert(snapshot_place(after) == at);
    assert(after.skip(at + 1) =~= files_written(tail, log, bytes));
    assert(by_index(after)) by {
        let last = before.len() - 1;
        assert(index_in(before[last].name) == Some(log.index));
        assert forall|i: int| 0 <= i < before.len() implies (#[trigger] after[i]).name
            == before[i].name by {}
        assert forall|i: int, j: int| 0 <= i < j < after.len() implies index_in(
            (#[trigger] after[i]).name,
        )->Some_0 < index_in((#[trigger] after[j]).name)->Some_0 by {
            if j < before.len() {
                assert(index_in(before[i].name)->Some_0 < index_in(before[j].name)->Some_0);
            } else if i < last {
                assert(index_in(before[i].name)->Some_0 < index_in(before[last].name)->Some_0);
            }
        }
    }
    let value = if at < 0 {
        start
    } else {
        snapshot_value::<T, S>(serializer, Ok(before[at].bytes))->Some_0->Ok_0
    };
    if at >= 0 {
        assert(after[at] == before[at]);
    }
    lemma_write_is_restored::<T, D, S>(serializer, tail, log, value, data, count, transaction);
}

/// What a snapshot of `bytes` that is taken to its end makes of the files.
pub open spec fn snapshot_taken(disk: OpenDisk, log: ReDoLogView, bytes: Seq<u8>) -> OpenDisk {
    disk.all_done(log.snapshot_actions(bytes)).done(
        FileActionView::CreateLog(log_file_name(log.in_snapshot().index + 1)),
    )
}

/// A snapshot that is taken to its end leaves the files as they were, a file of its
/// own, and behind it an empty file that the log goes on with.
pub proof fn law_snapshot_adds_two_files(disk: OpenDisk, log: ReDoLogView, bytes: Seq<u8>)
    ensures
        ({
            let after = snapshot_taken(disk, log, bytes);
            &&& after.files == disk.files.push(
                DiskFile { name: snapshot_file_name(log.index + 1), bytes },
            ).push(DiskFile { name: log_file_name(log.index + 2), bytes: Seq::empty() })
            &&& after.is_of(log.after_snapshot())
        }),
{
    reveal_with_fuel(OpenDisk::all_done, 4);
    let write = FileActionView::WriteSnapshot(bytes);
    let actions = log.snapshot_actions(bytes);
    assert(actions.drop_first() =~= seq![write, FileActionView::FlushSnapshot]);
    assert(actions.drop_first().drop_first() =~= seq![FileActionView::FlushSnapshot]);
    assert(actions.drop_first().drop_first().drop_first() =~= Seq::<FileActionView>::empty());
    assert(Seq::<u8>::empty() + bytes =~= bytes);
    assert(disk.all_done(actions).files =~= disk.files.push(
        DiskFile { name: snapshot_file_name(log.index + 1), bytes },
    ));
}

/// Whether a snapshot of `data` consists of `bytes`, and is read back.
pub open spec fn is_snapshot_of<T, S: Serializer<T>>(
    serializer: &S,
    data: T,
    bytes: Seq<u8>,
) -> bool {
    &&& serializer.encoded(data) matches Ok(encoded) && encoded == bytes
    &&& snapshot_value::<T, S>(serializer, Ok(bytes)) matches Some(Ok(value)) && value == data
}

/// When a snapshot was taken, recovery gives the data of the snapshot, whatever it
/// starts with and whatever the files before the snapshot hold.
pub proof fn law_snapshot_is_recovered<T, D: Transaction<T>, S>(
    serializer: &S,
    disk: OpenDisk,
    log: ReDoLogView,
    start: T,
    data: T,
    bytes: Seq<u8>,
) where S: Serializer<D> + Serializer<T, Error = <S as Serializer<D>>::Error>
    requires
        disk.is_of(log),
        by_index(disk.files),
        0 <= log.index,
        log.index + 2 <= u64::MAX,
        Serializer::<D>::items(serializer, Seq::empty()).len() == 0,
        is_snapshot_of(serializer, data, bytes),
    ensures
        recovers::<T, D, S>(
            serializer,
            snapshot_taken(disk, log, bytes),
            log.after_snapshot(),
            start,
            data,
            0,
        ),
{
    let before = disk.files;
    let after = snapshot_taken(disk, log, bytes).files;
    law_snapshot_adds_two_files(disk, log, bytes);
    law_file_names_are_read_back(log.index as u64);
    law_file_names_are_read_back((log.index + 1) as u64);
    law_file_names_are_read_back((log.index + 2) as u64);
    let n = before.len() as int;
    assert(after.drop_last().last().name == snapshot_file_name(log.index + 1));
    assert(snapshot_place(after.drop_last()) == n);
    assert(snapshot_place(after) == n);
    assert(by_index(after)) by {
        assert(index_in(before[n - 1].name) == Some(log.index));
        assert forall|i: int, j: int| 0 <= i < j < after.len() implies index_in(
            (#[trigger] after[i]).name,
        )->Some_0 < index_in((#[trigger] after[j]).name)->Some_0 by {
            if j < n {
                assert(index_in(before[i].name)->Some_0 < index_in(before[j].name)->Some_0);
            } else if i < n - 1 {
                assert(index_in(before[i].name)->Some_0 < index_in(before[n - 1].name)->Some_0);
            }
        }
    }
    let tail = after.skip(n + 1);
    assert(tail =~= seq![DiskFile { name: log_file_name(log.index + 2), bytes: Seq::empty() }]);
    let views = contents_read(tail);
    assert(views.drop_last() =~= Seq::empty());
    assert(restore_files::<T, D, S>(serializer, views.drop_last(), data).reached(data, 0));
}

/// How many transactions a file holds.
pub open spec fn size_of<D, S: Serializer<D>>(serializer: &S, file: DiskFile) -> int {
    serializer.items(file.bytes).len() as int
}

/// A log when it is opened again: it counts each transaction of the file that it
/// writes to.
pub open spec fn reopened<D, S: Serializer<D>>(
    serializer: &S,
    disk: OpenDisk,
    log: ReDoLogView,
) -> ReDoLogView {
    ReDoLogView { current_size: size_of(serializer, disk.files.last()), ..log }
}

proof fn lemma_restored_count<T, D: Transaction<T>, E>(
    items: Seq<SerializerResult<D, E>>,
    data: T,
)
    requires
        restore_items(items, data).error is None,
    ensures
        restore_items(items, data).count == items.len(),
    decreases items.len(),
{
    if items.len() > 0 {
        lemma_restored_count(items.drop_last(), data);
    }
}

proof fn lemma_resumed<T, D: Transaction<T>, S: Serializer<D>>(
    serializer: &S,
    files: Seq<DiskFile>,
    log: ReDoLogView,
    start: T,
    index: int,
)
    requires
        files.len() > 0,
        files.last().name == log_file_name(log.index),
        0 <= log.index <= u64::MAX,
        restore_files::<T, D, S>(serializer, contents_read(files), start).error is None,
    ensures
        ({
            let views = contents_read(files);
            let restored = restore_files::<T, D, S>(serializer, views, start);
            let count = size_of(serializer, files.last());
            &&& restored.count == count
            &&& resumed_log(log.path, views, index, log.max_size, restored) == Ok::<
                (ReDoLogView, OpenView),
                PrevaylerError<S::Error>,
            >(
                (
                    ReDoLogView { current_size: count, ..log },
                    OpenView::Append(log_file_name(log.index)),
                ),
            )
        }),
{
    let views = contents_read(files);
    let before = restore_files::<T, D, S>(serializer, views.drop_last(), start);
    assert(views.last().name == files.last().name);
    assert(views.last().contents == Ok::<Seq<u8>, std::io::Error>(files.last().bytes));
    lemma_restored_count(serializer.items(files.last().bytes), before.data);
    law_file_names_are_read_back(log.index as u64);
}

/// A log that is opened again and replayed goes on with the file that was written
/// last. It is the very log that wrote that file where that counted each of its
/// transactions. (The one that finds a file full begins the next, and is not
/// counted there.)
pub proof fn law_replayed_log_is_resumed<T, D: Transaction<T>, S: Serializer<D>>(
    serializer: &S,
    disk: OpenDisk,
    log: ReDoLogView,
    start: T,
    data: T,
)
    requires
        replays::<T, D, S>(serializer, disk, log, start, data),
        0 <= log.index <= u64::MAX,
    ensures
        ({
            let files = contents_read(disk.files);
            let restored = restore_files::<T, D, S>(serializer, files, start);
            &&& restored.data == data
            &&& resumed_log(log.path, files, 0, log.max_size, restored) == Ok::<
                (ReDoLogView, OpenView),
                PrevaylerError<S::Error>,
            >((reopened(serializer, disk, log), OpenView::Append(log_file_name(log.index))))
        }),
{
    lemma_resumed::<T, D, S>(serializer, disk.files, log, start, 0);
}

/// A log that is opened again and recovered from the last snapshot goes on in the
/// same way.
pub proof fn law_recovered_log_is_resumed<T, D: Transaction<T>, S>(
    serializer: &S,
    disk: OpenDisk,
    log: ReDoLogView,
    start: T,
    data: T,
    count: int,
    index: int,
) where S: Serializer<D> + Serializer<T, Error = <S as Serializer<D>>::Error>
    requires
        recovers::<T, D, S>(serializer, disk, log, start, data, count),
    ensures
        ({
            let at = snapshot_place(disk.files);
            let files = contents_read(disk.files.skip(at + 1));
            let value = if at < 0 {
                start
            } else {
                snapshot_value::<T, S>(serializer, Ok(disk.files[at].bytes))->Some_0->Ok_0
            };
            let restored = restore_files::<T, D, S>(serializer, files, value);
            &&& restored.data == data
            &&& resumed_log(log.path, files, index, log.max_size, restored) == Ok::<
                (ReDoLogView, OpenView),
                PrevaylerError<<S as Serializer<D>>::Error>,
            >(
                (
                    reopened::<D, S>(serializer, disk, log),
                    OpenView::Append(log_file_name(log.index)),
                ),
            )
        }),
{
    let at = snapshot_place(disk.files);
    let tail = disk.files.skip(at + 1);
    let value = if at < 0 {
        start
    } else {
        snapshot_value::<T, S>(serializer, Ok(disk.files[at].bytes))->Some_0->Ok_0
    };
    assert(tail.last() == disk.files.last());
    lemma_resumed::<T, D, S>(serializer, tail, log, value, index);
}

/// Whether the transaction, written behind what a sound file holds, is read back,
/// and makes a sound file of it.
pub open spec fn stays_sound<D, S: Serializer<D>>(
    serializer: &S,
    sound: spec_fn(Seq<u8>) -> bool,
    transaction: D,
) -> bool {
    forall|bytes: Seq<u8>|
        sound(bytes) ==> #[trigger] holds_more(serializer, bytes, transaction) && sound(
            bytes + serializer.encoded(transaction)->Ok_0,
        )
}

/// What happens to data that is kept by a log.
pub enum Event<D> {
    /// A transaction is written and executed.
    Write(D),
    /// A snapshot is taken, which consists of these bytes.
    Snapshot(Seq<u8>),
    /// The log is opened again.
    Reopen,
}

/// What `events` leave of `start`.
pub open spec fn left_by<T, D: Transaction<T>>(start: T, events: Seq<Event<D>>) -> T
    decreases events.len(),
{
    if events.len() == 0 {
        start
    } else {
        let before = left_by(start, events.drop_last());
        match events.last() {
            Event::Write(transaction) => transaction.after(before),
            Event::Snapshot(_) | Event::Reopen => before,
        }
    }
}

/// The files and the log when `events` happened one after the other, in a directory
/// that was empty, and nothing failed. The log is always opened with the same
/// `max_size`.
pub open spec fn life<D, S: Serializer<D>>(
    serializer: &S,
    path: Seq<u8>,
    max_size: int,
    events: Seq<Event<D>>,
) -> (OpenDisk, ReDoLogView)
    decreases events.len(),
{
    if events.len() == 0 {
        (new_disk(), new_log(path, max_size))
    } else {
        let (disk, log) = life(serializer, path, max_size, events.drop_last());
        match events.last() {
            Event::Write(transaction) => (
                disk.all_done(log.write_actions(serializer.encoded(transaction)->Ok_0)),
                log.written(),
            ),
            Event::Snapshot(bytes) => (snapshot_taken(disk, log, bytes), log.after_snapshot()),
            Event::Reopen => (disk, reopened(serializer, disk, log)),
        }
    }
}

/// What `events` need of the serializer: that an empty file is sound and holds
/// nothing, and that the transactions keep files sound.
pub open spec fn keeps_files_sound<D, S: Serializer<D>>(
    serializer: &S,
    events: Seq<Event<D>>,
    sound: spec_fn(Seq<u8>) -> bool,
) -> bool {
    &&& sound(Seq::empty())
    &&& serializer.items(Seq::empty()).len() == 0
    &&& forall|i: int|
        0 <= i < events.len() ==> ((
        #[trigger] events[i]) matches Event::Write(transaction) ==> stays_sound(
            serializer,
            sound,
            transaction,
        ))
}

proof fn lemma_earlier_keep_files_sound<D, S: Serializer<D>>(
    serializer: &S,
    events: Seq<Event<D>>,
    sound: spec_fn(Seq<u8>) -> bool,
)
    requires
        keeps_files_sound(serializer, events, sound),
        events.len() > 0,
    ensures
        keeps_files_sound(serializer, events.drop_last(), sound),
        events.last() matches Event::Write(transaction) ==> stays_sound(
            serializer,
            sound,
            transaction,
        ),
{
    let earlier = events.drop_last();
    assert(events[events.len() - 1] == events.last());
    assert forall|i: int| 0 <= i < earlier.len() implies ((
    #[trigger] earlier[i]) matches Event::Write(transaction) ==> stays_sound(
        serializer,
        sound,
        transaction,
    )) by {
        assert(earlier[i] == events[i]);
    }
}

/// Whatever happens, the log writes to its last file, which is sound; its counters
/// stay small.
proof fn lemma_life<D, S: Serializer<D>>(
    serializer: &S,
    path: Seq<u8>,
    max_size: int,
    events: Seq<Event<D>>,
    sound: spec_fn(Seq<u8>) -> bool,
)
    requires
        keeps_files_sound(serializer, events, sound),
    ensures
        ({
            let (disk, log) = life(serializer, path, max_size, events);
            &&& disk.is_of(log)
            &&& sound(disk.files.last().bytes)
            &&& size_of(serializer, disk.files.last()) <= events.len()
            &&& 0 <= log.index <= 2 * events.len()
            &&& 0 <= log.current_size <= events.len()
            &&& log.path == path
            &&& log.max_size == max_size
        }),
    decreases events.len(),
{
    if events.len() == 0 {
        assert(new_disk().files.last().bytes == Seq::<u8>::empty());
    } else {
        let earlier = events.drop_last();
        lemma_earlier_keep_files_sound(serializer, events, sound);
        lemma_life(serializer, path, max_size, earlier, sound);
        let (disk, log) = life(serializer, path, max_size, earlier);
        let (next_disk, _) = life(serializer, path, max_size, events);
        match events.last() {
            Event::Write(transaction) => {
                let bytes = serializer.encoded(transaction)->Ok_0;
                assert(holds_more(serializer, disk.files.last().bytes, transaction));
                assert(holds_more(serializer, Seq::empty(), transaction));
                lemma_disk_written(disk, log, bytes);
                assert(Seq::<u8>::empty() + bytes =~= bytes);
                assert(sound(next_disk.files.last().bytes));
            },
            Event::Snapshot(bytes) => {
                law_snapshot_adds_two_files(disk, log, bytes);
                assert(next_disk.files.last().bytes == Seq::<u8>::empty());
            },
            Event::Reopen => {},
        }
    }
}

/// If the system restarts, its state is restored: whatever transactions were
/// written, and however often the log was opened, replaying all files on what the
/// data was at the start gives what executing the transactions gave. `sound` tells
/// files behind which a transaction can be written. It holds as long as the index of
/// the last file has ten digits.
pub proof fn law_writes_are_restored<T, D: Transaction<T>, S: Serializer<D>>(
    serializer: &S,
    path: Seq<u8>,
    max_size: int,
    start: T,
    events: Seq<Event<D>>,
    sound: spec_fn(Seq<u8>) -> bool,
)
    requires
        keeps_files_sound(serializer, events, sound),
        forall|i: int| 0 <= i < events.len() ==> (#[trigger] events[i]) !is Snapshot,
        life(serializer, path, max_size, events).1.index < 10_000_000_000,
    ensures
        ({
            let (disk, log) = life(serializer, path, max_size, events);
            replays::<T, D, S>(serializer, disk, log, start, left_by(start, events))
        }),
    decreases events.len(),
{
    if events.len() == 0 {
        law_empty_log_is_restored::<T, D, S>(serializer, path, max_size, start);
    } else {
        let earlier = events.drop_last();
        lemma_earlier_keep_files_sound(serializer, events, sound);
        lemma_life(serializer, path, max_size, earlier, sound);
        assert(events[events.len() - 1] == events.last());
        assert forall|i: int| 0 <= i < earlier.len() implies (
        #[trigger] earlier[i]) !is Snapshot by {
            assert(earlier[i] == events[i]);
        }
        law_writes_are_restored::<T, D, S>(serializer, path, max_size, start, earlier, sound);
        let (disk, log) = life(serializer, path, max_size, earlier);
        if let Event::Write(transaction) = events.last() {
            assert(holds_more(serializer, disk.files.last().bytes, transaction));
            assert(holds_more(serializer, Seq::empty(), transaction));
            law_write_is_restored::<T, D, S>(
                serializer,
                disk,
                log,
                start,
                left_by(start, earlier),
                transaction,
            );
        }
    }
}

/// Whether each snapshot is one of the data as it was then, and is read back.
pub open spec fn snapshots_read_back<T, D: Transaction<T>, S: Serializer<T>>(
    serializer: &S,
    start: T,
    events: Seq<Event<D>>,
) -> bool {
    forall|i: int|
        0 <= i < events.len() ==> ((
        #[trigger] events[i]) matches Event::Snapshot(bytes) ==> is_snapshot_of(
            serializer,
            left_by(start, events.take(i)),
            bytes,
        ))
}

/// If the system restarts, its state is restored: whatever transactions were
/// written, whatever snapshots were taken from time to time, and however often the
/// log was opened, recovery from the last snapshot on gives the data as it was.
pub proof fn law_life_is_recovered<T, D: Transaction<T>, S>(
    serializer: &S,
    path: Seq<u8>,
    max_size: int,
    start: T,
    events: Seq<Event<D>>,
    sound: spec_fn(Seq<u8>) -> bool,
) where S: Serializer<D> + Serializer<T, Error = <S as Serializer<D>>::Error>
    requires
        keeps_files_sound(serializer, events, sound),
        snapshots_read_back(serializer, start, events),
        2 * events.len() <= u64::MAX,
    ensures
        ({
            let (disk, log) = life::<D, S>(serializer, path, max_size, events);
            recovers::<T, D, S>(
                serializer,
                disk,
                log,
                start,
                left_by(start, events),
                size_of::<D, S>(serializer, disk.files.last()),
            )
        }),
    decreases events.len(),
{
    if events.len() == 0 {
        law_empty_log_is_recovered::<T, D, S>(serializer, path, max_size, start);
        assert(new_disk().files.last().bytes == Seq::<u8>::empty());
    } else {
        let n = events.len() - 1;
        let earlier = events.drop_last();
        assert(earlier =~= events.take(n));
        assert(events[n] == events.last());
        assert forall|i: int| 0 <= i < earlier.len() implies ((
        #[trigger] earlier[i]) matches Event::Snapshot(bytes) ==> is_snapshot_of(
            serializer,
            left_by(start, earlier.take(i)),
            bytes,
        )) by {
            assert(earlier[i] == events[i]);
            assert(earlier.take(i) =~= events.take(i));
        }
        lemma_earlier_keep_files_sound::<D, S>(serializer, events, sound);
        lemma_life::<D, S>(serializer, path, max_size, earlier, sound);
        law_life_is_recovered::<T, D, S>(serializer, path, max_size, start, earlier, sound);
        let (disk, log) = life::<D, S>(serializer, path, max_size, earlier);
        let data = left_by(start, earlier);
        match events.last() {
            Event::Write(transaction) => {
                let bytes = Serializer::<D>::encoded(serializer, transaction)->Ok_0;
                assert(holds_more(serializer, disk.files.last().bytes, transaction));
                assert(holds_more(serializer, Seq::empty(), transaction));
                law_write_is_recovered::<T, D, S>(
                    serializer,
                    disk,
                    log,
                    start,
                    data,
                    size_of::<D, S>(serializer, disk.files.last()),
                    transaction,
                );
                lemma_disk_written(disk, log, bytes);
                assert(Seq::<u8>::empty() + bytes =~= bytes);
            },
            Event::Snapshot(bytes) => {
                law_snapshot_is_recovered::<T, D, S>(serializer, disk, log, start, data, bytes);
                law_snapshot_adds_two_files(disk, log, bytes);
            },
            Event::Reopen => {},
        }
    }
}

impl ReDoLogView {
    /// How many transactions a log file holds at most.
    pub open spec fn most(self) -> int {
        if self.max_size > 1 {
            self.max_size
        } else {
            1
        }
    }
}

/// Whether no log file holds more transactions than it may, and the log has counted
/// those of the file that it writes to, but for one at most.
pub open spec fn is_within_limit<D, S: Serializer<D>>(
    serializer: &S,
    disk: OpenDisk,
    log: ReDoLogView,
) -> bool {
    &&& disk.is_of(log)
    &&& forall|i: int|
        0 <= i < disk.files.len() && is_log_file((#[trigger] disk.files[i]).name) ==> size_of(
            serializer,
            disk.files[i],
        ) <= log.most()
    &&& size_of(serializer, disk.files.last()) <= log.most()
    &&& size_of(serializer, disk.files.last()) <= log.current_size + 1
    &&& 0 <= log.current_size <= log.most()
}

/// A write keeps the log files within the limit. It leaves a count below the limit,
/// and begins the next file when, and only when, it brings the count to `max_size`.
pub proof fn law_write_stays_within_limit<D, S: Serializer<D>>(
    serializer: &S,
    disk: OpenDisk,
    log: ReDoLogView,
    transaction: D,
)
    requires
        is_within_limit(serializer, disk, log),
        is_kept(serializer, disk.files, log, transaction),
    ensures
        is_within_limit(
            serializer,
            disk.all_done(log.write_actions(serializer.encoded(transaction)->Ok_0)),
            log.written(),
        ),
        log.written().current_size < log.most(),
        log.written().index == if log.current_size + 1 >= log.max_size {
            log.index + 1
        } else {
            log.index
        },
{
    let bytes = serializer.encoded(transaction)->Ok_0;
    let before = disk.files;
    let after = disk.all_done(log.write_actions(bytes)).files;
    lemma_disk_written(disk, log, bytes);
    assert(Seq::<u8>::empty() + bytes =~= bytes);
    assert(size_of(serializer, after.last()) <= log.most());
    assert forall|i: int|
        0 <= i < after.len() && is_log_file((#[trigger] after[i]).name) implies size_of(
        serializer,
        after[i],
    ) <= log.most() by {
        if i < after.len() - 1 {
            assert(after[i] == before[i]);
        }
    }
}

/// A snapshot keeps the log files within the limit.
pub proof fn law_snapshot_stays_within_limit<D, S: Serializer<D>>(
    serializer: &S,
    disk: OpenDisk,
    log: ReDoLogView,
    bytes: Seq<u8>,
)
    requires
        is_within_limit(serializer, disk, log),
        serializer.items(Seq::empty()).len() == 0,
        0 <= log.index < u64::MAX,
    ensures
        is_within_limit(serializer, snapshot_taken(disk, log, bytes), log.after_snapshot()),
{
    let before = disk.files;
    let after = snapshot_taken(disk, log, bytes).files;
    law_snapshot_adds_two_files(disk, log, bytes);
    law_file_names_are_read_back((log.index + 1) as u64);
    assert forall|i: int|
        0 <= i < after.len() && is_log_file((#[trigger] after[i]).name) implies size_of(
        serializer,
        after[i],
    ) <= log.most() by {
        if i < before.len() {
            assert(after[i] == before[i]);
        }
    }
}

/// Opening the log again keeps the log files within the limit.
pub proof fn law_reopening_stays_within_limit<D, S: Serializer<D>>(
    serializer: &S,
    disk: OpenDisk,
    log: ReDoLogView,
)
    requires
        is_within_limit(serializer, disk, log),
    ensures
        is_within_limit(serializer, disk, reopened(serializer, disk, log)),
{
}

/// In a directory that is always opened with the same `max_size`, no log file ever
/// holds more than `max_size` transactions (or one, where `max_size` is less),
/// whatever is written, whatever snapshots are taken, and however often the log is
/// opened.
pub proof fn law_files_stay_within_limit<D, S: Serializer<D>>(
    serializer: &S,
    path: Seq<u8>,
    max_size: int,
    events: Seq<Event<D>>,
    sound: spec_fn(Seq<u8>) -> bool,
)
    requires
        keeps_files_sound(serializer, events, sound),
        2 * events.len() <= u64::MAX,
    ensures
        ({
            let (disk, log) = life(serializer, path, max_size, events);
            &&& is_within_limit(serializer, disk, log)
            &&& log.most() == new_log(path, max_size).most()
        }),
    decreases events.len(),
{
    if events.len() == 0 {
        assert(new_disk().files.last().bytes == Seq::<u8>::empty());
    } else {
        let earlier = events.drop_last();
        lemma_earlier_keep_files_sound(serializer, events, sound);
        lemma_life(serializer, path, max_size, earlier, sound);
        law_files_stay_within_limit(serializer, path, max_size, earlier, sound);
        let (disk, log) = life(serializer, path, max_size, earlier);
        match events.last() {
            Event::Write(transaction) => {
                assert(holds_more(serializer, disk.files.last().bytes, transaction));
                assert(holds_more(serializer, Seq::empty(), transaction));
                law_write_stays_within_limit(serializer, disk, log, transaction);
            },
            Event::Snapshot(bytes) => {
                law_snapshot_stays_within_limit(serializer, disk, log, bytes);
            },
            Event::Reopen => {
                law_reopening_stays_within_limit(serializer, disk, log);
            },
        }
    }
}

/// Values that are written as JSON, one behind the other, are read back as they
/// were, in the order in which they were written, where `parse` reads each of them
/// back. A record that broke off behind them changes nothing.
pub proof fn law_json_file_is_read_back<T, F: Fn(&[u8]) -> Result<T, serde_json::Error>>(
    parse: F,
    lines: Seq<Seq<u8>>,
    torn: Seq<u8>,
    values: Seq<T>,
    items: Seq<SerializerResult<T, serde_json::Error>>,
)
    requires
        lines.len() == values.len(),
        without_newlines(lines),
        !torn.contains(NEWLINE),
        forall|i: int, parsed: Result<T, serde_json::Error>|
            0 <= i < lines.len() && #[trigger] parses(parse, lines[i], parsed) ==> parsed == Ok::<
                T,
                serde_json::Error,
            >(values[i]),
        items.len() == records(json_log(lines) + torn).len(),
        forall|i: int|
            0 <= i < items.len() ==> value_of(
                parse,
                line_of(records(json_log(lines) + torn)[i]),
                #[trigger] items[i],
            ),
    ensures
        items == values.map_values(|value: T| Ok::<T, SerializerError<serde_json::Error>>(value)),
{
    law_torn_record(json_log(lines), torn);
    lemma_json_log_records(lines);
    let whole = records(json_log(lines) + torn);
    let expected = values.map_values(|value: T| Ok::<T, SerializerError<serde_json::Error>>(value));
    assert forall|i: int| 0 <= i < items.len() implies items[i] == expected[i] by {
        assert(value_of(parse, line_of(whole[i]), items[i]));
        assert(line_of(whole[i]) =~= lines[i]);
        match items[i] {
            Ok(value) => {
                assert(parses(parse, lines[i], Ok(value)));
            },
            Err(SerializerError::ErrorDeserializing(error)) => {
                assert(parses::<T, F>(parse, lines[i], Err(error)));
            },
            Err(SerializerError::ErrorSerializing(_)) => {},
        }
    }
    assert(items =~= expected);
}

/// Whether the serializer reads files as `JsonSerializer::read_file` does with
/// `parse`.
pub open spec fn reads_json_files<
    T,
    S: Serializer<T, Error = serde_json::Error>,
    F: Fn(&[u8]) -> Result<T, serde_json::Error>,
>(serializer: &S, parse: F) -> bool {
    forall|bytes: Seq<u8>| #[trigger]
        are_values_of(parse, records(bytes), serializer.items(bytes))
}

/// Whether `items` may be what `JsonSerializer::read_file` gives for a file that
/// holds `lines`.
pub open spec fn are_values_of<T, F: Fn(&[u8]) -> Result<T, serde_json::Error>>(
    parse: F,
    lines: Seq<Seq<u8>>,
    items: Seq<SerializerResult<T, serde_json::Error>>,
) -> bool {
    &&& items.len() == lines.len()
    &&& forall|i: int|
        0 <= i < items.len() ==> value_of(parse, line_of(lines[i]), #[trigger] items[i])
}

/// Whether the serializer writes `value` as a record whose line `parse` reads back.
pub open spec fn writes_json_file<T, S: Serializer<T>, F: Fn(&[u8]) -> Result<
    T,
    serde_json::Error,
>>(serializer: &S, parse: F, value: T) -> bool {
    &&& serializer.encoded(value) is Ok
    &&& is_record(serializer.encoded(value)->Ok_0)
    &&& reads_only(parse, line_of(serializer.encoded(value)->Ok_0), value)
}

/// Whether `parse` reads one value, and nothing else, from `line`.
pub open spec fn is_readable<T, F: Fn(&[u8]) -> Result<T, serde_json::Error>>(
    parse: F,
    line: Seq<u8>,
) -> bool {
    exists|value: T| #[trigger] reads_only(parse, line, value)
}

/// The files that a transaction can be written behind, in the JSON format: those
/// that end where a record ends, and of which `parse` reads each line.
pub open spec fn is_json_file<T, F: Fn(&[u8]) -> Result<T, serde_json::Error>>(
    parse: F,
    bytes: Seq<u8>,
) -> bool {
    &&& is_finished(bytes)
    &&& forall|i: int|
        0 <= i < records(bytes).len() ==> is_readable::<T, F>(
            parse,
            line_of(#[trigger] records(bytes)[i]),
        )
}

proof fn lemma_value_read<T, F: Fn(&[u8]) -> Result<T, serde_json::Error>>(
    parse: F,
    line: Seq<u8>,
    value: T,
    item: SerializerResult<T, serde_json::Error>,
)
    requires
        reads_only(parse, line, value),
        value_of(parse, line, item),
    ensures
        item == Ok::<T, SerializerError<serde_json::Error>>(value),
{
    match item {
        Ok(read) => {
            assert(parses(parse, line, Ok(read)));
        },
        Err(SerializerError::ErrorDeserializing(error)) => {
            assert(parses::<T, F>(parse, line, Err(error)));
        },
        Err(SerializerError::ErrorSerializing(_)) => {},
    }
}

proof fn lemma_json_holds_more<
    T,
    S: Serializer<T, Error = serde_json::Error>,
    F: Fn(&[u8]) -> Result<T, serde_json::Error>,
>(serializer: &S, parse: F, bytes: Seq<u8>, value: T)
    requires
        reads_json_files(serializer, parse),
        writes_json_file(serializer, parse, value),
        is_json_file(parse, bytes),
    ensures
        holds_more(serializer, bytes, value),
        is_json_file(parse, bytes + serializer.encoded(value)->Ok_0),
{
    let record = serializer.encoded(value)->Ok_0;
    let before = records(bytes);
    let after = records(bytes + record);
    lemma_place(record, NEWLINE);
    lemma_record_alone(record);
    lemma_records_joined(bytes, record);
    assert(after =~= before.push(record));
    assert((bytes + record).last() == record.last());
    let items = serializer.items(bytes);
    let more = serializer.items(bytes + record);
    assert(are_values_of(parse, before, items));
    assert(are_values_of(parse, after, more));
    assert forall|i: int| 0 <= i < after.len() implies is_readable::<T, F>(
        parse,
        line_of(#[trigger] after[i]),
    ) by {
        if i < before.len() {
            assert(after[i] == before[i]);
        } else {
            assert(reads_only(parse, line_of(record), value));
        }
    }
    assert forall|i: int| 0 <= i < more.len() implies more[i] == items.push(Ok(value))[i] by {
        assert(value_of(parse, line_of(after[i]), more[i]));
        if i < items.len() {
            assert(after[i] == before[i]);
            assert(value_of(parse, line_of(before[i]), items[i]));
            assert(is_readable::<T, F>(parse, line_of(before[i])));
            let read = choose|read: T| #[trigger] reads_only(parse, line_of(before[i]), read);
            lemma_value_read(parse, line_of(before[i]), read, items[i]);
            lemma_value_read(parse, line_of(before[i]), read, more[i]);
        } else {
            lemma_value_read(parse, line_of(record), value, more[i]);
        }
    }
    assert(more =~= items.push(Ok(value)));
}

/// The JSON format is one that restores: a serializer that writes each transaction
/// as one record, and reads files record by record with a `parse` that reads each of
/// them back, meets what `law_writes_are_restored`, `law_life_is_recovered` and
/// `law_files_stay_within_limit` ask of it.
pub proof fn law_json_keeps_files_sound<
    D,
    S: Serializer<D, Error = serde_json::Error>,
    F: Fn(&[u8]) -> Result<D, serde_json::Error>,
>(serializer: &S, parse: F, events: Seq<Event<D>>)
    requires
        reads_json_files(serializer, parse),
        forall|i: int|
            0 <= i < events.len() ==> ((
            #[trigger] events[i]) matches Event::Write(transaction) ==> writes_json_file(
                serializer,
                parse,
                transaction,
            )),
    ensures
        keeps_files_sound(serializer, events, |bytes: Seq<u8>| is_json_file::<D, F>(parse, bytes)),
{
    let sound = |bytes: Seq<u8>| is_json_file::<D, F>(parse, bytes);
    let nothing = Seq::<u8>::empty();
    lemma_place(nothing, NEWLINE);
    assert(are_values_of(parse, records(nothing), serializer.items(nothing)));
    assert forall|i: int| 0 <= i < events.len() implies ((
    #[trigger] events[i]) matches Event::Write(transaction) ==> stays_sound(
        serializer,
        sound,
        transaction,
    )) by {
        if let Event::Write(transaction) = events[i] {
            assert forall|bytes: Seq<u8>| sound(bytes) implies #[trigger] holds_more(
                serializer,
                bytes,
                transaction,
            ) && sound(bytes + serializer.encoded(transaction)->Ok_0) by {
                lemma_json_holds_more(serializer, parse, bytes, transaction);
            }
        }
    }
}

/// A snapshot in the JSON format is read back.
pub proof fn law_json_snapshot_is_read_back<
    T,
    S: Serializer<T, Error = serde_json::Error>,
    F: Fn(&[u8]) -> Result<T, serde_json::Error>,
>(serializer: &S, parse: F, data: T)
    requires
        reads_json_files(serializer, parse),
        writes_json_file(serializer, parse, data),
    ensures
        is_snapshot_of(serializer, data, serializer.encoded(data)->Ok_0),
{
    let record = serializer.encoded(data)->Ok_0;
    let nothing = Seq::<u8>::empty();
    lemma_place(nothing, NEWLINE);
    assert(is_json_file::<T, F>(parse, nothing));
    assert(are_values_of(parse, records(nothing), serializer.items(nothing)));
    lemma_json_holds_more(serializer, parse, nothing, data);
    assert(nothing + record =~= record);
}

} // verus!
