//! What the log promises as a whole: replaying what was written restores the data.
use vstd::prelude::*;

use crate::bytes::{lemma_place, lemma_unsigned_range, NEWLINE};
use crate::framing::{
    is_finished, is_record, law_torn_record, lemma_line_is_record, lemma_record_alone,
    lemma_records_joined, records,
};
use crate::json::{items_of, parses, JsonSerializeError, Serializer};
use crate::log::{
    first_step, last_log, next_step, opened_log, replay, ActionView, FileView, LogView,
    RedoLogError, Stage, StepView, LOG_LIMIT,
};
use crate::names::{
    index_of_log, law_log_name_is_read_back, law_log_names_in_order, log_name, second_piece,
};
use crate::order::{
    arranged, lemma_arranged, lemma_arranged_mapped, lemma_lexical_total, lemma_lexical_transitive,
    lemma_order_unique, lexical, Ranked,
};
use crate::prevayler::{pending_after, Pending};
use crate::transaction::Transaction;

verus! {

/// A log file as it is on the disk.
#[verifier::ext_equal]
pub struct DiskFile {
    pub name: Seq<u8>,
    pub bytes: Seq<u8>,
}

/// The log files of a directory as they are read when nothing fails.
pub open spec fn as_read(disk: Seq<DiskFile>) -> Seq<FileView> {
    disk.map_values(
        |file: DiskFile| FileView { name: file.name, text: Ok((file.bytes, None)) },
    )
}

/// What an action makes of the log files. The last one is open.
pub open spec fn performed(disk: Seq<DiskFile>, action: ActionView) -> Seq<DiskFile> {
    match action {
        ActionView::Append(bytes) => disk.drop_last().push(
            DiskFile { name: disk.last().name, bytes: disk.last().bytes + bytes },
        ),
        ActionView::Sync => disk,
        ActionView::Create(name) => disk.push(DiskFile { name, bytes: Seq::empty() }),
    }
}

/// How many actions may still follow.
pub open spec fn rank<S, D>(step: StepView<S, D>) -> int {
    match step {
        StepView::Perform(ActionView::Append(_)) => 3,
        StepView::Perform(ActionView::Sync) => 2,
        StepView::Perform(ActionView::Create(_)) => 1,
        StepView::Done(_) => 0,
    }
}

/// The disk, the log and the result when `step` and all that follow it are
/// performed and nothing fails.
pub open spec fn carried_out<T, L: Serializer<T>>(
    disk: Seq<DiskFile>,
    log: LogView,
    serializer: &L,
    step: StepView<L::SerializerError, L::DeserializeError>,
) -> (Seq<DiskFile>, LogView, Result<int, RedoLogError<L::SerializerError, L::DeserializeError>>)
    decreases rank(step),
{
    match step {
        StepView::Done(result) => (disk, log, result),
        StepView::Perform(action) => {
            let (next_log, next) = next_step::<T, L>(
                log,
                serializer,
                action.stage(),
                Ok(()),
            );
            carried_out::<T, L>(performed(disk, action), next_log, serializer, next)
        },
    }
}

/// Whether replaying the log files on `start` restores `data`, and `log` is the
/// log that goes on with them.
pub open spec fn restores<Data, T: Transaction<Data>, L: Serializer<T>>(
    disk: Seq<DiskFile>,
    log: LogView,
    serializer: &L,
    start: Data,
    data: Data,
) -> bool {
    &&& disk.len() > 0
    &&& index_of_log(disk.last().name) == Some(log.file_index)
    &&& replay::<Data, T, L>(serializer, as_read(disk), start).reached(data, log.n_transactions)
}

/// Whether one name stands behind another in the order in which files are
/// replayed.
pub open spec fn follows(name: Seq<u8>, earlier: Seq<u8>) -> bool {
    lexical(earlier, name) && earlier != name
}

/// Whether each log file stands behind those before it in the order in which the
/// files are replayed.
pub open spec fn disk_in_order(disk: Seq<DiskFile>) -> bool {
    forall|i: int, j: int|
        0 <= i < j < disk.len() ==> follows((#[trigger] disk[j]).name, (#[trigger] disk[i]).name)
}

/// Whether a log that holds `bytes` holds the transaction as one more when its
/// record is appended.
pub open spec fn keeps<T, L: Serializer<T>>(serializer: &L, bytes: Seq<u8>, transaction: T) -> bool {
    &&& serializer.encoded(transaction) is Ok
    &&& serializer.transactions(bytes + serializer.encoded(transaction)->Ok_0, None)
        == serializer.transactions(bytes, None).push(Ok(transaction))
}

proof fn lemma_replay_appended<Data, T: Transaction<Data>, L: Serializer<T>>(
    disk: Seq<DiskFile>,
    serializer: &L,
    start: Data,
    data: Data,
    n_transactions: int,
    transaction: T,
)
    requires
        disk.len() > 0,
        replay::<Data, T, L>(serializer, as_read(disk), start).reached(data, n_transactions),
        keeps(serializer, disk.last().bytes, transaction),
    ensures
        replay::<Data, T, L>(
            serializer,
            as_read(
                performed(disk, ActionView::Append(serializer.encoded(transaction)->Ok_0)),
            ),
            start,
        ).reached(transaction.after(data), n_transactions + 1),
{
    let record = serializer.encoded(transaction)->Ok_0;
    let more = performed(disk, ActionView::Append(record));
    let files = as_read(disk);
    assert(as_read(more).drop_last() =~= files.drop_last());
    assert(as_read(more).last() == FileView {
        name: disk.last().name,
        text: Ok((disk.last().bytes + record, None)),
    });
    let items = serializer.transactions(disk.last().bytes, None);
    assert(items.push(Ok(transaction)).drop_last() =~= items);
}

proof fn lemma_replay_created<Data, T: Transaction<Data>, L: Serializer<T>>(
    disk: Seq<DiskFile>,
    serializer: &L,
    start: Data,
    data: Data,
    n_transactions: int,
    name: Seq<u8>,
)
    requires
        replay::<Data, T, L>(serializer, as_read(disk), start).reached(data, n_transactions),
        serializer.transactions(Seq::empty(), None).len() == 0,
    ensures
        replay::<Data, T, L>(
            serializer,
            as_read(performed(disk, ActionView::Create(name))),
            start,
        ).reached(data, 0),
{
    let more = performed(disk, ActionView::Create(name));
    assert(as_read(more).drop_last() =~= as_read(disk));
}

/// Executing a transaction and then restoring the data from the log gives what
/// the transaction left of the data, and the log files stay in order. A file that
/// is full is followed by the next, which has to stand behind it: see
/// `law_log_names_in_order`.
pub proof fn law_execution_is_restored<Data, T: Transaction<Data>, L: Serializer<T>>(
    disk: Seq<DiskFile>,
    log: LogView,
    serializer: &L,
    start: Data,
    data: Data,
    transaction: T,
)
    requires
        restores::<Data, T, L>(disk, log, serializer, start, data),
        disk_in_order(disk),
        keeps(serializer, disk.last().bytes, transaction),
        serializer.transactions(Seq::empty(), None).len() == 0,
        log.n_transactions + 1 >= LOG_LIMIT ==> {
            &&& log.file_index < usize::MAX
            &&& follows(log_name(log.file_index + 1), disk.last().name)
        },
    ensures
        ({
            let (next_disk, next_log, result) = carried_out::<T, L>(
                disk,
                log,
                serializer,
                first_step(serializer, transaction),
            );
            &&& restores::<Data, T, L>(
                next_disk,
                next_log,
                serializer,
                start,
                transaction.after(data),
            )
            &&& disk_in_order(next_disk)
            &&& result == Ok::<
                int,
                RedoLogError<L::SerializerError, L::DeserializeError>,
            >(next_log.n_transactions)
            &&& next_log.n_transactions < LOG_LIMIT
        }),
{
    reveal_with_fuel(carried_out, 4);
    let record = serializer.encoded(transaction)->Ok_0;
    let appended = performed(disk, ActionView::Append(record));
    lemma_replay_appended::<Data, T, L>(
        disk,
        serializer,
        start,
        data,
        log.n_transactions,
        transaction,
    );
    assert forall|i: int| 0 <= i < disk.len() implies (#[trigger] appended[i]).name
        == disk[i].name by {}
    if log.n_transactions + 1 >= LOG_LIMIT {
        let name = log_name(log.file_index + 1);
        lemma_replay_created::<Data, T, L>(
            appended,
            serializer,
            start,
            transaction.after(data),
            log.n_transactions + 1,
            name,
        );
        lemma_unsigned_range(second_piece(disk.last().name), usize::MAX as int);
        law_log_name_is_read_back((log.file_index + 1) as usize);
        let created = performed(appended, ActionView::Create(name));
        assert forall|i: int, j: int| 0 <= i < j < created.len() implies follows(
            (#[trigger] created[j]).name,
            (#[trigger] created[i]).name,
        ) by {
            let last = disk.len() - 1;
            if j == appended.len() {
                if i < last {
                    assert(follows(disk[last].name, disk[i].name));
                    lemma_lexical_transitive(disk[i].name, disk[last].name, name);
                    lemma_lexical_total(disk[i].name, disk[last].name);
                }
            } else {
                assert(follows(disk[j].name, disk[i].name));
            }
        }
    } else {
        assert forall|i: int, j: int| 0 <= i < j < appended.len() implies follows(
            (#[trigger] appended[j]).name,
            (#[trigger] appended[i]).name,
        ) by {
            assert(follows(disk[j].name, disk[i].name));
        }
    }
}

/// An execution that breaks off once its record is appended is restored too, with
/// or without the next file.
pub proof fn law_interrupted_execution_is_restored<Data, T: Transaction<Data>, L: Serializer<T>>(
    disk: Seq<DiskFile>,
    log: LogView,
    serializer: &L,
    start: Data,
    data: Data,
    transaction: T,
    name: Seq<u8>,
)
    requires
        restores::<Data, T, L>(disk, log, serializer, start, data),
        keeps(serializer, disk.last().bytes, transaction),
        serializer.transactions(Seq::empty(), None).len() == 0,
    ensures
        ({
            let record = serializer.encoded(transaction)->Ok_0;
            let appended = performed(disk, ActionView::Append(record));
            let synced = performed(appended, ActionView::Sync);
            let created = performed(synced, ActionView::Create(name));
            &&& replay::<Data, T, L>(serializer, as_read(appended), start).reached(
                transaction.after(data),
                log.n_transactions + 1,
            )
            &&& replay::<Data, T, L>(serializer, as_read(synced), start).reached(
                transaction.after(data),
                log.n_transactions + 1,
            )
            &&& replay::<Data, T, L>(serializer, as_read(created), start).reached(
                transaction.after(data),
                0,
            )
        }),
{
    let record = serializer.encoded(transaction)->Ok_0;
    let n = log.n_transactions;
    lemma_replay_appended::<Data, T, L>(disk, serializer, start, data, n, transaction);
    lemma_replay_created::<Data, T, L>(
        performed(disk, ActionView::Append(record)),
        serializer,
        start,
        transaction.after(data),
        n + 1,
        name,
    );
}

/// Opening the log again, when nothing fails, gives the log that wrote it.
pub proof fn law_log_is_reopened<Data, T: Transaction<Data>, L: Serializer<T>>(
    disk: Seq<DiskFile>,
    log: LogView,
    serializer: &L,
    start: Data,
    data: Data,
)
    requires
        restores::<Data, T, L>(disk, log, serializer, start, data),
    ensures
        ({
            let replayed = replay::<Data, T, L>(serializer, as_read(disk), start);
            &&& replayed.data == data
            &&& opened_log(
                replayed,
                last_log(disk.map_values(|file: DiskFile| file.name)),
                log.path,
                Ok(()),
            ) == Ok::<LogView, RedoLogError<L::SerializerError, L::DeserializeError>>(log)
        }),
{
}

/// In whatever order a directory lists its log files, they are replayed in the
/// order in which they were started.
pub proof fn law_listing_order_does_not_matter(disk: Seq<DiskFile>, names: Seq<Vec<u8>>)
    requires
        disk_in_order(disk),
        names.map_values(|name: Vec<u8>| name@).to_multiset() == disk.map_values(
            |file: DiskFile| file.name,
        ).to_multiset(),
    ensures
        arranged(names).map_values(|name: Vec<u8>| name@) == disk.map_values(
            |file: DiskFile| file.name,
        ),
{
    let by_name = |name: Vec<u8>| name@;
    let sorted = arranged(names).map_values(by_name);
    let expected = disk.map_values(|file: DiskFile| file.name);
    lemma_arranged(names);
    lemma_arranged_mapped(names, by_name);
    assert forall|i: int, j: int| 0 <= i < j < sorted.len() implies lexical(
        #[trigger] sorted[i],
        #[trigger] sorted[j],
    ) by {
        assert(arranged(names)[i].not_after(arranged(names)[j]));
    }
    assert forall|i: int, j: int| 0 <= i < j < expected.len() implies !lexical(
        #[trigger] expected[j],
        #[trigger] expected[i],
    ) by {
        assert(follows(disk[j].name, disk[i].name));
        lemma_lexical_total(disk[i].name, disk[j].name);
    }
    lemma_order_unique(sorted, expected, |a: Seq<u8>, b: Seq<u8>| lexical(a, b));
}

/// What the log files hold when `transactions` are written one behind the other.
pub open spec fn log_of<T, L: Serializer<T>>(serializer: &L, transactions: Seq<T>) -> Seq<u8>
    decreases transactions.len(),
{
    if transactions.len() == 0 {
        Seq::empty()
    } else {
        log_of(serializer, transactions.drop_last()) + serializer.encoded(
            transactions.last(),
        )->Ok_0
    }
}

/// Transactions as they come from a log that has no fault.
pub open spec fn all_read<T, D>(transactions: Seq<T>) -> Seq<Result<T, D>> {
    transactions.map_values(|transaction: T| Ok(transaction))
}

/// Whether `transactions` can be written one behind the other, and are read back
/// then.
pub open spec fn reads_back<T, L: Serializer<T>>(serializer: &L, transactions: Seq<T>) -> bool {
    &&& forall|i: int|
        0 <= i < transactions.len() ==> serializer.encoded(#[trigger] transactions[i]) is Ok
    &&& serializer.transactions(log_of(serializer, transactions), None) == all_read::<
        T,
        L::DeserializeError,
    >(transactions)
}

/// Whether that holds of all stretches of `transactions`.
pub open spec fn reads_back_stretches<T, L: Serializer<T>>(
    serializer: &L,
    transactions: Seq<T>,
) -> bool {
    forall|i: int, j: int|
        0 <= i <= j <= transactions.len() ==> #[trigger] reads_back(
            serializer,
            transactions.subrange(i, j),
        )
}

/// What `transactions` leave of `start` when they are executed in order.
pub open spec fn executed<Data, T: Transaction<Data>>(transactions: Seq<T>, start: Data) -> Data
    decreases transactions.len(),
{
    if transactions.len() == 0 {
        start
    } else {
        transactions.last().after(executed(transactions.drop_last(), start))
    }
}

/// The disk and the log when `transactions` were executed in order, on a directory
/// that held no log, and nothing failed.
pub open spec fn history<T, L: Serializer<T>>(
    serializer: &L,
    path: Seq<u8>,
    transactions: Seq<T>,
) -> (Seq<DiskFile>, LogView)
    decreases transactions.len(),
{
    if transactions.len() == 0 {
        (
            seq![DiskFile { name: log_name(0), bytes: Seq::empty() }],
            LogView { path, file_index: 0, n_transactions: 0 },
        )
    } else {
        let (disk, log) = history(serializer, path, transactions.drop_last());
        let (next_disk, next_log, _) = carried_out::<T, L>(
            disk,
            log,
            serializer,
            first_step(serializer, transactions.last()),
        );
        (next_disk, next_log)
    }
}

proof fn lemma_keeps<T, L: Serializer<T>>(serializer: &L, before: Seq<T>, transaction: T)
    requires
        reads_back(serializer, before),
        reads_back(serializer, before.push(transaction)),
    ensures
        keeps(serializer, log_of(serializer, before), transaction),
        log_of(serializer, before.push(transaction)) == log_of(serializer, before)
            + serializer.encoded(transaction)->Ok_0,
{
    let after = before.push(transaction);
    assert(after.drop_last() =~= before);
    assert(after[before.len() as int] == transaction);
    assert(all_read::<T, L::DeserializeError>(after) =~= all_read::<T, L::DeserializeError>(
        before,
    ).push(Ok(transaction)));
}

/// If the system restarts, replaying the log restores its state: whatever
/// transactions were executed, the log files of the directory, replayed on what
/// the data was at the start, give what executing them gave. Each file takes
/// `LOG_LIMIT` transactions, and the next follows. It holds as long as the index
/// of the last file has eight digits.
pub proof fn law_history_is_restored<Data, T: Transaction<Data>, L: Serializer<T>>(
    serializer: &L,
    path: Seq<u8>,
    transactions: Seq<T>,
    start: Data,
)
    requires
        reads_back_stretches(serializer, transactions),
        transactions.len() / (LOG_LIMIT as nat) < 100_000_000,
    ensures
        ({
            let (disk, log) = history(serializer, path, transactions);
            let n = transactions.len() as int;
            &&& restores::<Data, T, L>(disk, log, serializer, start, executed(transactions, start))
            &&& disk_in_order(disk)
            &&& log.path == path
            &&& log.file_index == n / LOG_LIMIT as int
            &&& log.n_transactions == n % LOG_LIMIT as int
            &&& disk.len() == log.file_index + 1
            &&& forall|i: int| 0 <= i < disk.len() ==> (#[trigger] disk[i]).name == log_name(i)
            &&& disk.last().bytes == log_of(
                serializer,
                transactions.subrange(n - log.n_transactions, n),
            )
        }),
    decreases transactions.len(),
{
    let n = transactions.len() as int;
    let (disk, log) = history(serializer, path, transactions);
    assert(transactions.subrange(0, 0) =~= Seq::<T>::empty());
    assert(reads_back(serializer, transactions.subrange(0, 0)));
    assert(serializer.transactions(Seq::empty(), None) == all_read::<T, L::DeserializeError>(
        Seq::<T>::empty(),
    ));
    if n == 0 {
        law_log_name_is_read_back(0);
        let files = as_read(disk);
        assert(files.drop_last() =~= Seq::empty());
        assert(replay::<Data, T, L>(serializer, files.drop_last(), start).reached(start, 0));
        assert(transactions.subrange(0, 0) =~= transactions);
    } else {
        let earlier = transactions.drop_last();
        let last = transactions.last();
        assert(reads_back_stretches(serializer, earlier)) by {
            assert forall|i: int, j: int| 0 <= i <= j <= earlier.len() implies #[trigger] reads_back(
                serializer,
                earlier.subrange(i, j),
            ) by {
                assert(earlier.subrange(i, j) =~= transactions.subrange(i, j));
                assert(reads_back(serializer, transactions.subrange(i, j)));
            }
        }
        law_history_is_restored::<Data, T, L>(serializer, path, earlier, start);
        let (disk0, log0) = history(serializer, path, earlier);
        let from = n - 1 - log0.n_transactions;
        let stretch = transactions.subrange(from, n - 1);
        assert(earlier.subrange(from, n - 1) =~= stretch);
        assert(transactions.subrange(from, n) =~= stretch.push(last));
        assert(reads_back(serializer, transactions.subrange(from, n - 1)));
        assert(reads_back(serializer, transactions.subrange(from, n)));
        lemma_keeps(serializer, stretch, last);
        assert(disk0[disk0.len() - 1].name == log_name(log0.file_index));
        if log0.n_transactions + 1 >= LOG_LIMIT {
            law_log_names_in_order(log0.file_index, log0.file_index + 1);
        }
        law_execution_is_restored::<Data, T, L>(
            disk0,
            log0,
            serializer,
            start,
            executed(earlier, start),
            last,
        );
        reveal_with_fuel(carried_out, 4);
        assert(transactions.subrange(n, n) =~= Seq::<T>::empty());
    }
}

/// A call that makes an execution begin or go on.
pub enum Call<T> {
    /// The transaction begins.
    Execute(T),
    /// What had to be done for the one that is under way came to this.
    Resume(Result<(), std::io::Error>),
}

/// A prevayler, with the transactions whose records were appended, those whose
/// records were then synced, and those that were executed, each in order.
pub struct Course<Data, T> {
    pub data: Data,
    pub log: LogView,
    pub pending: Option<Pending<T>>,
    pub appended: Seq<T>,
    pub synced: Seq<T>,
    pub executed: Seq<T>,
}

impl<Data, T: Transaction<Data>> Course<Data, T> {
    /// What a call makes of a prevayler. There is nothing to resume where nothing
    /// is under way.
    pub open spec fn called<L: Serializer<T>>(self, serializer: &L, call: Call<T>) -> Self {
        match (call, self.pending) {
            (Call::Execute(transaction), _) => Course {
                pending: pending_after(transaction, first_step(serializer, transaction)),
                ..self
            },
            (Call::Resume(_), None) => self,
            (Call::Resume(outcome), Some(pending)) => {
                let transaction = pending.transaction;
                let (log, step) = next_step::<T, L>(self.log, serializer, pending.stage, outcome);
                let is_executed = step matches StepView::Done(Ok(_));
                Course {
                    data: if is_executed {
                        transaction.after(self.data)
                    } else {
                        self.data
                    },
                    log,
                    pending: pending_after(transaction, step),
                    appended: if pending.stage is Append && outcome is Ok {
                        self.appended.push(transaction)
                    } else {
                        self.appended
                    },
                    synced: if pending.stage is Sync && outcome is Ok {
                        self.synced.push(transaction)
                    } else {
                        self.synced
                    },
                    executed: if is_executed {
                        self.executed.push(transaction)
                    } else {
                        self.executed
                    },
                }
            },
        }
    }

    /// Whether `call` gives nothing up, and tells of no failure.
    pub open spec fn is_undisturbed_by(self, call: Call<T>) -> bool {
        match call {
            Call::Execute(_) => self.pending is None,
            Call::Resume(outcome) => outcome is Ok,
        }
    }
}

/// A prevayler after `calls`. It holds `start` at first, and nothing is under way.
pub open spec fn course<Data, T: Transaction<Data>, L: Serializer<T>>(
    serializer: &L,
    start: Data,
    log: LogView,
    calls: Seq<Call<T>>,
) -> Course<Data, T>
    decreases calls.len(),
{
    if calls.len() == 0 {
        Course {
            data: start,
            log,
            pending: None,
            appended: Seq::empty(),
            synced: Seq::empty(),
            executed: Seq::empty(),
        }
    } else {
        course::<Data, T, L>(serializer, start, log, calls.drop_last()).called(
            serializer,
            calls.last(),
        )
    }
}

/// Whether none of `calls` gives an execution up or tells of a failure.
pub open spec fn is_undisturbed<Data, T: Transaction<Data>, L: Serializer<T>>(
    serializer: &L,
    start: Data,
    log: LogView,
    calls: Seq<Call<T>>,
) -> bool
    decreases calls.len(),
{
    calls.len() > 0 ==> {
        let earlier = calls.drop_last();
        &&& is_undisturbed::<Data, T, L>(serializer, start, log, earlier)
        &&& course::<Data, T, L>(serializer, start, log, earlier).is_undisturbed_by(calls.last())
    }
}

/// Whether `some` are among `all`, in the order in which they stand there.
pub open spec fn is_subsequence<T>(some: Seq<T>, all: Seq<T>) -> bool
    decreases all.len(),
{
    if all.len() == 0 {
        some.len() == 0
    } else {
        ||| is_subsequence(some, all.drop_last())
        ||| some.len() > 0 && some.last() == all.last() && is_subsequence(
            some.drop_last(),
            all.drop_last(),
        )
    }
}

/// Whatever is called, and whatever fails: transactions are executed in the order in
/// which their records were appended, each once at most and none before its record
/// was appended and synced; and the data is what executing them gives.
pub proof fn law_executed_in_the_order_of_the_log<Data, T: Transaction<Data>, L: Serializer<T>>(
    serializer: &L,
    start: Data,
    log: LogView,
    calls: Seq<Call<T>>,
)
    ensures
        ({
            let after = course::<Data, T, L>(serializer, start, log, calls);
            &&& is_subsequence(after.executed, after.synced)
            &&& is_subsequence(after.synced, after.appended)
            &&& is_subsequence(after.executed, after.appended)
            &&& after.data == executed(after.executed, start)
            &&& after.pending matches Some(pending) ==> {
                &&& pending.stage !is Append ==> {
                    &&& after.appended.len() > 0
                    &&& after.appended.last() == pending.transaction
                    &&& is_subsequence(after.executed, after.appended.drop_last())
                }
                &&& pending.stage is Sync ==> is_subsequence(
                    after.synced,
                    after.appended.drop_last(),
                )
                &&& pending.stage is Create ==> {
                    &&& after.synced.len() > 0
                    &&& after.synced.last() == pending.transaction
                    &&& is_subsequence(after.executed, after.synced.drop_last())
                }
            }
        }),
    decreases calls.len(),
{
    if calls.len() > 0 {
        let earlier = calls.drop_last();
        law_executed_in_the_order_of_the_log::<Data, T, L>(serializer, start, log, earlier);
        let before = course::<Data, T, L>(serializer, start, log, earlier);
        match (calls.last(), before.pending) {
            (Call::Resume(_), Some(pending)) => {
                let transaction = pending.transaction;
                assert(before.appended.push(transaction).drop_last() =~= before.appended);
                assert(before.synced.push(transaction).drop_last() =~= before.synced);
                assert(before.executed.push(transaction).drop_last() =~= before.executed);
            },
            _ => {},
        }
    }
}

/// Where no execution is given up and nothing fails, all transactions whose records
/// were appended are synced and executed, but for the one that is under way.
pub proof fn law_all_appended_are_executed<Data, T: Transaction<Data>, L: Serializer<T>>(
    serializer: &L,
    start: Data,
    log: LogView,
    calls: Seq<Call<T>>,
)
    requires
        is_undisturbed::<Data, T, L>(serializer, start, log, calls),
    ensures
        ({
            let after = course::<Data, T, L>(serializer, start, log, calls);
            let (appended, synced) = match after.pending {
                None => (after.executed, after.executed),
                Some(pending) => {
                    let with_it = after.executed.push(pending.transaction);
                    match pending.stage {
                        Stage::Append => (after.executed, after.executed),
                        Stage::Sync => (with_it, after.executed),
                        Stage::Create => (with_it, with_it),
                    }
                },
            };
            after.appended == appended && after.synced == synced
        }),
    decreases calls.len(),
{
    if calls.len() > 0 {
        law_all_appended_are_executed::<Data, T, L>(serializer, start, log, calls.drop_last());
    }
}

/// A log of JSON records: each of `lines` with its newline.
pub open spec fn json_log(lines: Seq<Seq<u8>>) -> Seq<u8>
    decreases lines.len(),
{
    if lines.len() == 0 {
        Seq::empty()
    } else {
        json_log(lines.drop_last()) + lines.last().push(NEWLINE)
    }
}

pub open spec fn without_newlines(lines: Seq<Seq<u8>>) -> bool {
    forall|i: int| 0 <= i < lines.len() ==> !(#[trigger] lines[i]).contains(NEWLINE)
}

/// The records of a JSON log are its lines, each with its newline.
pub proof fn lemma_json_log_records(lines: Seq<Seq<u8>>)
    requires
        without_newlines(lines),
    ensures
        is_finished(json_log(lines)),
        records(json_log(lines)) == lines.map_values(|line: Seq<u8>| line.push(NEWLINE)),
    decreases lines.len(),
{
    let as_records = lines.map_values(|line: Seq<u8>| line.push(NEWLINE));
    if lines.len() == 0 {
        lemma_place(Seq::<u8>::empty(), NEWLINE);
        assert(records(Seq::<u8>::empty()) =~= as_records);
    } else {
        let earlier = lines.drop_last();
        assert forall|i: int| 0 <= i < earlier.len() implies !(#[trigger] earlier[i]).contains(
            NEWLINE,
        ) by {
            assert(earlier[i] == lines[i]);
        }
        lemma_json_log_records(earlier);
        assert(!lines[lines.len() - 1].contains(NEWLINE));
        let record = lines.last().push(NEWLINE);
        lemma_line_is_record(lines.last());
        lemma_record_alone(record);
        lemma_records_joined(json_log(earlier), record);
        assert(records(json_log(lines)) =~= as_records);
        assert(json_log(lines).last() == record.last());
    }
}

/// Transactions that are written as JSON, one behind the other, are read back as
/// they were, in the order in which they were written, where `parse` reads each
/// of them back. A record that broke off behind them changes nothing. (JSON as it
/// is written here has no newline in it.)
pub proof fn law_json_log_is_read_back<T, F: Fn(&[u8]) -> Result<T, serde_json::Error>>(
    parse: F,
    lines: Seq<Seq<u8>>,
    torn: Seq<u8>,
    values: Seq<T>,
    items: Seq<Result<T, JsonSerializeError>>,
)
    requires
        lines.len() == values.len(),
        without_newlines(lines),
        !torn.contains(NEWLINE),
        forall|i: int, parsed: Result<T, serde_json::Error>|
            0 <= i < lines.len() && #[trigger] parses(parse, lines[i].push(NEWLINE), parsed)
                ==> parsed == Ok::<T, serde_json::Error>(values[i]),
        items_of(parse, records(json_log(lines) + torn), None, items),
    ensures
        items == all_read::<T, JsonSerializeError>(values),
{
    law_torn_record(json_log(lines), torn);
    lemma_json_log_records(lines);
    let whole = records(json_log(lines));
    assert forall|i: int, parsed: Result<T, serde_json::Error>|
        0 <= i < whole.len() && #[trigger] parses(parse, whole[i], parsed) implies parsed == Ok::<
        T,
        serde_json::Error,
    >(values[i]) by {
        assert(whole[i] == lines[i].push(NEWLINE));
    }
    lemma_items_read_back(parse, whole, values, items);
}

/// Whether `parse` reads `value`, and nothing else, from `line`.
pub open spec fn reads_only<T, F: Fn(&[u8]) -> Result<T, serde_json::Error>>(
    parse: F,
    line: Seq<u8>,
    value: T,
) -> bool {
    forall|parsed: Result<T, serde_json::Error>| #[trigger]
        parses(parse, line, parsed) ==> parsed == Ok::<T, serde_json::Error>(value)
}

/// Whether the serializer reads logs as `JsonSerializer::read_log` does with `parse`.
pub open spec fn reads_json_logs<
    T,
    L: Serializer<T, DeserializeError = JsonSerializeError>,
    F: Fn(&[u8]) -> Result<T, serde_json::Error>,
>(serializer: &L, parse: F) -> bool {
    forall|bytes: Seq<u8>|
        items_of(parse, records(bytes), None, #[trigger] serializer.transactions(bytes, None))
}

/// Whether the serializer writes `value` as a record that `parse` reads back.
pub open spec fn writes_json_log<T, L: Serializer<T>, F: Fn(&[u8]) -> Result<
    T,
    serde_json::Error,
>>(serializer: &L, parse: F, value: T) -> bool {
    &&& serializer.encoded(value) is Ok
    &&& is_record(serializer.encoded(value)->Ok_0)
    &&& reads_only(parse, serializer.encoded(value)->Ok_0, value)
}

/// The JSON format is one that restores: a serializer that writes each transaction
/// as one record, and reads logs record by record with a `parse` that reads each of
/// them back, meets what `law_history_is_restored` asks of it.
pub proof fn law_json_reads_back_stretches<
    T,
    L: Serializer<T, DeserializeError = JsonSerializeError>,
    F: Fn(&[u8]) -> Result<T, serde_json::Error>,
>(serializer: &L, parse: F, transactions: Seq<T>)
    requires
        reads_json_logs(serializer, parse),
        forall|i: int|
            0 <= i < transactions.len() ==> writes_json_log(
                serializer,
                parse,
                #[trigger] transactions[i],
            ),
    ensures
        reads_back_stretches(serializer, transactions),
{
    assert forall|i: int, j: int| 0 <= i <= j <= transactions.len() implies #[trigger] reads_back(
        serializer,
        transactions.subrange(i, j),
    ) by {
        let stretch = transactions.subrange(i, j);
        assert forall|k: int| 0 <= k < stretch.len() implies writes_json_log(
            serializer,
            parse,
            #[trigger] stretch[k],
        ) by {
            assert(stretch[k] == transactions[i + k]);
        }
        let lines = json_lines(serializer, stretch);
        lemma_log_of_json(serializer, parse, stretch);
        assert(json_log(lines) + Seq::<u8>::empty() =~= json_log(lines));
        assert forall|k: int, parsed: Result<T, serde_json::Error>|
            0 <= k < lines.len() && #[trigger] parses(
                parse,
                lines[k].push(NEWLINE),
                parsed,
            ) implies parsed == Ok::<T, serde_json::Error>(stretch[k]) by {
            assert(writes_json_log(serializer, parse, stretch[k]));
            let record = serializer.encoded(stretch[k])->Ok_0;
            lemma_place(record, NEWLINE);
            assert(lines[k].push(NEWLINE) =~= record);
        }
        law_json_log_is_read_back(
            parse,
            lines,
            Seq::empty(),
            stretch,
            serializer.transactions(log_of(serializer, stretch), None),
        );
    }
}

/// The lines of the records that transactions are written as.
pub open spec fn json_lines<T, L: Serializer<T>>(serializer: &L, transactions: Seq<T>) -> Seq<
    Seq<u8>,
> {
    transactions.map_values(|transaction: T| serializer.encoded(transaction)->Ok_0.drop_last())
}

proof fn lemma_log_of_json<T, L: Serializer<T>, F: Fn(&[u8]) -> Result<T, serde_json::Error>>(
    serializer: &L,
    parse: F,
    transactions: Seq<T>,
)
    requires
        forall|i: int|
            0 <= i < transactions.len() ==> writes_json_log(
                serializer,
                parse,
                #[trigger] transactions[i],
            ),
    ensures
        log_of(serializer, transactions) == json_log(json_lines(serializer, transactions)),
        without_newlines(json_lines(serializer, transactions)),
    decreases transactions.len(),
{
    let lines = json_lines(serializer, transactions);
    if transactions.len() > 0 {
        let earlier = transactions.drop_last();
        assert forall|i: int| 0 <= i < earlier.len() implies writes_json_log(
            serializer,
            parse,
            #[trigger] earlier[i],
        ) by {
            assert(earlier[i] == transactions[i]);
        }
        lemma_log_of_json(serializer, parse, earlier);
        assert(lines.drop_last() =~= json_lines(serializer, earlier));
        assert(writes_json_log(serializer, parse, transactions[transactions.len() - 1]));
        let record = serializer.encoded(transactions.last())->Ok_0;
        lemma_place(record, NEWLINE);
        assert(lines.last().push(NEWLINE) =~= record);
        assert forall|i: int| 0 <= i < lines.len() implies !(#[trigger] lines[i]).contains(
            NEWLINE,
        ) by {
            if i < earlier.len() {
                assert(lines.drop_last()[i] == lines[i]);
            }
        }
    }
}

proof fn lemma_items_read_back<T, F: Fn(&[u8]) -> Result<T, serde_json::Error>>(
    parse: F,
    lines: Seq<Seq<u8>>,
    values: Seq<T>,
    items: Seq<Result<T, JsonSerializeError>>,
)
    requires
        lines.len() == values.len(),
        forall|i: int, parsed: Result<T, serde_json::Error>|
            0 <= i < lines.len() && #[trigger] parses(parse, lines[i], parsed) ==> parsed == Ok::<
                T,
                serde_json::Error,
            >(values[i]),
        items_of(parse, lines, None, items),
    ensures
        items == all_read::<T, JsonSerializeError>(values),
    decreases lines.len(),
{
    if lines.len() > 0 {
        match items[0] {
            Ok(value) => {
                assert(parses(parse, lines[0], Ok(value)));
            },
            Err(JsonSerializeError::SerdeJsonError(error)) => {
                assert(parses::<T, F>(parse, lines[0], Err(error)));
            },
            Err(_) => {},
        }
        let rest = lines.drop_first();
        assert forall|i: int, parsed: Result<T, serde_json::Error>|
            0 <= i < rest.len() && #[trigger] parses(parse, rest[i], parsed) implies parsed == Ok::<
            T,
            serde_json::Error,
        >(values.drop_first()[i]) by {
            assert(rest[i] == lines[i + 1]);
        }
        lemma_items_read_back(parse, rest, values.drop_first(), items.drop_first());
        let expected = all_read::<T, JsonSerializeError>(values);
        assert(expected.drop_first() =~= all_read::<T, JsonSerializeError>(values.drop_first()));
        assert(items =~= seq![items[0]] + items.drop_first());
        assert(expected =~= seq![expected[0]] + expected.drop_first());
    } else {
        assert(items =~= all_read::<T, JsonSerializeError>(values));
    }
}

} // verus!
