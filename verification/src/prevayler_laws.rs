//! What calls promise: how a restart, an execution and a builder relate to what the
//! files hold. Each law speaks of what calls were given and what they gave.
use vstd::prelude::*;

use crate::bytes::lemma_unsigned_range;
use crate::json::Serializer;
use crate::laws::{
    as_read, executed, history, law_history_is_restored, reads_back_stretches, DiskFile,
};
use crate::log::{
    last_log, lemma_replay_items_stops, lemma_replay_stops, replay, replay_items, views, LogAction,
    LogFileRead, LogStep, LogView, RedoLog, RedoLogError, LOG_LIMIT,
};
use crate::name_laws::{ends_in_log, lemma_log_name_ends_in_log};
use crate::names::{
    index_of_log, law_log_name_is_read_back, log_name, make_log_name, read_log_index,
    second_piece,
};
use crate::prevayler::{ExecuteStep, Prevayler, PrevaylerBuilder, PrevaylerError};
use crate::transaction::Transaction;

verus! {

/// Whether `files` are those of a directory, each read to its end without a fault.
pub open spec fn are_read_from(files: Seq<LogFileRead>, disk: Seq<DiskFile>) -> bool {
    &&& files.len() == disk.len()
    &&& forall|i: int|
        0 <= i < files.len() ==> {
            &&& (#[trigger] files[i]).name@ == disk[i].name
            &&& files[i].text matches Ok(text)
            &&& text.bytes@ == disk[i].bytes
            &&& text.fault is None
        }
}

/// Transactions, each of them read without an error.
pub open spec fn no_error<T, E>(transactions: Seq<T>) -> Seq<Result<T, E>> {
    transactions.map_values(|transaction: T| Ok(transaction))
}

/// Whether each of `files` was read, and holds the transactions that `held` says.
pub open spec fn hold<T, L: Serializer<T>>(
    serializer: &L,
    files: Seq<LogFileRead>,
    held: Seq<Seq<T>>,
) -> bool {
    &&& held.len() == files.len()
    &&& forall|i: int|
        0 <= i < files.len() ==> {
            &&& (#[trigger] files[i]).text matches Ok(text)
            &&& serializer.transactions(text.bytes@, text.fault) == no_error::<
                T,
                L::DeserializeError,
            >(held[i])
        }
}

/// All that is held, one behind the other.
pub open spec fn in_a_row<T>(held: Seq<Seq<T>>) -> Seq<T>
    decreases held.len(),
{
    if held.len() == 0 {
        Seq::empty()
    } else {
        in_a_row(held.drop_last()) + held.last()
    }
}

/// How many transactions the last file holds.
pub open spec fn last_count<T>(held: Seq<Seq<T>>) -> int {
    if held.len() == 0 {
        0
    } else {
        held.last().len() as int
    }
}

pub proof fn lemma_executed_joined<Data, T: Transaction<Data>>(a: Seq<T>, b: Seq<T>, start: Data)
    ensures
        executed(a + b, start) == executed(b, executed(a, start)),
    decreases b.len(),
{
    if b.len() == 0 {
        assert(a + b =~= a);
    } else {
        lemma_executed_joined(a, b.drop_last(), start);
        assert((a + b).drop_last() =~= a + b.drop_last());
    }
}

proof fn lemma_items_replayed<Data, T: Transaction<Data>, S, D>(transactions: Seq<T>, data: Data)
    ensures
        replay_items::<Data, T, S, D>(no_error::<T, D>(transactions), data).reached(
            executed(transactions, data),
            transactions.len() as int,
        ),
    decreases transactions.len(),
{
    let items = no_error::<T, D>(transactions);
    if transactions.len() > 0 {
        lemma_items_replayed::<Data, T, S, D>(transactions.drop_last(), data);
        assert(items.drop_last() =~= no_error::<T, D>(transactions.drop_last()));
    }
}

proof fn lemma_files_replayed<Data, T: Transaction<Data>, L: Serializer<T>>(
    serializer: &L,
    files: Seq<LogFileRead>,
    held: Seq<Seq<T>>,
    start: Data,
)
    requires
        hold(serializer, files, held),
    ensures
        replay::<Data, T, L>(serializer, views(files), start).reached(
            executed(in_a_row(held), start),
            last_count(held),
        ),
    decreases files.len(),
{
    if files.len() > 0 {
        let n = files.len() - 1;
        assert(hold(serializer, files.drop_last(), held.drop_last())) by {
            assert forall|i: int| 0 <= i < n implies (#[trigger] files.drop_last()[i]) == files[i]
                && held.drop_last()[i] == held[i] by {}
        }
        lemma_files_replayed::<Data, T, L>(
            serializer,
            files.drop_last(),
            held.drop_last(),
            start,
        );
        assert(views(files).drop_last() =~= views(files.drop_last()));
        assert(files[n].text is Ok);
        assert(views(files).last() == files[n]@);
        let before = executed(in_a_row(held.drop_last()), start);
        lemma_items_replayed::<Data, T, L::SerializerError, L::DeserializeError>(
            held.last(),
            before,
        );
        lemma_executed_joined(in_a_row(held.drop_last()), held.last(), start);
    }
}

/// What a replay comes upon first that is no transaction.
pub enum Obstacle<E> {
    /// A file that could not be opened.
    Closed(std::io::Error),
    /// Something that the serializer could not read.
    Unreadable(E),
}

/// Whether the file behind those of `held` gives `part`, and then the obstacle.
pub open spec fn is_stopped<T, L: Serializer<T>>(
    serializer: &L,
    files: Seq<LogFileRead>,
    held: Seq<Seq<T>>,
    part: Seq<T>,
    obstacle: Obstacle<L::DeserializeError>,
) -> bool {
    let k = held.len() as int;
    &&& k < files.len()
    &&& hold(serializer, files.take(k), held)
    &&& match obstacle {
        Obstacle::Closed(fault) => {
            &&& part.len() == 0
            &&& files[k].text matches Err(error)
            &&& error == fault
        },
        Obstacle::Unreadable(error) => {
            &&& files[k].text matches Ok(text)
            &&& no_error::<T, L::DeserializeError>(part).push(Err(error)).is_prefix_of(
                serializer.transactions(text.bytes@, text.fault),
            )
        },
    }
}

proof fn lemma_replay_stopped<Data, T: Transaction<Data>, L: Serializer<T>>(
    serializer: &L,
    files: Seq<LogFileRead>,
    held: Seq<Seq<T>>,
    part: Seq<T>,
    obstacle: Obstacle<L::DeserializeError>,
    start: Data,
)
    requires
        is_stopped(serializer, files, held, part, obstacle),
    ensures
        ({
            let stopped = replay::<Data, T, L>(serializer, views(files), start);
            &&& stopped.data == executed(in_a_row(held) + part, start)
            &&& match obstacle {
                Obstacle::Closed(fault) => stopped.error matches Some(RedoLogError::IoError(error))
                    && error == fault,
                Obstacle::Unreadable(cause) => stopped.error matches Some(
                    RedoLogError::DeserializeError(error),
                ) && error == cause,
            }
        }),
{
    let k = held.len() as int;
    let all = views(files);
    lemma_files_replayed::<Data, T, L>(serializer, files.take(k), held, start);
    lemma_executed_joined(in_a_row(held), part, start);
    let before = executed(in_a_row(held), start);
    assert(all.take(k + 1).drop_last() =~= views(files.take(k)));
    assert(all.take(k + 1).last() == files[k]@);
    match obstacle {
        Obstacle::Closed(_) => {
            assert(in_a_row(held) + part =~= in_a_row(held));
        },
        Obstacle::Unreadable(error) => {
            let text = files[k].text->Ok_0;
            let items = serializer.transactions(text.bytes@, text.fault);
            let read = no_error::<T, L::DeserializeError>(part);
            let some = read.push(Err(error));
            assert(items.take(some.len() as int) =~= some);
            assert(some.drop_last() =~= read);
            lemma_items_replayed::<Data, T, L::SerializerError, L::DeserializeError>(part, before);
            lemma_replay_items_stops::<Data, T, L::SerializerError, L::DeserializeError>(
                items,
                before,
                some.len() as int,
            );
        },
    }
    lemma_replay_stops::<Data, T, L>(serializer, all, start, k + 1);
}

/// Whether the file that a log of `files` goes on with has the index `index`: it is the
/// last of them, named for that index, or the very first file of all.
pub open spec fn goes_on_with(files: Seq<LogFileRead>, index: usize) -> bool {
    &&& files.len() == 0 ==> index == 0
    &&& files.len() > 0 ==> exists|made: Vec<u8>| #[trigger]
        call_ensures(make_log_name, (index,), made) && files.last().name@ == made@
}

proof fn lemma_goes_on_with(files: Seq<LogFileRead>, index: usize)
    requires
        goes_on_with(files, index),
    ensures
        index_of_log(last_log(files.map_values(|file: LogFileRead| file.name@))) == Some(
            index as int,
        ),
{
    law_log_name_is_read_back(index);
    let names = files.map_values(|file: LogFileRead| file.name@);
    if files.len() > 0 {
        assert(names.last() == files.last().name@);
        assert(names.last() == log_name(index as int));
    }
}

/// A restart replays every transaction of every file, in order, on the data that it
/// is given, and goes on with the last file, with as many transactions as it holds.
pub proof fn law_restart_replays_every_file<Data, T: Transaction<Data>, L: Serializer<T>>(
    start: Data,
    path: Vec<u8>,
    files: Vec<LogFileRead>,
    serializer: L,
    held: Seq<Seq<T>>,
    index: usize,
    result: Result<
        Prevayler<Data, T, L>,
        PrevaylerError<L::SerializerError, L::DeserializeError>,
    >,
)
    requires
        call_ensures(
            Prevayler::<Data, T, L>::new,
            (start, path, files, Ok(()), serializer),
            result,
        ),
        hold(&serializer, files@, held),
        goes_on_with(files@, index),
    ensures
        result matches Ok(made) && {
            &&& made.data() == executed(in_a_row(held), start)
            &&& made.log() == (LogView {
                path: path@,
                file_index: index as int,
                n_transactions: last_count(held),
            })
            &&& made.serializer() == serializer
            &&& made.directory() == path@
            &&& made.pending() is None
        },
{
    lemma_files_replayed::<Data, T, L>(&serializer, files@, held, start);
    lemma_goes_on_with(files@, index);
}

/// A restart fails where a file cannot be opened or read, with the error of the first
/// that cannot.
pub proof fn law_restart_fails_at_the_first_error<Data, T: Transaction<Data>, L: Serializer<T>>(
    start: Data,
    path: Vec<u8>,
    files: Vec<LogFileRead>,
    opened: Result<(), std::io::Error>,
    serializer: L,
    held: Seq<Seq<T>>,
    part: Seq<T>,
    obstacle: Obstacle<L::DeserializeError>,
    result: Result<
        Prevayler<Data, T, L>,
        PrevaylerError<L::SerializerError, L::DeserializeError>,
    >,
)
    requires
        call_ensures(
            Prevayler::<Data, T, L>::new,
            (start, path, files, opened, serializer),
            result,
        ),
        is_stopped(&serializer, files@, held, part, obstacle),
    ensures
        result matches Err(raised) && match obstacle {
            Obstacle::Closed(fault) => raised == PrevaylerError::<
                L::SerializerError,
                L::DeserializeError,
            >::IoError(fault),
            Obstacle::Unreadable(error) => raised == PrevaylerError::<
                L::SerializerError,
                L::DeserializeError,
            >::DeserializationError(error),
        },
{
    lemma_replay_stopped::<Data, T, L>(&serializer, files@, held, part, obstacle, start);
}

/// A restart whose files could all be read fails where the last cannot be opened for
/// appending, or has no index in its name; and only there.
pub proof fn law_restart_fails_at_the_last_file<Data, T: Transaction<Data>, L: Serializer<T>>(
    start: Data,
    path: Vec<u8>,
    files: Vec<LogFileRead>,
    opened: Result<(), std::io::Error>,
    serializer: L,
    held: Seq<Seq<T>>,
    name: &[u8],
    index: Option<usize>,
    result: Result<
        Prevayler<Data, T, L>,
        PrevaylerError<L::SerializerError, L::DeserializeError>,
    >,
)
    requires
        call_ensures(
            Prevayler::<Data, T, L>::new,
            (start, path, files, opened, serializer),
            result,
        ),
        hold(&serializer, files@, held),
        files@.len() > 0,
        files@.last().name@ == name@,
        call_ensures(read_log_index, (name,), index),
    ensures
        match (opened, index) {
            (Err(fault), _) => result == Err::<Prevayler<Data, T, L>, _>(
                PrevaylerError::<L::SerializerError, L::DeserializeError>::IoError(fault),
            ),
            (Ok(_), None) => result == Err::<Prevayler<Data, T, L>, _>(
                PrevaylerError::<L::SerializerError, L::DeserializeError>::UnexpectedLogFile,
            ),
            (Ok(_), Some(_)) => result is Ok,
        },
{
    lemma_files_replayed::<Data, T, L>(&serializer, files@, held, start);
    assert(files@.map_values(|file: LogFileRead| file.name@).last() == name@);
}

/// What a restart does to the data, the log does: it replays every transaction of
/// every file, in order.
pub proof fn law_log_replays_every_file<Data, T: Transaction<Data>, L: Serializer<T>>(
    data: &mut Data,
    path: Vec<u8>,
    files: Vec<LogFileRead>,
    serializer: &L,
    held: Seq<Seq<T>>,
    index: usize,
    result: Result<RedoLog, RedoLogError<L::SerializerError, L::DeserializeError>>,
)
    requires
        call_ensures(
            RedoLog::new::<Data, T, L>,
            (data, path, files, Ok(()), serializer),
            result,
        ),
        hold(serializer, files@, held),
        goes_on_with(files@, index),
    ensures
        *final(data) == executed(in_a_row(held), *old(data)),
        result matches Ok(made) && {
            &&& made@ == (LogView {
                path: path@,
                file_index: index as int,
                n_transactions: last_count(held),
            })
            &&& made.stage() is None
        },
{
    lemma_files_replayed::<Data, T, L>(serializer, files@, held, *old(data));
    lemma_goes_on_with(files@, index);
}

/// What was executed before the first error stays executed.
pub proof fn law_log_stops_at_the_first_error<Data, T: Transaction<Data>, L: Serializer<T>>(
    data: &mut Data,
    path: Vec<u8>,
    files: Vec<LogFileRead>,
    opened: Result<(), std::io::Error>,
    serializer: &L,
    held: Seq<Seq<T>>,
    part: Seq<T>,
    obstacle: Obstacle<L::DeserializeError>,
    result: Result<RedoLog, RedoLogError<L::SerializerError, L::DeserializeError>>,
)
    requires
        call_ensures(
            RedoLog::new::<Data, T, L>,
            (data, path, files, opened, serializer),
            result,
        ),
        is_stopped(serializer, files@, held, part, obstacle),
    ensures
        *final(data) == executed(in_a_row(held) + part, *old(data)),
        result matches Err(raised) && match obstacle {
            Obstacle::Closed(fault) => raised == RedoLogError::<
                L::SerializerError,
                L::DeserializeError,
            >::IoError(fault),
            Obstacle::Unreadable(error) => raised == RedoLogError::<
                L::SerializerError,
                L::DeserializeError,
            >::DeserializeError(error),
        },
{
    lemma_replay_stopped::<Data, T, L>(serializer, files@, held, part, obstacle, *old(data));
}

/// Whatever transactions were executed, a restart on the files that they left gives
/// what executing them gave, and the log that wrote them.
pub proof fn law_restart_restores_a_history<Data, T: Transaction<Data>, L: Serializer<T>>(
    start: Data,
    path: Vec<u8>,
    files: Vec<LogFileRead>,
    serializer: L,
    transactions: Seq<T>,
    result: Result<
        Prevayler<Data, T, L>,
        PrevaylerError<L::SerializerError, L::DeserializeError>,
    >,
)
    requires
        call_ensures(
            Prevayler::<Data, T, L>::new,
            (start, path, files, Ok(()), serializer),
            result,
        ),
        are_read_from(files@, history(&serializer, path@, transactions).0),
        reads_back_stretches(&serializer, transactions),
        transactions.len() / (LOG_LIMIT as nat) < 100_000_000,
    ensures
        result matches Ok(made) && {
            &&& made.data() == executed(transactions, start)
            &&& made.log() == history(&serializer, path@, transactions).1
        },
{
    let (disk, log) = history(&serializer, path@, transactions);
    law_history_is_restored::<Data, T, L>(&serializer, path@, transactions, start);
    assert forall|i: int| 0 <= i < disk.len() implies #[trigger] views(files@)[i]
        == as_read(disk)[i] by {
        assert(files@[i].name@ == disk[i].name);
    }
    assert(views(files@) =~= as_read(disk));
    assert(files@[disk.len() - 1].name@ == disk[disk.len() - 1].name);
    assert(files@.map_values(|file: LogFileRead| file.name@).last() == disk.last().name);
}

/// A builder that was given a directory and a serializer makes the prevayler that a
/// restart on them makes, from the data that it was created with.
pub proof fn law_builder_restarts_with_what_it_was_given<
    Data,
    T: Transaction<Data>,
    L: Serializer<T> + Default,
>(
    start: Data,
    path: Vec<u8>,
    serializer: L,
    created: PrevaylerBuilder<T, Data, L>,
    placed: PrevaylerBuilder<T, Data, L>,
    equipped: PrevaylerBuilder<T, Data, L>,
    directory: Vec<u8>,
    files: Vec<LogFileRead>,
    held: Seq<Seq<T>>,
    index: usize,
    result: Result<
        Prevayler<Data, T, L>,
        PrevaylerError<L::SerializerError, L::DeserializeError>,
    >,
)
    requires
        call_ensures(PrevaylerBuilder::<T, Data, L>::create, (start,), created),
        call_ensures(PrevaylerBuilder::<T, Data, L>::with_path, (created, path), placed),
        call_ensures(
            PrevaylerBuilder::<T, Data, L>::with_serializer,
            (placed, serializer),
            equipped,
        ),
        call_ensures(PrevaylerBuilder::<T, Data, L>::directory, (&equipped,), directory),
        call_ensures(PrevaylerBuilder::<T, Data, L>::build, (equipped, files, Ok(())), result),
        hold(&serializer, files@, held),
        goes_on_with(files@, index),
    ensures
        directory@ == path@,
        result matches Ok(made) && {
            &&& made.data() == executed(in_a_row(held), start)
            &&& made.log() == (LogView {
                path: path@,
                file_index: index as int,
                n_transactions: last_count(held),
            })
            &&& made.serializer() == serializer
            &&& made.directory() == path@
        },
{
    lemma_files_replayed::<Data, T, L>(&serializer, files@, held, start);
    lemma_goes_on_with(files@, index);
}

/// A builder that was given nothing but the data takes the current directory, and the
/// serializer that is the default.
pub proof fn law_builder_falls_back_on_defaults<
    Data,
    T: Transaction<Data>,
    L: Serializer<T> + Default,
>(
    start: Data,
    serializer: L,
    created: PrevaylerBuilder<T, Data, L>,
    directory: Vec<u8>,
    files: Vec<LogFileRead>,
    held: Seq<Seq<T>>,
    index: usize,
    result: Result<
        Prevayler<Data, T, L>,
        PrevaylerError<L::SerializerError, L::DeserializeError>,
    >,
)
    requires
        forall|made: L| #[trigger] call_ensures(L::default, (), made) ==> made == serializer,
        call_ensures(PrevaylerBuilder::<T, Data, L>::create, (start,), created),
        call_ensures(PrevaylerBuilder::<T, Data, L>::directory, (&created,), directory),
        call_ensures(PrevaylerBuilder::<T, Data, L>::build, (created, files, Ok(())), result),
        hold(&serializer, files@, held),
        goes_on_with(files@, index),
    ensures
        directory@ == seq![0x2eu8],
        result matches Ok(made) && {
            &&& made.data() == executed(in_a_row(held), start)
            &&& made.log().file_index == index
            &&& made.log().n_transactions == last_count(held)
            &&& made.serializer() == serializer
            &&& made.directory() == seq![0x2eu8]
        },
{
    lemma_files_replayed::<Data, T, L>(&serializer, files@, held, start);
    lemma_goes_on_with(files@, index);
}

/// What an action that was handed out makes of the files. The last one is open.
pub open spec fn on_disk(disk: Seq<DiskFile>, action: LogAction) -> Seq<DiskFile> {
    match action {
        LogAction::Append(bytes) => disk.drop_last().push(
            DiskFile { name: disk.last().name, bytes: disk.last().bytes + bytes@ },
        ),
        LogAction::Sync => disk,
        LogAction::Create(name) => disk.push(DiskFile { name: name@, bytes: Seq::empty() }),
    }
}

/// An execution hands out its whole record to be appended, then the sync; with the
/// file full, the next file in order is created. Only then is the transaction
/// executed, on the data as it was, and its output returned.
pub proof fn law_execution_takes_its_course<
    Data,
    T: Transaction<Data>,
    L: Serializer<T>,
    X: Into<T>,
>(
    first: &mut Prevayler<Data, T, L>,
    second: &mut Prevayler<Data, T, L>,
    third: &mut Prevayler<Data, T, L>,
    fourth: &mut Prevayler<Data, T, L>,
    given: X,
    transaction: T,
    record: Seq<u8>,
    next: Vec<u8>,
    begun: ExecuteStep<T::Output, L::SerializerError, L::DeserializeError>,
    appended: ExecuteStep<T::Output, L::SerializerError, L::DeserializeError>,
    synced: ExecuteStep<T::Output, L::SerializerError, L::DeserializeError>,
    created: ExecuteStep<T::Output, L::SerializerError, L::DeserializeError>,
)
    requires
        forall|converted: T| #[trigger]
            call_ensures(X::into, (given,), converted) ==> converted == transaction,
        old(first).serializer().encoded(transaction) matches Ok(encoded) && encoded == record,
        0 <= old(first).log().file_index < usize::MAX,
        call_ensures(make_log_name, ((old(first).log().file_index + 1) as usize,), next),
        call_ensures(Prevayler::<Data, T, L>::execute::<X>, (first, given), begun),
        *final(first) == *old(second),
        call_ensures(Prevayler::<Data, T, L>::resume, (second, Ok(())), appended),
        *final(second) == *old(third),
        call_ensures(Prevayler::<Data, T, L>::resume, (third, Ok(())), synced),
        *final(third) == *old(fourth),
        synced is Perform ==> call_ensures(
            Prevayler::<Data, T, L>::resume,
            (fourth, Ok(())),
            created,
        ),
    ensures
        ({
            let before = old(first).data();
            let done = ExecuteStep::<
                T::Output,
                L::SerializerError,
                L::DeserializeError,
            >::Done(Ok(transaction.output(before)));
            let log = old(first).log();
            &&& begun matches ExecuteStep::Perform(LogAction::Append(bytes)) && bytes@ == record
            &&& appended matches ExecuteStep::Perform(LogAction::Sync)
            &&& final(first).data() == before
            &&& final(second).data() == before
            &&& final(third).serializer() == old(first).serializer()
            &&& final(third).directory() == old(first).directory()
            &&& if log.n_transactions + 1 < LOG_LIMIT {
                &&& synced == done
                &&& final(third).data() == transaction.after(before)
                &&& final(third).pending() is None
                &&& final(third).log() == (LogView {
                    n_transactions: log.n_transactions + 1,
                    ..log
                })
            } else {
                &&& synced matches ExecuteStep::Perform(LogAction::Create(name)) && name@ == next@
                &&& final(third).data() == before
                &&& created == done
                &&& final(fourth).data() == transaction.after(before)
                &&& final(fourth).pending() is None
                &&& final(fourth).serializer() == old(first).serializer()
                &&& final(fourth).directory() == old(first).directory()
                &&& final(fourth).log() == (LogView {
                    file_index: log.file_index + 1,
                    n_transactions: 0,
                    ..log
                })
            }
        }),
{
}

/// A transaction that cannot be encoded is refused, and nothing changes.
pub proof fn law_execution_is_refused<Data, T: Transaction<Data>, L: Serializer<T>, X: Into<T>>(
    prevayler: &mut Prevayler<Data, T, L>,
    given: X,
    transaction: T,
    error: L::SerializerError,
    begun: ExecuteStep<T::Output, L::SerializerError, L::DeserializeError>,
)
    requires
        forall|converted: T| #[trigger]
            call_ensures(X::into, (given,), converted) ==> converted == transaction,
        old(prevayler).serializer().encoded(transaction) matches Err(refused) && refused == error,
        call_ensures(Prevayler::<Data, T, L>::execute::<X>, (prevayler, given), begun),
    ensures
        begun matches ExecuteStep::Done(Err(PrevaylerError::SerializationError(raised))) && raised
            == error,
        final(prevayler).data() == old(prevayler).data(),
        final(prevayler).log() == old(prevayler).log(),
        final(prevayler).pending() is None,
{
}

/// Whatever fails, and wherever in its course, the transaction is not executed: the
/// failure is handed on, and the data stays as it was.
pub proof fn law_failed_execution_changes_nothing<
    Data,
    T: Transaction<Data>,
    L: Serializer<T>,
    X: Into<T>,
>(
    first: &mut Prevayler<Data, T, L>,
    second: &mut Prevayler<Data, T, L>,
    third: &mut Prevayler<Data, T, L>,
    fourth: &mut Prevayler<Data, T, L>,
    given: X,
    begun: ExecuteStep<T::Output, L::SerializerError, L::DeserializeError>,
    outcomes: (
        Result<(), std::io::Error>,
        Result<(), std::io::Error>,
        Result<(), std::io::Error>,
    ),
    appended: ExecuteStep<T::Output, L::SerializerError, L::DeserializeError>,
    synced: ExecuteStep<T::Output, L::SerializerError, L::DeserializeError>,
    created: ExecuteStep<T::Output, L::SerializerError, L::DeserializeError>,
)
    requires
        call_ensures(Prevayler::<Data, T, L>::execute::<X>, (first, given), begun),
        *final(first) == *old(second),
        begun is Perform,
        call_ensures(Prevayler::<Data, T, L>::resume, (second, outcomes.0), appended),
        *final(second) == *old(third),
        appended is Perform ==> call_ensures(
            Prevayler::<Data, T, L>::resume,
            (third, outcomes.1),
            synced,
        ),
        *final(third) == *old(fourth),
        appended is Perform && synced is Perform ==> call_ensures(
            Prevayler::<Data, T, L>::resume,
            (fourth, outcomes.2),
            created,
        ),
    ensures
        outcomes.0 matches Err(fault) ==> {
            &&& final(second).data() == old(first).data()
            &&& final(second).log() == old(first).log()
            &&& final(second).pending() is None
            &&& appended matches ExecuteStep::Done(Err(PrevaylerError::SerializationError(error)))
            &&& error == old(first).serializer().write_fault(fault)
        },
        outcomes.0 is Ok ==> {
            &&& appended matches ExecuteStep::Perform(LogAction::Sync)
            &&& outcomes.1 matches Err(fault) ==> {
                &&& final(third).data() == old(first).data()
                &&& final(third).log() == old(first).log()
                &&& final(third).pending() is None
                &&& synced matches ExecuteStep::Done(Err(PrevaylerError::IoError(error)))
                &&& error == fault
            }
            &&& outcomes.1 is Ok && synced is Perform ==> (outcomes.2 matches Err(fault) ==> {
                &&& final(fourth).data() == old(first).data()
                &&& final(fourth).log().file_index == old(first).log().file_index
                &&& final(fourth).log().n_transactions == old(first).log().n_transactions + 1
                &&& final(fourth).pending() is None
                &&& created matches ExecuteStep::Done(Err(PrevaylerError::IoError(error)))
                &&& error == fault
            })
        },
{
}

/// The limit that is handed in with a transaction makes no difference.
pub proof fn law_snapshot_limit_makes_no_difference<
    Data,
    T: Transaction<Data>,
    L: Serializer<T>,
    X: Into<T>,
>(
    prevayler: &mut Prevayler<Data, T, L>,
    given: X,
    limit: usize,
    transaction: T,
    record: Seq<u8>,
    begun: ExecuteStep<T::Output, L::SerializerError, L::DeserializeError>,
    plain: &mut Prevayler<Data, T, L>,
    plainly_begun: ExecuteStep<T::Output, L::SerializerError, L::DeserializeError>,
)
    requires
        forall|converted: T| #[trigger]
            call_ensures(X::into, (given,), converted) ==> converted == transaction,
        *old(prevayler) == *old(plain),
        old(prevayler).serializer().encoded(transaction) matches Ok(encoded) && encoded == record,
        call_ensures(
            Prevayler::<Data, T, L>::execute_with_snapshot::<X>,
            (prevayler, given, limit),
            begun,
        ),
        call_ensures(Prevayler::<Data, T, L>::execute::<X>, (plain, given), plainly_begun),
    ensures
        begun matches ExecuteStep::Perform(LogAction::Append(bytes)) && bytes@ == record,
        plainly_begun matches ExecuteStep::Perform(LogAction::Append(bytes)) && bytes@ == record,
        final(prevayler).data() == final(plain).data(),
        final(prevayler).log() == final(plain).log(),
        final(prevayler).serializer() == final(plain).serializer(),
        final(prevayler).directory() == final(plain).directory(),
        final(prevayler).pending() == final(plain).pending(),
{
}

/// What a log is asked for to write a transaction: the whole record, the sync, and
/// with the file full the next file in order. It returns how many transactions the
/// file that is then open holds.
pub proof fn law_writing_takes_its_course<T, L: Serializer<T>>(
    first: &mut RedoLog,
    second: &mut RedoLog,
    third: &mut RedoLog,
    fourth: &mut RedoLog,
    serializer: &L,
    transaction: &T,
    record: Seq<u8>,
    next: Vec<u8>,
    begun: LogStep<L::SerializerError, L::DeserializeError>,
    appended: LogStep<L::SerializerError, L::DeserializeError>,
    synced: LogStep<L::SerializerError, L::DeserializeError>,
    created: LogStep<L::SerializerError, L::DeserializeError>,
)
    requires
        serializer.encoded(*transaction) matches Ok(encoded) && encoded == record,
        0 <= old(first)@.file_index < usize::MAX,
        call_ensures(make_log_name, ((old(first)@.file_index + 1) as usize,), next),
        call_ensures(
            RedoLog::write_transaction_log::<T, L>,
            (first, serializer, transaction),
            begun,
        ),
        *final(first) == *old(second),
        call_ensures(RedoLog::resume::<T, L>, (second, serializer, Ok(())), appended),
        *final(second) == *old(third),
        call_ensures(RedoLog::resume::<T, L>, (third, serializer, Ok(())), synced),
        *final(third) == *old(fourth),
        synced is Perform ==> call_ensures(
            RedoLog::resume::<T, L>,
            (fourth, serializer, Ok(())),
            created,
        ),
    ensures
        ({
            let log = old(first)@;
            &&& begun matches LogStep::Perform(LogAction::Append(bytes)) && bytes@ == record
            &&& appended matches LogStep::Perform(LogAction::Sync)
            &&& if log.n_transactions + 1 < LOG_LIMIT {
                &&& synced matches LogStep::Done(Ok(count)) && count == log.n_transactions + 1
                &&& final(third)@ == (LogView { n_transactions: log.n_transactions + 1, ..log })
            } else {
                &&& synced matches LogStep::Perform(LogAction::Create(name)) && name@ == next@
                &&& created matches LogStep::Done(Ok(count)) && count == 0
                &&& final(fourth)@ == (LogView {
                    file_index: log.file_index + 1,
                    n_transactions: 0,
                    ..log
                })
            }
        }),
{
}

/// Executing a transaction, doing what the calls ask for, and restarting on the files
/// gives the data that the execution left, and the same log. The serializer has to
/// read the record back behind what the last file holds.
pub proof fn law_execution_survives_a_restart<
    Data,
    T: Transaction<Data>,
    L: Serializer<T>,
    X: Into<T>,
>(
    start: Data,
    path: Vec<u8>,
    serializer: L,
    disk: Seq<DiskFile>,
    files: Vec<LogFileRead>,
    held: Seq<Seq<T>>,
    made: Prevayler<Data, T, L>,
    first: &mut Prevayler<Data, T, L>,
    second: &mut Prevayler<Data, T, L>,
    third: &mut Prevayler<Data, T, L>,
    fourth: &mut Prevayler<Data, T, L>,
    given: X,
    transaction: T,
    actions: (LogAction, LogAction),
    synced: ExecuteStep<T::Output, L::SerializerError, L::DeserializeError>,
    created: ExecuteStep<T::Output, L::SerializerError, L::DeserializeError>,
    files_left: Vec<LogFileRead>,
    restarted: Result<
        Prevayler<Data, T, L>,
        PrevaylerError<L::SerializerError, L::DeserializeError>,
    >,
)
    requires
        disk.len() > 0,
        are_read_from(files@, disk),
        hold(&serializer, files@, held),
        call_ensures(
            Prevayler::<Data, T, L>::new,
            (start, path, files, Ok(()), serializer),
            Ok(made),
        ),
        forall|converted: T| #[trigger]
            call_ensures(X::into, (given,), converted) ==> converted == transaction,
        serializer.encoded(transaction) matches Ok(record) && serializer.transactions(
            disk.last().bytes + record,
            None,
        ) == serializer.transactions(disk.last().bytes, None).push(Ok(transaction)),
        serializer.transactions(Seq::empty(), None).len() == 0,
        made.log().file_index < usize::MAX,
        *old(first) == made,
        call_ensures(
            Prevayler::<Data, T, L>::execute::<X>,
            (first, given),
            ExecuteStep::Perform(actions.0),
        ),
        *final(first) == *old(second),
        call_ensures(
            Prevayler::<Data, T, L>::resume,
            (second, Ok(())),
            ExecuteStep::Perform(actions.1),
        ),
        *final(second) == *old(third),
        call_ensures(Prevayler::<Data, T, L>::resume, (third, Ok(())), synced),
        *final(third) == *old(fourth),
        synced is Perform ==> call_ensures(
            Prevayler::<Data, T, L>::resume,
            (fourth, Ok(())),
            created,
        ),
        are_read_from(
            files_left@,
            match synced {
                ExecuteStep::Done(_) => on_disk(on_disk(disk, actions.0), actions.1),
                ExecuteStep::Perform(last) => on_disk(
                    on_disk(on_disk(disk, actions.0), actions.1),
                    last,
                ),
            },
        ),
        call_ensures(
            Prevayler::<Data, T, L>::new,
            (start, path, files_left, Ok(()), serializer),
            restarted,
        ),
    ensures
        restarted matches Ok(again) && match synced {
            ExecuteStep::Done(_) => {
                &&& again.data() == final(third).data()
                &&& again.log() == final(third).log()
            },
            ExecuteStep::Perform(_) => {
                &&& again.data() == final(fourth).data()
                &&& again.log() == final(fourth).log()
            },
        },
{
    let record = serializer.encoded(transaction)->Ok_0;
    let n = disk.len() - 1;
    lemma_files_replayed::<Data, T, L>(&serializer, files@, held, start);
    assert(files@[n].name@ == disk[n].name);
    let longer = held.drop_last().push(held.last().push(transaction));
    assert(in_a_row(longer) =~= in_a_row(held).push(transaction)) by {
        assert(longer.drop_last() =~= held.drop_last());
    }
    assert(in_a_row(held).push(transaction).drop_last() =~= in_a_row(held));
    assert(executed(in_a_row(longer), start) == transaction.after(
        executed(in_a_row(held), start),
    ));
    let appended = on_disk(disk, actions.0);
    let pushed = no_error::<T, L::DeserializeError>(held.last().push(transaction));
    assert(pushed =~= no_error::<T, L::DeserializeError>(held.last()).push(Ok(transaction)));
    let rows = match synced {
        ExecuteStep::Done(_) => longer,
        ExecuteStep::Perform(_) => longer.push(Seq::empty()),
    };
    let names = files_left@.map_values(|file: LogFileRead| file.name@);
    assert(files_left@[files_left@.len() - 1].name@ == names.last());
    assert forall|i: int| 0 <= i < files_left@.len() implies {
        &&& (#[trigger] files_left@[i]).text matches Ok(text)
        &&& serializer.transactions(text.bytes@, text.fault) == no_error::<
            T,
            L::DeserializeError,
        >(rows[i])
    } by {
        if i < n {
            assert(files@[i].name@ == disk[i].name);
            assert(rows[i] == held[i]);
        } else if i == n {
            assert(rows[i] == held.last().push(transaction));
        } else {
            let none = no_error::<T, L::DeserializeError>(Seq::<T>::empty());
            assert(serializer.transactions(Seq::empty(), None) =~= none);
        }
    }
    lemma_files_replayed::<Data, T, L>(&serializer, files_left@, rows, start);
    assert(files@.map_values(|file: LogFileRead| file.name@).last() == disk.last().name);
    if synced is Perform {
        assert(rows.drop_last() =~= longer);
        assert(in_a_row(rows) =~= in_a_row(longer));
        lemma_unsigned_range(
            second_piece(disk.last().name),
            usize::MAX as int,
        );
        law_log_name_is_read_back((made.log().file_index + 1) as usize);
    }
}

/// Whatever fails while a transaction is written ends the writing: the failure is handed
/// on, and only a record that was synced is counted.
pub proof fn law_failed_writing_ends<T, L: Serializer<T>>(
    first: &mut RedoLog,
    second: &mut RedoLog,
    third: &mut RedoLog,
    fourth: &mut RedoLog,
    serializer: &L,
    transaction: &T,
    begun: LogStep<L::SerializerError, L::DeserializeError>,
    outcomes: (
        Result<(), std::io::Error>,
        Result<(), std::io::Error>,
        Result<(), std::io::Error>,
    ),
    appended: LogStep<L::SerializerError, L::DeserializeError>,
    synced: LogStep<L::SerializerError, L::DeserializeError>,
    created: LogStep<L::SerializerError, L::DeserializeError>,
)
    requires
        call_ensures(
            RedoLog::write_transaction_log::<T, L>,
            (first, serializer, transaction),
            begun,
        ),
        *final(first) == *old(second),
        begun is Perform ==> call_ensures(
            RedoLog::resume::<T, L>,
            (second, serializer, outcomes.0),
            appended,
        ),
        *final(second) == *old(third),
        begun is Perform && appended is Perform ==> call_ensures(
            RedoLog::resume::<T, L>,
            (third, serializer, outcomes.1),
            synced,
        ),
        *final(third) == *old(fourth),
        begun is Perform && appended is Perform && synced is Perform ==> call_ensures(
            RedoLog::resume::<T, L>,
            (fourth, serializer, outcomes.2),
            created,
        ),
    ensures
        final(first)@ == old(first)@,
        serializer.encoded(*transaction) matches Err(refused) ==> {
            &&& begun matches LogStep::Done(Err(RedoLogError::SerializeError(error)))
            &&& error == refused
        },
        serializer.encoded(*transaction) is Ok ==> begun is Perform,
        begun is Perform ==> {
            &&& outcomes.0 matches Err(fault) ==> {
                &&& final(second)@ == old(first)@
                &&& appended matches LogStep::Done(Err(RedoLogError::SerializeError(error)))
                &&& error == serializer.write_fault(fault)
            }
            &&& outcomes.0 is Ok ==> {
                &&& appended matches LogStep::Perform(LogAction::Sync)
                &&& outcomes.1 matches Err(fault) ==> {
                    &&& final(third)@ == old(first)@
                    &&& synced matches LogStep::Done(Err(RedoLogError::IoError(error)))
                    &&& error == fault
                }
                &&& outcomes.1 is Ok && synced is Perform ==> (outcomes.2 matches Err(fault) ==> {
                    &&& final(fourth)@ == (LogView {
                        n_transactions: old(first)@.n_transactions + 1,
                        ..old(first)@
                    })
                    &&& created matches LogStep::Done(Err(RedoLogError::IoError(error)))
                    &&& error == fault
                })
            }
        },
{
}

/// A log has room as long as its counters are below the largest number, and so has the
/// prevayler that it belongs to.
pub proof fn law_log_has_room_for_more<Data, T, L>(
    log: &RedoLog,
    log_has_room: bool,
    prevayler: &Prevayler<Data, T, L>,
    prevayler_has_room: bool,
)
    requires
        call_ensures(RedoLog::has_room, (log,), log_has_room),
        call_ensures(Prevayler::<Data, T, L>::has_room, (prevayler,), prevayler_has_room),
    ensures
        log_has_room <==> log@.file_index < usize::MAX && log@.n_transactions < usize::MAX,
        prevayler_has_room <==> prevayler.log().file_index < usize::MAX
            && prevayler.log().n_transactions < usize::MAX,
{
}

/// A restart may be asked for on any files whose last is named like a log file. An
/// execution that has begun may be resumed as long as the log has room.
pub proof fn law_prevayler_may_be_called<Data, T: Transaction<Data>, L: Serializer<T> + Default>(
    start: Data,
    path: Vec<u8>,
    files: Vec<LogFileRead>,
    opened: Result<(), std::io::Error>,
    serializer: L,
    builder: PrevaylerBuilder<T, Data, L>,
    prevayler: &mut Prevayler<Data, T, L>,
    outcome: Result<(), std::io::Error>,
)
    ensures
        files@.len() == 0 || ends_in_log(files@.last().name@) ==> {
            &&& call_requires(
                Prevayler::<Data, T, L>::new,
                (start, path, files, opened, serializer),
            )
            &&& call_requires(
                PrevaylerBuilder::<T, Data, L>::build,
                (builder, files, opened),
            )
        },
        old(prevayler).pending() is Some && old(prevayler).log().file_index < usize::MAX
            && old(prevayler).log().n_transactions < usize::MAX ==> call_requires(
            Prevayler::<Data, T, L>::resume,
            (prevayler, outcome),
        ),
{
    if files@.len() > 0 {
        lemma_log_name_ends_in_log(files@.last().name@);
    }
}

/// A log may be opened on any files whose last is named like a log file. A writing that
/// has begun may be resumed as long as the log has room.
pub proof fn law_log_may_be_called<Data, T: Transaction<Data>, L: Serializer<T>>(
    data: &mut Data,
    path: Vec<u8>,
    files: Vec<LogFileRead>,
    opened: Result<(), std::io::Error>,
    serializer: &L,
    log: &mut RedoLog,
    outcome: Result<(), std::io::Error>,
)
    ensures
        files@.len() == 0 || ends_in_log(files@.last().name@) ==> call_requires(
            RedoLog::new::<Data, T, L>,
            (data, path, files, opened, serializer),
        ),
        old(log).stage() is Some && old(log)@.file_index < usize::MAX && old(log)@.n_transactions
            < usize::MAX ==> call_requires(
            RedoLog::resume::<T, L>,
            (log, serializer, outcome),
        ),
{
    if files@.len() > 0 {
        lemma_log_name_ends_in_log(files@.last().name@);
    }
}

/// An execution or a writing that hands out something to do has begun, until it is over.
pub proof fn law_what_is_handed_out_is_under_way<
    Data,
    T: Transaction<Data>,
    L: Serializer<T>,
    X: Into<T>,
>(
    first: &mut Prevayler<Data, T, L>,
    second: &mut Prevayler<Data, T, L>,
    given: X,
    outcome: Result<(), std::io::Error>,
    begun: ExecuteStep<T::Output, L::SerializerError, L::DeserializeError>,
    resumed: ExecuteStep<T::Output, L::SerializerError, L::DeserializeError>,
    log: &mut RedoLog,
    serializer: &L,
    transaction: &T,
    step: LogStep<L::SerializerError, L::DeserializeError>,
)
    requires
        call_ensures(Prevayler::<Data, T, L>::execute::<X>, (first, given), begun),
        call_ensures(Prevayler::<Data, T, L>::resume, (second, outcome), resumed),
        call_ensures(
            RedoLog::write_transaction_log::<T, L>,
            (log, serializer, transaction),
            step,
        ),
    ensures
        begun is Perform <==> final(first).pending() is Some,
        resumed is Perform <==> final(second).pending() is Some,
        step is Perform <==> final(log).stage() is Some,
{
}

/// What `query` shows is the data.
pub proof fn law_query_shows_the_data<Data, T, L>(prevayler: &Prevayler<Data, T, L>, shown: &Data)
    requires
        call_ensures(Prevayler::<Data, T, L>::query, (prevayler,), shown),
    ensures
        *shown == prevayler.data(),
{
}

} // verus!
