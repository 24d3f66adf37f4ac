//! What calls of a redo log with snapshots promise: how opening, writing and taking a
//! snapshot relate to what the files hold.
use vstd::prelude::*;

use crate::error::{PrevaylerError, PrevaylerResult};
use crate::laws::{executed, DiskFile};
use crate::name_laws::{
    begins_like_a_snapshot, lemma_file_name_begins, lemma_lexical_is_byte_by_byte, stands_no_later,
};
use crate::order::{
    arranged, inserted, lemma_arranged, lemma_lexical_total, lemma_order_unique, lexical, Ranked,
};
use crate::prevayler_laws::{in_a_row, last_count, lemma_executed_joined, no_error};
use crate::redolog::{
    action_views, file_name_for_index, get_index_from_file, index_in, indexed, is_snapshot_file,
    last_snapshot, lemma_restore_files_stops, lemma_restore_items_stops, load_snapshot,
    log_file_name, process_files, process_snapshots, read_views, restore_files, restore_items,
    selected, snapshot_file_name, snapshot_name_for_index, FileAction, Indexed, LogRead, OpenLog,
    ReDoLog, Selection,
};
use crate::serializer::{Serializer, SerializerError};
use crate::snapshot_laws::law_file_names_are_read_back;
use crate::transaction::Transaction;

verus! {

/// Whether each of `files` was opened, and holds the transactions that `held` says.
pub open spec fn hold<D, S: Serializer<D>>(
    serializer: &S,
    files: Seq<LogRead>,
    held: Seq<Seq<D>>,
) -> bool {
    &&& held.len() == files.len()
    &&& forall|i: int|
        0 <= i < files.len() ==> {
            &&& (#[trigger] files[i]).contents matches Ok(bytes)
            &&& serializer.items(bytes@) == no_error::<D, SerializerError<S::Error>>(held[i])
        }
}

proof fn lemma_items_restored<T, D: Transaction<T>, E>(transactions: Seq<D>, data: T)
    ensures
        restore_items::<T, D, E>(
            no_error::<D, SerializerError<E>>(transactions),
            data,
        ).reached(executed(transactions, data), transactions.len() as int),
    decreases transactions.len(),
{
    let items = no_error::<D, SerializerError<E>>(transactions);
    if transactions.len() > 0 {
        lemma_items_restored::<T, D, E>(transactions.drop_last(), data);
        assert(items.drop_last() =~= no_error::<D, SerializerError<E>>(transactions.drop_last()));
    }
}

proof fn lemma_files_restored<T, D: Transaction<T>, S: Serializer<D>>(
    serializer: &S,
    files: Seq<LogRead>,
    held: Seq<Seq<D>>,
    start: T,
)
    requires
        hold(serializer, files, held),
    ensures
        restore_files::<T, D, S>(serializer, read_views(files), start).reached(
            executed(in_a_row(held), start),
            last_count(held),
        ),
    decreases files.len(),
{
    if files.len() > 0 {
        let n = files.len() - 1;
        assert(hold(serializer, files.drop_last(), held.drop_last())) by {
            assert forall|i: int| 0 <= i < n implies (#[trigger] files.drop_last()[i]) == files[i]
                && held.drop_last()[i] == held[i] by {}
        }
        lemma_files_restored::<T, D, S>(serializer, files.drop_last(), held.drop_last(), start);
        assert(read_views(files).drop_last() =~= read_views(files.drop_last()));
        assert(files[n].contents is Ok);
        assert(read_views(files).last() == files[n]@);
        let before = executed(in_a_row(held.drop_last()), start);
        lemma_items_restored::<T, D, S::Error>(held.last(), before);
        lemma_executed_joined(in_a_row(held.drop_last()), held.last(), start);
    }
}

/// What a replay comes upon first that is no transaction.
pub enum Barrier<E> {
    /// A file that could not be opened.
    Closed(std::io::Error),
    /// Something that the serializer could not read.
    Unreadable(SerializerError<E>),
}

/// The error that a replay ends with.
pub open spec fn ends_with<E>(barrier: Barrier<E>) -> PrevaylerError<E> {
    match barrier {
        Barrier::Closed(fault) => PrevaylerError::IOError(fault),
        Barrier::Unreadable(error) => PrevaylerError::SerializationError(error),
    }
}

/// Whether the file behind those of `held` gives `part`, and then the barrier.
pub open spec fn is_stopped<D, S: Serializer<D>>(
    serializer: &S,
    files: Seq<LogRead>,
    held: Seq<Seq<D>>,
    part: Seq<D>,
    barrier: Barrier<S::Error>,
) -> bool {
    let k = held.len() as int;
    &&& k < files.len()
    &&& hold(serializer, files.take(k), held)
    &&& match barrier {
        Barrier::Closed(fault) => {
            &&& part.len() == 0
            &&& files[k].contents matches Err(error)
            &&& error == fault
        },
        Barrier::Unreadable(error) => {
            &&& files[k].contents matches Ok(bytes)
            &&& no_error::<D, SerializerError<S::Error>>(part).push(Err(error)).is_prefix_of(
                serializer.items(bytes@),
            )
        },
    }
}

proof fn lemma_restoring_stopped<T, D: Transaction<T>, S: Serializer<D>>(
    serializer: &S,
    files: Seq<LogRead>,
    held: Seq<Seq<D>>,
    part: Seq<D>,
    barrier: Barrier<S::Error>,
    start: T,
)
    requires
        is_stopped(serializer, files, held, part, barrier),
    ensures
        ({
            let stopped = restore_files::<T, D, S>(serializer, read_views(files), start);
            &&& stopped.data == executed(in_a_row(held) + part, start)
            &&& stopped.error == Some(ends_with(barrier))
        }),
{
    let k = held.len() as int;
    let all = read_views(files);
    lemma_files_restored::<T, D, S>(serializer, files.take(k), held, start);
    lemma_executed_joined(in_a_row(held), part, start);
    let before = executed(in_a_row(held), start);
    assert(all.take(k + 1).drop_last() =~= read_views(files.take(k)));
    assert(all.take(k + 1).last() == files[k]@);
    match barrier {
        Barrier::Closed(_) => {
            assert(in_a_row(held) + part =~= in_a_row(held));
        },
        Barrier::Unreadable(error) => {
            let items = serializer.items(files[k].contents->Ok_0@);
            let read = no_error::<D, SerializerError<S::Error>>(part);
            let some = read.push(Err(error));
            assert(items.take(some.len() as int) =~= some);
            assert(some.drop_last() =~= read);
            lemma_items_restored::<T, D, S::Error>(part, before);
            lemma_restore_items_stops::<T, D, S::Error>(items, before, some.len() as int);
        },
    }
    lemma_restore_files_stops::<T, D, S>(serializer, all, start, k + 1);
}

/// Processing files executes every transaction of every file, in order, and tells the
/// index and the name of the last file, and how many transactions it holds.
pub proof fn law_every_file_is_processed<T, D: Transaction<T>, S: Serializer<D>>(
    serializer: &S,
    files: Vec<LogRead>,
    data: &mut T,
    held: Seq<Seq<D>>,
    last: u64,
    result: PrevaylerResult<(u64, u64, Vec<u8>), S::Error>,
)
    requires
        call_ensures(process_files::<T, D, S>, (serializer, files, data), result),
        hold(serializer, files@, held),
        files@.len() > 0 ==> call_ensures(get_index_from_file, (&files@.last().name,), last),
    ensures
        *final(data) == executed(in_a_row(held), *old(data)),
        result matches Ok((index, count, name)) && {
            &&& count == last_count(held)
            &&& files@.len() > 0 ==> index == last && name@ == files@.last().name@
            &&& files@.len() == 0 ==> index == 0 && name@.len() == 0
        },
{
    lemma_files_restored::<T, D, S>(serializer, files@, held, *old(data));
}

/// Processing ends at the first file that cannot be opened or read, with that error.
/// What was executed before stays executed.
pub proof fn law_processing_stops_at_the_first_error<T, D: Transaction<T>, S: Serializer<D>>(
    serializer: &S,
    files: Vec<LogRead>,
    data: &mut T,
    held: Seq<Seq<D>>,
    part: Seq<D>,
    barrier: Barrier<S::Error>,
    result: PrevaylerResult<(u64, u64, Vec<u8>), S::Error>,
)
    requires
        call_ensures(process_files::<T, D, S>, (serializer, files, data), result),
        is_stopped(serializer, files@, held, part, barrier),
    ensures
        *final(data) == executed(in_a_row(held) + part, *old(data)),
        result == Err::<(u64, u64, Vec<u8>), _>(ends_with(barrier)),
{
    lemma_restoring_stopped::<T, D, S>(serializer, files@, held, part, barrier, *old(data));
}

/// Whether `opened` is a log that goes on with the last of `files`, or, where there is
/// none, begins with the one of index `index`. The last file is appended to, and keeps
/// what it holds.
pub open spec fn goes_on<D, S>(
    opened: (ReDoLog<D, S>, OpenLog),
    files: Seq<LogRead>,
    held: Seq<Seq<D>>,
    path: Seq<u8>,
    max_size: u64,
    serializer: S,
    last: u64,
    index: u64,
    first: Vec<u8>,
) -> bool {
    let (log, open) = opened;
    &&& log.spec_serializer() == serializer
    &&& !log.in_snapshot()
    &&& log@.path == path
    &&& log@.max_size == max_size
    &&& log@.current_size == last_count(held)
    &&& if files.len() > 0 {
        &&& open matches OpenLog::Append(name) && name@ == files.last().name@
        &&& log@.index == last
    } else {
        &&& open matches OpenLog::Create(name) && name@ == first@
        &&& log@.index == index
    }
}

/// Opening a log on its files executes every transaction of every file, in order, and
/// goes on with the last.
pub proof fn law_log_is_opened_on_every_file<T, D: Transaction<T>, S: Serializer<D>>(
    path: Vec<u8>,
    files: Vec<LogRead>,
    index: u64,
    max_size: u64,
    serializer: S,
    data: &mut T,
    held: Seq<Seq<D>>,
    last: u64,
    first: Vec<u8>,
    result: PrevaylerResult<(ReDoLog<D, S>, OpenLog), S::Error>,
)
    requires
        call_ensures(
            ReDoLog::<D, S>::new_from_files::<T>,
            (path, files, index, max_size, serializer, data),
            result,
        ),
        hold(&serializer, files@, held),
        files@.len() > 0 ==> call_ensures(get_index_from_file, (&files@.last().name,), last),
        call_ensures(file_name_for_index, (index,), first),
    ensures
        *final(data) == executed(in_a_row(held), *old(data)),
        result matches Ok(opened) && goes_on(
            opened,
            files@,
            held,
            path@,
            max_size,
            serializer,
            last,
            index,
            first,
        ),
{
    lemma_files_restored::<T, D, S>(&serializer, files@, held, *old(data));
    if files@.len() > 0 {
        assert(read_views(files@).last() == files@.last()@);
    }
}

/// Opening a log fails at the first file that cannot be opened or read.
pub proof fn law_opening_stops_at_the_first_error<T, D: Transaction<T>, S: Serializer<D>>(
    path: Vec<u8>,
    files: Vec<LogRead>,
    index: u64,
    max_size: u64,
    serializer: S,
    data: &mut T,
    held: Seq<Seq<D>>,
    part: Seq<D>,
    barrier: Barrier<S::Error>,
    result: PrevaylerResult<(ReDoLog<D, S>, OpenLog), S::Error>,
)
    requires
        call_ensures(
            ReDoLog::<D, S>::new_from_files::<T>,
            (path, files, index, max_size, serializer, data),
            result,
        ),
        is_stopped(&serializer, files@, held, part, barrier),
    ensures
        *final(data) == executed(in_a_row(held) + part, *old(data)),
        result == Err::<(ReDoLog<D, S>, OpenLog), _>(ends_with(barrier)),
{
    lemma_restoring_stopped::<T, D, S>(&serializer, files@, held, part, barrier, *old(data));
}

/// Whether each file stands behind those before it by its name, byte by byte.
pub open spec fn stand_by_name(files: Seq<LogRead>) -> bool {
    forall|i: int, j: int|
        0 <= i < j < files.len() ==> {
            &&& stands_no_later((#[trigger] files[i]).name@, (#[trigger] files[j]).name@)
            &&& files[i].name@ != files[j].name@
        }
}

proof fn lemma_arranged_by_name(files: Seq<LogRead>, ordered: Seq<LogRead>)
    requires
        files.to_multiset() == ordered.to_multiset(),
        stand_by_name(ordered),
    ensures
        arranged(files) == ordered,
{
    lemma_arranged(files);
    let by_name = |a: LogRead, b: LogRead| lexical(a.name@, b.name@);
    assert forall|i: int, j: int| 0 <= i < j < files.len() implies by_name(
        #[trigger] arranged(files)[i],
        #[trigger] arranged(files)[j],
    ) by {
        assert(arranged(files)[i].not_after(arranged(files)[j]));
    }
    assert forall|i: int, j: int| 0 <= i < j < ordered.len() implies !by_name(
        #[trigger] ordered[j],
        #[trigger] ordered[i],
    ) by {
        lemma_lexical_is_byte_by_byte(ordered[i].name@, ordered[j].name@);
        lemma_lexical_total(ordered[i].name@, ordered[j].name@);
    }
    lemma_order_unique(arranged(files), ordered, by_name);
}

/// A log is opened on the files of a directory in the order of their names, in whatever
/// order they are handed in.
pub proof fn law_log_is_opened_in_the_order_of_names<T, D: Transaction<T>, S: Serializer<D>>(
    path: Vec<u8>,
    max_size: u64,
    serializer: S,
    data: &mut T,
    files: Vec<LogRead>,
    ordered: Seq<LogRead>,
    held: Seq<Seq<D>>,
    last: u64,
    first: Vec<u8>,
    result: PrevaylerResult<(ReDoLog<D, S>, OpenLog), S::Error>,
)
    requires
        call_ensures(
            ReDoLog::<D, S>::new::<T>,
            (path, max_size, serializer, data, files),
            result,
        ),
        files@.to_multiset() == ordered.to_multiset(),
        stand_by_name(ordered),
        hold(&serializer, ordered, held),
        ordered.len() > 0 ==> call_ensures(get_index_from_file, (&ordered.last().name,), last),
        call_ensures(file_name_for_index, (0u64,), first),
    ensures
        *final(data) == executed(in_a_row(held), *old(data)),
        result matches Ok(opened) && goes_on(
            opened,
            ordered,
            held,
            path@,
            max_size,
            serializer,
            last,
            0,
            first,
        ),
{
    lemma_arranged_by_name(files@, ordered);
    lemma_files_restored::<T, D, S>(&serializer, ordered, held, *old(data));
    if ordered.len() > 0 {
        assert(read_views(ordered).last() == ordered.last()@);
    }
}

/// Opening a log fails at the first file, in the order of names, that cannot be opened
/// or read.
pub proof fn law_log_fails_in_the_order_of_names<T, D: Transaction<T>, S: Serializer<D>>(
    path: Vec<u8>,
    max_size: u64,
    serializer: S,
    data: &mut T,
    files: Vec<LogRead>,
    ordered: Seq<LogRead>,
    held: Seq<Seq<D>>,
    part: Seq<D>,
    barrier: Barrier<S::Error>,
    result: PrevaylerResult<(ReDoLog<D, S>, OpenLog), S::Error>,
)
    requires
        call_ensures(
            ReDoLog::<D, S>::new::<T>,
            (path, max_size, serializer, data, files),
            result,
        ),
        files@.to_multiset() == ordered.to_multiset(),
        stand_by_name(ordered),
        is_stopped(&serializer, ordered, held, part, barrier),
    ensures
        *final(data) == executed(in_a_row(held) + part, *old(data)),
        result == Err::<(ReDoLog<D, S>, OpenLog), _>(ends_with(barrier)),
{
    lemma_arranged_by_name(files@, ordered);
    lemma_restoring_stopped::<T, D, S>(&serializer, ordered, held, part, barrier, *old(data));
}

/// A snapshot is its first value, whatever follows it and however long it is; or the
/// error of that value, or of opening the file. Without any value there is nothing.
pub proof fn law_snapshot_is_its_first_value<T, S: Serializer<T>>(
    serializer: &S,
    contents: Result<Vec<u8>, std::io::Error>,
    result: Option<PrevaylerResult<T, S::Error>>,
)
    requires
        call_ensures(load_snapshot::<T, S>, (serializer, contents), result),
    ensures
        match contents {
            Err(fault) => result matches Some(Err(PrevaylerError::IOError(error))) && error
                == fault,
            Ok(bytes) => {
                let items = serializer.items(bytes@);
                if items.len() == 0 {
                    result is None
                } else {
                    match items[0] {
                        Ok(value) => result matches Some(Ok(loaded)) && loaded == value,
                        Err(error) => result matches Some(
                            Err(PrevaylerError::SerializationError(raised)),
                        ) && raised == error,
                    }
                }
            },
        },
{
}

/// Recovery begins with the first value of the snapshot, whatever the data was, or with
/// the data where there is no snapshot. It then executes every transaction of every
/// file, in order, and goes on with the last.
pub proof fn law_recovery_begins_with_the_snapshot<T, D: Transaction<T>, S>(
    path: Vec<u8>,
    max_size: u64,
    serializer: S,
    data: &mut T,
    index: u64,
    snapshot: Option<Result<Vec<u8>, std::io::Error>>,
    files: Vec<LogRead>,
    value: T,
    held: Seq<Seq<D>>,
    last: u64,
    first: Vec<u8>,
    tried: &mut T,
    attempt: Option<PrevaylerResult<(ReDoLog<D, S>, OpenLog), <S as Serializer<D>>::Error>>,
    result: PrevaylerResult<(ReDoLog<D, S>, OpenLog), <S as Serializer<D>>::Error>,
) where S: Serializer<D> + Serializer<T, Error = <S as Serializer<D>>::Error>
    requires
        call_ensures(
            ReDoLog::<D, S>::new_with_snapshot::<T>,
            (path, max_size, serializer, data, index, snapshot, files),
            result,
        ),
        call_ensures(
            ReDoLog::<D, S>::try_new_with_snapshot::<T>,
            (path, max_size, serializer, tried, index, snapshot, files),
            attempt,
        ),
        *old(tried) == *old(data),
        match snapshot {
            None => value == *old(data),
            Some(contents) => {
                &&& contents matches Ok(bytes)
                &&& Serializer::<T>::items(&serializer, bytes@).len() > 0
                &&& Serializer::<T>::items(&serializer, bytes@)[0] matches Ok(read) && read
                    == value
            },
        },
        hold::<D, S>(&serializer, files@, held),
        files@.len() > 0 ==> call_ensures(get_index_from_file, (&files@.last().name,), last),
        call_ensures(file_name_for_index, (index,), first),
    ensures
        *final(data) == executed(in_a_row(held), value),
        *final(tried) == executed(in_a_row(held), value),
        result matches Ok(opened) && goes_on(
            opened,
            files@,
            held,
            path@,
            max_size,
            serializer,
            last,
            index,
            first,
        ),
        attempt matches Some(Ok(opened)) && goes_on(
            opened,
            files@,
            held,
            path@,
            max_size,
            serializer,
            last,
            index,
            first,
        ),
{
    lemma_files_restored::<T, D, S>(&serializer, files@, held, value);
    if files@.len() > 0 {
        assert(read_views(files@).last() == files@.last()@);
    }
}

/// Recovery from a snapshot that cannot be opened or read fails, and leaves the data as
/// it is. From one without any value there is none.
pub proof fn law_recovery_needs_its_snapshot<T, D: Transaction<T>, S>(
    path: Vec<u8>,
    max_size: u64,
    serializer: S,
    data: &mut T,
    index: u64,
    contents: Result<Vec<u8>, std::io::Error>,
    files: Vec<LogRead>,
    loaded: Option<PrevaylerResult<T, <S as Serializer<T>>::Error>>,
    attempt: Option<PrevaylerResult<(ReDoLog<D, S>, OpenLog), <S as Serializer<D>>::Error>>,
) where S: Serializer<D> + Serializer<T, Error = <S as Serializer<D>>::Error>
    requires
        call_ensures(
            ReDoLog::<D, S>::try_new_with_snapshot::<T>,
            (path, max_size, serializer, data, index, Some(contents), files),
            attempt,
        ),
        call_ensures(load_snapshot::<T, S>, (&serializer, contents), loaded),
    ensures
        match loaded {
            None => attempt is None && *final(data) == *old(data),
            Some(Err(error)) => {
                &&& attempt matches Some(Err(raised)) && raised == error
                &&& *final(data) == *old(data)
            },
            Some(Ok(_)) => attempt is Some,
        },
{
}

/// Recovery fails at the first file behind the snapshot that cannot be opened or read.
pub proof fn law_recovery_stops_at_the_first_error<T, D: Transaction<T>, S>(
    path: Vec<u8>,
    max_size: u64,
    serializer: S,
    data: &mut T,
    index: u64,
    bytes: Vec<u8>,
    files: Vec<LogRead>,
    value: T,
    held: Seq<Seq<D>>,
    part: Seq<D>,
    barrier: Barrier<<S as Serializer<D>>::Error>,
    result: PrevaylerResult<(ReDoLog<D, S>, OpenLog), <S as Serializer<D>>::Error>,
) where S: Serializer<D> + Serializer<T, Error = <S as Serializer<D>>::Error>
    requires
        call_ensures(
            ReDoLog::<D, S>::new_with_snapshot::<T>,
            (path, max_size, serializer, data, index, Some(Ok(bytes)), files),
            result,
        ),
        Serializer::<T>::items(&serializer, bytes@).len() > 0,
        Serializer::<T>::items(&serializer, bytes@)[0] matches Ok(read) && read == value,
        is_stopped::<D, S>(&serializer, files@, held, part, barrier),
    ensures
        *final(data) == executed(in_a_row(held) + part, value),
        result == Err::<(ReDoLog<D, S>, OpenLog), _>(ends_with(barrier)),
{
    lemma_restoring_stopped::<T, D, S>(&serializer, files@, held, part, barrier, value);
}

/// A write hands out the whole record to be written and flushed. The one that brings the
/// count to the limit has the next file created first, and begins its count anew.
pub proof fn law_write_hands_out_the_record<D, S>(
    log: &mut ReDoLog<D, S>,
    data: Vec<u8>,
    next: Vec<u8>,
    result: Vec<FileAction>,
)
    requires
        call_ensures(ReDoLog::<D, S>::write_to_log, (log, data), result),
        0 <= old(log)@.index < u64::MAX,
        call_ensures(file_name_for_index, ((old(log)@.index + 1) as u64,), next),
    ensures
        final(log)@.path == old(log)@.path,
        final(log)@.max_size == old(log)@.max_size,
        final(log).spec_serializer() == old(log).spec_serializer(),
        !final(log).in_snapshot(),
        if old(log)@.current_size + 1 < old(log)@.max_size {
            &&& result@.len() == 2
            &&& result@[0] matches FileAction::WriteLog(bytes) && bytes@ == data@
            &&& result@[1] matches FileAction::FlushLog
            &&& final(log)@.current_size == old(log)@.current_size + 1
            &&& final(log)@.index == old(log)@.index
        } else {
            &&& result@.len() == 3
            &&& result@[0] matches FileAction::CreateLog(name) && name@ == next@
            &&& result@[1] matches FileAction::WriteLog(bytes) && bytes@ == data@
            &&& result@[2] matches FileAction::FlushLog
            &&& final(log)@.current_size == 0
            &&& final(log)@.index == old(log)@.index + 1
        },
{
    let actions = action_views(result@);
    assert(actions == old(log)@.write_actions(data@));
    assert(actions[0] == result@[0]@);
    assert(actions[1] == result@[1]@);
    if actions.len() == 3 {
        assert(actions[2] == result@[2]@);
    }
}

/// The bytes of a transaction are those that the serializer makes of it, or its error.
pub proof fn law_log_serializes_as_its_serializer<D, S: Serializer<D>>(
    log: &ReDoLog<D, S>,
    transaction: &D,
    result: PrevaylerResult<Vec<u8>, S::Error>,
)
    requires
        call_ensures(ReDoLog::<D, S>::serialize, (log, transaction), result),
    ensures
        match log.spec_serializer().encoded(*transaction) {
            Ok(bytes) => result matches Ok(made) && made@ == bytes,
            Err(error) => result matches Err(PrevaylerError::SerializationError(raised))
                && raised == error,
        },
{
}

/// A snapshot is written whole to a file of the next index, and flushed. Then, and only
/// when all that is done, the log goes on with an empty file of the index behind it.
pub proof fn law_snapshot_takes_its_course<D, S, T>(
    first: &mut ReDoLog<D, S>,
    second: &mut ReDoLog<D, S>,
    data: &T,
    bytes: Seq<u8>,
    snapshot_name: Vec<u8>,
    next: Vec<u8>,
    begun: (Vec<FileAction>, PrevaylerResult<(), S::Error>),
    outcome: Result<(), std::io::Error>,
    resumed: Result<FileAction, std::io::Error>,
) where S: Serializer<T>
    requires
        call_ensures(ReDoLog::<D, S>::snapshot::<T>, (first, data), begun),
        old(first).spec_serializer().encoded(*data) matches Ok(encoded) && encoded == bytes,
        *final(first) == *old(second),
        call_ensures(ReDoLog::<D, S>::resume_snapshot, (second, outcome), resumed),
        0 <= old(first)@.index,
        old(first)@.index + 2 <= u64::MAX,
        call_ensures(
            snapshot_name_for_index,
            ((old(first)@.index + 1) as u64,),
            snapshot_name,
        ),
        call_ensures(file_name_for_index, ((old(first)@.index + 2) as u64,), next),
    ensures
        begun.1 is Ok,
        begun.0@.len() == 3,
        begun.0@[0] matches FileAction::CreateSnapshot(name) && name@ == snapshot_name@,
        begun.0@[1] matches FileAction::WriteSnapshot(written) && written@ == bytes,
        begun.0@[2] matches FileAction::FlushSnapshot,
        !final(second).in_snapshot(),
        final(second).spec_serializer() == old(first).spec_serializer(),
        final(second)@.path == old(first)@.path,
        final(second)@.max_size == old(first)@.max_size,
        match outcome {
            Ok(_) => {
                &&& resumed matches Ok(FileAction::CreateLog(name)) && name@ == next@
                &&& final(second)@.index == old(first)@.index + 2
                &&& final(second)@.current_size == 0
            },
            Err(fault) => {
                &&& resumed matches Err(error) && error == fault
                &&& final(second)@.index == old(first)@.index + 1
                &&& final(second)@.current_size == old(first)@.current_size
            },
        },
{
    let actions = action_views(begun.0@);
    assert(actions == old(first)@.snapshot_actions(bytes));
    assert(actions[0] == begun.0@[0]@);
    assert(actions[1] == begun.0@[1]@);
    assert(actions[2] == begun.0@[2]@);
    if let Ok(action) = resumed {
        assert(action@ is CreateLog);
    }
}

/// A snapshot of data that cannot be written is refused, with the error of the
/// serializer.
pub proof fn law_snapshot_is_refused<D, S, T>(
    log: &mut ReDoLog<D, S>,
    data: &T,
    error: SerializerError<S::Error>,
    snapshot_name: Vec<u8>,
    begun: (Vec<FileAction>, PrevaylerResult<(), S::Error>),
) where S: Serializer<T>
    requires
        call_ensures(ReDoLog::<D, S>::snapshot::<T>, (log, data), begun),
        old(log).spec_serializer().encoded(*data) matches Err(refused) && refused == error,
        0 <= old(log)@.index < u64::MAX,
        call_ensures(
            snapshot_name_for_index,
            ((old(log)@.index + 1) as u64,),
            snapshot_name,
        ),
    ensures
        begun.1 matches Err(PrevaylerError::SerializationError(raised)) && raised == error,
        begun.0@.len() == 1,
        begun.0@[0] matches FileAction::CreateSnapshot(name) && name@ == snapshot_name@,
        final(log)@.index == old(log)@.index + 1,
        final(log)@.current_size == old(log)@.current_size,
        !final(log).in_snapshot(),
{
    let actions = action_views(begun.0@);
    assert(actions == seq![old(log)@.create_snapshot()]);
    assert(actions.len() == 1);
    assert(actions[0] == begun.0@[0]@);
}

/// Whether the log file that is open at the end of `files` is followed by what `actions`
/// make of it: the bytes that are written go behind what the last file holds then.
pub open spec fn after_actions(files: Seq<DiskFile>, actions: Seq<FileAction>) -> Seq<DiskFile>
    decreases actions.len(),
{
    if actions.len() == 0 {
        files
    } else {
        let before = after_actions(files, actions.drop_last());
        match actions.last() {
            FileAction::CreateLog(name) | FileAction::CreateSnapshot(name) => before.push(
                DiskFile { name: name@, bytes: Seq::empty() },
            ),
            FileAction::WriteLog(bytes) | FileAction::WriteSnapshot(bytes) =>
                before.drop_last().push(
                DiskFile { name: before.last().name, bytes: before.last().bytes + bytes@ },
            ),
            FileAction::FlushLog | FileAction::FlushSnapshot => before,
        }
    }
}

/// Whether `files` are those of a directory, each of them opened.
pub open spec fn are_read_from(files: Seq<LogRead>, disk: Seq<DiskFile>) -> bool {
    &&& files.len() == disk.len()
    &&& forall|i: int|
        0 <= i < files.len() ==> {
            &&& (#[trigger] files[i]).name@ == disk[i].name
            &&& files[i].contents matches Ok(bytes)
            &&& bytes@ == disk[i].bytes
        }
}

/// Opening a log, writing a transaction, doing what the call asks for, and opening the
/// log again gives the data as the transaction left it. The serializer has to read the
/// transaction back behind what the file holds that it goes to.
pub proof fn law_write_survives_a_restart<T, D: Transaction<T>, S: Serializer<D>>(
    path: Vec<u8>,
    index: u64,
    max_size: u64,
    serializer: S,
    disk: Seq<DiskFile>,
    files: Vec<LogRead>,
    held: Seq<Seq<D>>,
    last: u64,
    data: &mut T,
    made: ReDoLog<D, S>,
    open: OpenLog,
    log: &mut ReDoLog<D, S>,
    transaction: D,
    bytes: Vec<u8>,
    actions: Vec<FileAction>,
    files_left: Vec<LogRead>,
    again: &mut T,
    next: Vec<u8>,
    reopened: PrevaylerResult<(ReDoLog<D, S>, OpenLog), S::Error>,
)
    requires
        disk.len() > 0,
        are_read_from(files@, disk),
        hold(&serializer, files@, held),
        call_ensures(get_index_from_file, (&files@.last().name,), last),
        last < u64::MAX,
        call_ensures(
            ReDoLog::<D, S>::new_from_files::<T>,
            (path, files, index, max_size, serializer, data),
            Ok((made, open)),
        ),
        *old(log) == made,
        call_ensures(ReDoLog::<D, S>::serialize, (&made, &transaction), Ok(bytes)),
        call_ensures(ReDoLog::<D, S>::write_to_log, (log, bytes), actions),
        call_ensures(file_name_for_index, ((last + 1) as u64,), next),
        serializer.items(disk.last().bytes + bytes@) == serializer.items(disk.last().bytes).push(
            Ok(transaction),
        ),
        serializer.items(bytes@) == seq![Ok::<D, SerializerError<S::Error>>(transaction)],
        are_read_from(files_left@, after_actions(disk, actions@)),
        *old(again) == *old(data),
        call_ensures(
            ReDoLog::<D, S>::new_from_files::<T>,
            (path, files_left, index, max_size, serializer, again),
            reopened,
        ),
    ensures
        open matches OpenLog::Append(name) && name@ == disk.last().name,
        *final(again) == transaction.after(*final(data)),
        reopened matches Ok((log_again, open_again)) && {
            &&& log_again@.index == final(log)@.index
            &&& open_again matches OpenLog::Append(name)
            &&& name@ == after_actions(disk, actions@).last().name
        },
{
    let n = disk.len() - 1;
    lemma_files_restored::<T, D, S>(&serializer, files@, held, *old(data));
    assert(read_views(files@).last() == files@.last()@);
    assert(files@[n].name@ == disk[n].name);
    law_write_hands_out_the_record(log, bytes, next, actions);
    reveal_with_fuel(after_actions, 4);
    let after = after_actions(disk, actions@);
    assert(Seq::<u8>::empty() + bytes@ =~= bytes@);
    let full = actions@.len() == 3;
    let rows = if full {
        held.push(seq![transaction])
    } else {
        held.drop_last().push(held.last().push(transaction))
    };
    assert(in_a_row(rows) =~= in_a_row(held).push(transaction)) by {
        if full {
            assert(rows.drop_last() =~= held);
        } else {
            assert(rows.drop_last() =~= held.drop_last());
        }
    }
    assert(in_a_row(held).push(transaction).drop_last() =~= in_a_row(held));
    assert forall|i: int| 0 <= i < files_left@.len() implies {
        &&& (#[trigger] files_left@[i]).contents matches Ok(read)
        &&& serializer.items(read@) == no_error::<D, SerializerError<S::Error>>(rows[i])
    } by {
        let wanted = no_error::<D, SerializerError<S::Error>>(rows[i]);
        if i < n || (full && i == n) {
            assert(files@[i].name@ == disk[i].name);
            assert(rows[i] == held[i]);
        } else if full {
            assert(wanted =~= seq![Ok::<D, SerializerError<S::Error>>(transaction)]);
        } else {
            assert(files@[i].name@ == disk[i].name);
            assert(wanted =~= no_error::<D, SerializerError<S::Error>>(held.last()).push(
                Ok(transaction),
            ));
        }
    }
    lemma_files_restored::<T, D, S>(&serializer, files_left@, rows, *old(again));
    assert(files_left@[files_left@.len() - 1].name@ == after.last().name);
    assert(read_views(files_left@).last() == files_left@.last()@);
    if full {
        law_file_names_are_read_back((last + 1) as u64);
    }
}

/// The places of `items` in the order in which they are arranged.
spec fn places<T: Ranked>(items: Seq<T>) -> Seq<int>
    decreases items.len(),
{
    if items.len() == 0 {
        Seq::empty()
    } else {
        places_with(items, places(items.drop_last()), items.len() - 1)
    }
}

/// `order` with the place `at` put in behind all that it does not come before.
spec fn places_with<T: Ranked>(items: Seq<T>, order: Seq<int>, at: int) -> Seq<int>
    decreases order.len(),
{
    if order.len() == 0 || items[order.last()].not_after(items[at]) {
        order.push(at)
    } else {
        places_with(items, order.drop_last(), at).push(order.last())
    }
}

/// Whether `order` holds the places below `count`, each of them once.
pub open spec fn is_order_of(order: Seq<int>, count: int) -> bool {
    &&& order.len() == count
    &&& forall|i: int| 0 <= i < order.len() ==> 0 <= #[trigger] order[i] < count
    &&& order.no_duplicates()
}

proof fn lemma_places_with<T: Ranked>(items: Seq<T>, order: Seq<int>, at: int)
    requires
        forall|i: int| 0 <= i < order.len() ==> 0 <= #[trigger] order[i] < at,
        order.no_duplicates(),
        0 <= at < items.len(),
        forall|i: int, j: int|
            0 <= i < j < order.len() ==> {
                &&& items[#[trigger] order[i]].not_after(items[#[trigger] order[j]])
                &&& items[order[j]].not_after(items[order[i]]) ==> order[i] < order[j]
            },
    ensures
        ({
            let longer = places_with(items, order, at);
            &&& longer.len() == order.len() + 1
            &&& forall|i: int| 0 <= i < longer.len() ==> 0 <= #[trigger] longer[i] <= at
            &&& forall|i: int|
                0 <= i < longer.len() ==> #[trigger] longer[i] == at || order.contains(longer[i])
            &&& longer.no_duplicates()
            &&& forall|i: int, j: int|
                0 <= i < j < longer.len() ==> {
                    &&& items[#[trigger] longer[i]].not_after(items[#[trigger] longer[j]])
                    &&& items[longer[j]].not_after(items[longer[i]]) ==> longer[i] < longer[j]
                }
            &&& longer.map_values(|place: int| items[place]) == inserted(
                order.map_values(|place: int| items[place]),
                items[at],
            )
        }),
    decreases order.len(),
{
    let longer = places_with(items, order, at);
    let values = |place: int| items[place];
    if order.len() == 0 || items[order.last()].not_after(items[at]) {
        assert forall|i: int, j: int| 0 <= i < j < longer.len() implies {
            &&& items[#[trigger] longer[i]].not_after(items[#[trigger] longer[j]])
            &&& items[longer[j]].not_after(items[longer[i]]) ==> longer[i] < longer[j]
        } by {
            if j == order.len() && i < order.len() - 1 {
                assert(items[order[i]].not_after(items[order[order.len() - 1]]));
                T::transitive(items[order[i]], items[order.last()], items[at]);
            }
        }
        assert forall|i: int| 0 <= i < longer.len() implies #[trigger] longer[i] == at
            || order.contains(longer[i]) by {
            if i < order.len() {
                assert(order[i] == longer[i]);
            }
        }
        assert(longer.map_values(values) =~= order.map_values(values).push(items[at]));
    } else {
        let fewer = order.drop_last();
        let last = order.last();
        assert(order[order.len() - 1] == last);
        assert forall|i: int| 0 <= i < fewer.len() implies 0 <= #[trigger] fewer[i] < at by {
            assert(fewer[i] == order[i]);
        }
        assert forall|i: int, j: int| 0 <= i < j < fewer.len() implies {
            &&& items[#[trigger] fewer[i]].not_after(items[#[trigger] fewer[j]])
            &&& items[fewer[j]].not_after(items[fewer[i]]) ==> fewer[i] < fewer[j]
        } by {
            assert(fewer[i] == order[i] && fewer[j] == order[j]);
        }
        lemma_places_with(items, fewer, at);
        let shorter = places_with(items, fewer, at);
        T::total(items[last], items[at]);
        assert forall|i: int| 0 <= i < shorter.len() implies {
            &&& items[#[trigger] shorter[i]].not_after(items[last])
            &&& items[last].not_after(items[shorter[i]]) ==> shorter[i] < last
            &&& shorter[i] != last
        } by {
            if shorter[i] != at {
                let k = choose|k: int| 0 <= k < fewer.len() && fewer[k] == shorter[i];
                assert(order[k] == shorter[i]);
                assert(items[order[k]].not_after(items[order[order.len() - 1]]));
            }
        }
        assert forall|i: int| 0 <= i < longer.len() implies #[trigger] longer[i] == at
            || order.contains(longer[i]) by {
            if i < shorter.len() {
                assert(longer[i] == shorter[i]);
                if shorter[i] != at {
                    let k = choose|k: int| 0 <= k < fewer.len() && fewer[k] == shorter[i];
                    assert(order[k] == shorter[i]);
                }
            }
        }
        assert forall|i: int, j: int| 0 <= i < j < longer.len() implies {
            &&& items[#[trigger] longer[i]].not_after(items[#[trigger] longer[j]])
            &&& items[longer[j]].not_after(items[longer[i]]) ==> longer[i] < longer[j]
        } by {
            assert(longer[i] == shorter[i]);
            if j < shorter.len() {
                assert(longer[j] == shorter[j]);
            }
        }
        assert(longer.no_duplicates()) by {
            assert forall|i: int, j: int|
                0 <= i < longer.len() && 0 <= j < longer.len() && i != j implies longer[i]
                != longer[j] by {
                if i < shorter.len() {
                    assert(longer[i] == shorter[i]);
                }
                if j < shorter.len() {
                    assert(longer[j] == shorter[j]);
                }
            }
        }
        assert(order.map_values(values).drop_last() =~= fewer.map_values(values));
        assert(longer.map_values(values) =~= shorter.map_values(values).push(items[last]));
    }
}

proof fn lemma_places<T: Ranked>(items: Seq<T>)
    ensures
        is_order_of(places(items), items.len() as int),
        arranged(items) == places(items).map_values(|place: int| items[place]),
        forall|i: int, j: int|
            0 <= i < j < items.len() ==> {
                &&& items[#[trigger] places(items)[i]].not_after(
                    items[#[trigger] places(items)[j]],
                )
                &&& items[places(items)[j]].not_after(items[places(items)[i]])
                    ==> places(items)[i] < places(items)[j]
            },
    decreases items.len(),
{
    if items.len() == 0 {
        assert(arranged(items) =~= places(items).map_values(|place: int| items[place]));
    } else {
        let before = items.drop_last();
        let n = items.len() - 1;
        lemma_places(before);
        let order = places(before);
        assert forall|i: int, j: int| 0 <= i < j < order.len() implies {
            &&& items[#[trigger] order[i]].not_after(items[#[trigger] order[j]])
            &&& items[order[j]].not_after(items[order[i]]) ==> order[i] < order[j]
        } by {
            assert(before[order[i]] == items[order[i]]);
            assert(before[order[j]] == items[order[j]]);
        }
        lemma_places_with(items, order, n);
        assert(order.map_values(|place: int| before[place]) =~= order.map_values(
            |place: int| items[place],
        ));
    }
}

/// Whether `order` ranks files by their indices, those of one index as they are listed.
pub open spec fn ranks(order: Seq<int>, indices: Seq<u64>) -> bool {
    &&& is_order_of(order, indices.len() as int)
    &&& forall|i: int, j: int|
        0 <= i < j < order.len() ==> {
            let (a, b) = (#[trigger] order[i], #[trigger] order[j]);
            indices[a] < indices[b] || (indices[a] == indices[b] && a < b)
        }
}

/// Whether the names from the place `from` of `order` on are `files`, and none of them is
/// that of a snapshot.
pub open spec fn are_behind(
    files: Seq<Vec<u8>>,
    names: Seq<Vec<u8>>,
    order: Seq<int>,
    from: int,
) -> bool {
    &&& files == order.skip(from).map_values(|place: int| names[place])
    &&& forall|i: int|
        from <= i < order.len() ==> !begins_like_a_snapshot(names[#[trigger] order[i]]@)
}

/// The last snapshot by its index is selected, and the log files behind it by their
/// indices, in that order. Without a snapshot all files are. What is listed later counts
/// as later among files of one index.
pub proof fn law_last_snapshot_is_selected(
    names: Vec<Vec<u8>>,
    indices: Seq<u64>,
    result: Selection,
)
    requires
        call_ensures(process_snapshots, (names,), result),
        indices.len() == names@.len(),
        forall|i: int|
            0 <= i < indices.len() ==> call_ensures(
                get_index_from_file,
                (&names@[i],),
                #[trigger] indices[i],
            ),
    ensures
        exists|order: Seq<int>| #[trigger]
            ranks(order, indices) && match result.snapshot {
                None => {
                    &&& result.index == 0
                    &&& are_behind(result.files@, names@, order, 0)
                },
                Some(snapshot) => exists|at: int|
                    {
                        &&& 0 <= at < order.len()
                        &&& begins_like_a_snapshot(snapshot@)
                        &&& snapshot == names@[#[trigger] order[at]]
                        &&& result.index == indices[order[at]] + 1
                        &&& are_behind(result.files@, names@, order, at + 1)
                    },
            },
{
    let items = indexed(names@);
    let order = places(items);
    lemma_places(items);
    assert forall|i: int| 0 <= i < items.len() implies (#[trigger] items[i]).index == indices[i]
        && items[i].name == names@[i] by {
        assert(call_ensures(get_index_from_file, (&names@[i],), indices[i]));
        assert(Some(indices[i] as int) == index_in(names@[i]@));
    }
    assert(ranks(order, indices)) by {
        assert forall|i: int, j: int| 0 <= i < j < order.len() implies {
            let (a, b) = (#[trigger] order[i], #[trigger] order[j]);
            indices[a] < indices[b] || (indices[a] == indices[b] && a < b)
        } by {
            assert(items[order[i]].not_after(items[order[j]]));
            assert(items[order[i]].index == indices[order[i]]);
            assert(items[order[j]].index == indices[order[j]]);
        }
    }
    let ranked = arranged(items);
    let at = last_snapshot(ranked);
    lemma_last_snapshot_place(ranked);
    assert forall|i: int| 0 <= i < ranked.len() implies (#[trigger] ranked[i]).name
        == names@[order[i]] && ranked[i].index == indices[order[i]] by {
        assert(ranked[i] == items[order[i]]);
        assert(items[order[i]].index == indices[order[i]]);
    }
    assert forall|i: int| at + 1 <= i < order.len() implies !begins_like_a_snapshot(
        names@[#[trigger] order[i]]@,
    ) by {
        assert(ranked[i].name == names@[order[i]]);
        lemma_file_name_begins(ranked[i].name@);
    }
    assert(result.files@ =~= order.skip(at + 1).map_values(|place: int| names@[place]));
    if at >= 0 {
        assert(ranked[at].name == names@[order[at]]);
        lemma_file_name_begins(ranked[at].name@);
        assert(are_behind(result.files@, names@, order, at + 1));
    } else {
        assert(order.skip(0) =~= order);
        assert(are_behind(result.files@, names@, order, 0));
    }
}

proof fn lemma_last_snapshot_place(files: Seq<Indexed>)
    ensures
        -1 <= last_snapshot(files) < files.len(),
        last_snapshot(files) >= 0 ==> is_snapshot_file(files[last_snapshot(files)].name@),
        forall|i: int|
            last_snapshot(files) < i < files.len() ==> !is_snapshot_file(
                (#[trigger] files[i]).name@,
            ),
    decreases files.len(),
{
    if files.len() > 0 && !is_snapshot_file(files.last().name@) {
        lemma_last_snapshot_place(files.drop_last());
        assert forall|i: int| last_snapshot(files) < i < files.len() implies !is_snapshot_file(
            (#[trigger] files[i]).name@,
        ) by {
            if i < files.len() - 1 {
                assert(files.drop_last()[i] == files[i]);
            }
        }
    }
}

/// Taking a snapshot to its end and recovering gives the data of the snapshot, whatever
/// it starts with and whatever else the directory holds, as long as the indices of the
/// other files are smaller; in whatever order the files are listed.
pub proof fn law_snapshot_survives_a_restart<T, D: Transaction<T>, S>(
    first: &mut ReDoLog<D, S>,
    second: &mut ReDoLog<D, S>,
    data: &T,
    create: Vec<u8>,
    bytes: Vec<u8>,
    begun: Vec<FileAction>,
    next: Vec<u8>,
    names: Vec<Vec<u8>>,
    indices: Seq<u64>,
    places: (int, int),
    selection: Selection,
    path: Vec<u8>,
    max_size: u64,
    serializer: S,
    start: &mut T,
    file: LogRead,
    files: Vec<LogRead>,
    recovered: PrevaylerResult<(ReDoLog<D, S>, OpenLog), <S as Serializer<D>>::Error>,
) where S: Serializer<D> + Serializer<T, Error = <S as Serializer<D>>::Error>
    requires
        old(first).spec_serializer() == serializer,
        0 <= old(first)@.index,
        old(first)@.index + 2 <= u64::MAX,
        call_ensures(ReDoLog::<D, S>::snapshot::<T>, (first, data), (begun, Ok(()))),
        begun@.len() == 3,
        begun@[0] == FileAction::CreateSnapshot(create),
        begun@[1] == FileAction::WriteSnapshot(bytes),
        *final(first) == *old(second),
        call_ensures(
            ReDoLog::<D, S>::resume_snapshot,
            (second, Ok(())),
            Ok(FileAction::CreateLog(next)),
        ),
        // The directory holds the two files, and others of smaller indices.
        call_ensures(process_snapshots, (names,), selection),
        indices.len() == names@.len(),
        forall|i: int|
            0 <= i < indices.len() ==> call_ensures(
                get_index_from_file,
                (&names@[i],),
                #[trigger] indices[i],
            ),
        0 <= places.0 < names@.len(),
        0 <= places.1 < names@.len(),
        names@[places.0]@ == create@,
        names@[places.1]@ == next@,
        forall|i: int|
            0 <= i < indices.len() && i != places.0 && i != places.1 ==> #[trigger] indices[i]
                <= old(first)@.index,
        // What is selected is read and recovered from.
        Serializer::<T>::items(&serializer, bytes@).len() > 0,
        Serializer::<T>::items(&serializer, bytes@)[0] matches Ok(read) && read == *data,
        Serializer::<D>::items(&serializer, Seq::empty()).len() == 0,
        files@ == seq![file],
        file.name@ == next@,
        file.contents matches Ok(contents) && contents@.len() == 0,
        call_ensures(
            ReDoLog::<D, S>::new_with_snapshot::<T>,
            (path, max_size, serializer, start, selection.index, Some(Ok(bytes)), files),
            recovered,
        ),
    ensures
        selection.snapshot matches Some(name) && name@ == create@,
        selection.files@.len() == 1,
        selection.files@[0]@ == next@,
        *final(start) == *data,
        recovered matches Ok((log, open)) && {
            &&& log@.index == final(second)@.index
            &&& log@.current_size == 0
            &&& open matches OpenLog::Append(name) && name@ == next@
        },
{
    let i = old(first)@.index;
    let actions = action_views(begun@);
    assert(actions[0] == begun@[0]@);
    assert(actions[1] == begun@[1]@);
    assert(create@ == snapshot_file_name(i + 1));
    assert(next@ == log_file_name(i + 2));
    law_file_names_are_read_back((i + 1) as u64);
    law_file_names_are_read_back((i + 2) as u64);
    let (p, q) = places;
    assert(call_ensures(get_index_from_file, (&names@[p],), indices[p]));
    assert(call_ensures(get_index_from_file, (&names@[q],), indices[q]));
    assert(indices[p] == i + 1 && indices[q] == i + 2);
    law_last_snapshot_is_selected(names, indices, selection);
    let order = choose|order: Seq<int>| #[trigger]
        ranks(order, indices) && match selection.snapshot {
            None => {
                &&& selection.index == 0
                &&& are_behind(selection.files@, names@, order, 0)
            },
            Some(snapshot) => exists|at: int|
                {
                    &&& 0 <= at < order.len()
                    &&& begins_like_a_snapshot(snapshot@)
                    &&& snapshot == names@[#[trigger] order[at]]
                    &&& selection.index == indices[order[at]] + 1
                    &&& are_behind(selection.files@, names@, order, at + 1)
                },
        };
    lemma_file_name_begins(create@);
    lemma_file_name_begins(next@);
    let n = order.len() as int;
    lemma_order_covers(order, n, p);
    lemma_order_covers(order, n, q);
    let at_p = choose|k: int| 0 <= k < n && order[k] == p;
    let at_q = choose|k: int| 0 <= k < n && order[k] == q;
    // Only the two have an index above the others.
    assert(at_q == n - 1) by {
        if at_q < n - 1 {
            assert(indices[order[at_q]] <= indices[order[n - 1]]);
            assert(order[n - 1] != order[at_q]);
        }
    }
    assert(at_p == n - 2) by {
        if at_p < n - 2 {
            assert(indices[order[at_p]] <= indices[order[n - 2]]);
            assert(order[n - 2] != order[at_p]);
            assert(order[n - 2] != order[at_q]);
        }
    }
    assert(begins_like_a_snapshot(names@[order[at_p]]@));
    match selection.snapshot {
        None => {
            assert(!begins_like_a_snapshot(names@[order[at_p]]@));
        },
        Some(snapshot) => {
            let at = choose|at: int|
                {
                    &&& 0 <= at < order.len()
                    &&& begins_like_a_snapshot(snapshot@)
                    &&& snapshot == names@[#[trigger] order[at]]
                    &&& selection.index == indices[order[at]] + 1
                    &&& are_behind(selection.files@, names@, order, at + 1)
                };
            if at < n - 2 {
                assert(!begins_like_a_snapshot(names@[order[at_p]]@));
            }
            if at == n - 1 {
                assert(names@[order[at]]@ == next@);
            }
            assert(at == n - 2);
            assert(selection.files@ =~= seq![names@[order[n - 1]]]);
        },
    }
    let none = Seq::<D>::empty();
    let held = seq![none];
    assert(file.contents->Ok_0@ =~= Seq::<u8>::empty());
    assert(Serializer::<D>::items(&serializer, Seq::empty()) =~= no_error::<
        D,
        SerializerError<<S as Serializer<D>>::Error>,
    >(none));
    lemma_files_restored::<T, D, S>(&serializer, files@, held, *data);
    assert(held.drop_last() =~= Seq::empty());
    assert(in_a_row(held.drop_last()) =~= none);
    assert(in_a_row(held) =~= none);
    assert(read_views(files@).last() == files@.last()@);
}

proof fn lemma_order_covers(order: Seq<int>, count: int, place: int)
    requires
        is_order_of(order, count),
        0 <= place < count,
    ensures
        order.contains(place),
{
    let all = vstd::set_lib::set_int_range(0, count);
    vstd::set_lib::lemma_int_range(0, count);
    order.unique_seq_to_set();
    assert(order.to_set().subset_of(all)) by {
        assert forall|x: int| order.to_set().contains(x) implies all.contains(x) by {
            let i = choose|i: int| 0 <= i < order.len() && order[i] == x;
            assert(0 <= order[i] < count);
        }
    }
    vstd::set_lib::lemma_subset_equality(order.to_set(), all);
    assert(order.to_set().contains(place));
}

/// A log without any file begins with the file of its index, which is created.
pub proof fn law_empty_log_begins_with_its_index<D, S>(
    path: Vec<u8>,
    index: u64,
    max_size: u64,
    serializer: S,
    first: Vec<u8>,
    result: (ReDoLog<D, S>, OpenLog),
)
    requires
        call_ensures(ReDoLog::<D, S>::new_empty, (path, index, max_size, serializer), result),
        call_ensures(file_name_for_index, (index,), first),
    ensures
        goes_on(
            result,
            Seq::empty(),
            Seq::empty(),
            path@,
            max_size,
            serializer,
            0,
            index,
            first,
        ),
{
}

/// Whether each name has the index that `indices` says.
pub open spec fn have_indices(names: Seq<Vec<u8>>, indices: Seq<u64>) -> bool {
    &&& indices.len() == names.len()
    &&& forall|i: int|
        0 <= i < indices.len() ==> call_ensures(
            get_index_from_file,
            (&names[i],),
            #[trigger] indices[i],
        )
}

/// A log may be opened on any files that have an index in their names, whatever they
/// hold. It may be recovered from any snapshot but one without a value, and tried to be
/// recovered from that too.
pub proof fn law_log_may_be_opened<T, D: Transaction<T>, S>(
    path: Vec<u8>,
    files: Vec<LogRead>,
    index: u64,
    max_size: u64,
    serializer: S,
    data: &mut T,
    snapshot: Option<Result<Vec<u8>, std::io::Error>>,
    indices: Seq<u64>,
) where S: Serializer<D> + Serializer<T, Error = <S as Serializer<D>>::Error>
    requires
        have_indices(files@.map_values(|file: LogRead| file.name), indices),
    ensures
        call_requires(process_files::<T, D, S>, (&serializer, files, data)),
        call_requires(
            ReDoLog::<D, S>::new_from_files::<T>,
            (path, files, index, max_size, serializer, data),
        ),
        call_requires(ReDoLog::<D, S>::new::<T>, (path, max_size, serializer, data, files)),
        call_requires(
            ReDoLog::<D, S>::try_new_with_snapshot::<T>,
            (path, max_size, serializer, data, index, snapshot, files),
        ),
        (snapshot matches Some(Ok(bytes)) ==> Serializer::<T>::items(&serializer, bytes@).len()
            > 0) ==> call_requires(
            ReDoLog::<D, S>::new_with_snapshot::<T>,
            (path, max_size, serializer, data, index, snapshot, files),
        ),
{
    let names = files@.map_values(|file: LogRead| file.name);
    assert forall|i: int| 0 <= i < files@.len() implies index_in(
        (#[trigger] files@[i]).name@,
    ) is Some by {
        assert(call_ensures(get_index_from_file, (&names[i],), indices[i]));
    }
    let views = read_views(files@);
    assert forall|i: int| 0 <= i < views.len() implies index_in(
        (#[trigger] views[i]).name,
    ) is Some by {
        assert(index_in(files@[i].name@) is Some);
    }
    lemma_arranged(files@);
    let sorted = read_views(arranged(files@));
    assert forall|i: int| 0 <= i < sorted.len() implies index_in(
        (#[trigger] sorted[i]).name,
    ) is Some by {
        broadcast use vstd::seq_lib::group_to_multiset_ensures;

        let file = arranged(files@)[i];
        assert(arranged(files@).contains(file));
        assert(files@.to_multiset().count(file) > 0);
        assert(files@.contains(file));
        let k = choose|k: int| 0 <= k < files@.len() && files@[k] == file;
        assert(index_in(files@[k].name@) is Some);
    }
}

/// Files may be selected where each has an index, as long as a snapshot is not of the
/// largest one there is.
pub proof fn law_files_may_be_selected(names: Vec<Vec<u8>>, indices: Seq<u64>)
    requires
        have_indices(names@, indices),
        forall|i: int|
            0 <= i < indices.len() && begins_like_a_snapshot(names@[i]@) ==> #[trigger] indices[i]
                < u64::MAX,
    ensures
        call_requires(process_snapshots, (names,)),
{
    assert forall|i: int| 0 <= i < names@.len() implies index_in(#[trigger] names@[i]@) is Some by {
        assert(call_ensures(get_index_from_file, (&names@[i],), indices[i]));
    }
    let items = indexed(names@);
    let ranked = arranged(items);
    lemma_places(items);
    lemma_last_snapshot_place(ranked);
    let at = last_snapshot(ranked);
    if at >= 0 {
        let place = places(items)[at];
        assert(ranked[at] == items[place]);
        lemma_file_name_begins(names@[place]@);
        assert(call_ensures(get_index_from_file, (&names@[place],), indices[place]));
        assert(items[place].index == indices[place]);
    }
}

/// A write or a snapshot may be asked for as long as none is under way and the counters
/// are below the largest number. The log tells.
pub proof fn law_log_may_be_written<T, D, S: Serializer<T>>(
    log: &mut ReDoLog<D, S>,
    data: Vec<u8>,
    value: &T,
    outcome: Result<(), std::io::Error>,
    has_room: bool,
    files_left: u64,
    is_in_snapshot: bool,
)
    requires
        call_ensures(ReDoLog::<D, S>::has_room, (&*old(log),), has_room),
        call_ensures(ReDoLog::<D, S>::files_left, (&*old(log),), files_left),
        call_ensures(ReDoLog::<D, S>::is_in_snapshot, (&*old(log),), is_in_snapshot),
    ensures
        is_in_snapshot == old(log).in_snapshot(),
        files_left == u64::MAX - old(log)@.index,
        has_room <==> old(log)@.current_size < u64::MAX && (old(log)@.current_size + 1
            < old(log)@.max_size || old(log)@.index < u64::MAX),
        has_room && !is_in_snapshot ==> call_requires(
            ReDoLog::<D, S>::write_to_log,
            (log, data),
        ),
        files_left > 0 && !is_in_snapshot ==> call_requires(
            ReDoLog::<D, S>::snapshot::<T>,
            (log, value),
        ),
        is_in_snapshot && (outcome is Err || files_left > 0) ==> call_requires(
            ReDoLog::<D, S>::resume_snapshot,
            (log, outcome),
        ),
{
}

} // verus!
