//! The redo log: which files it consists of, what is replayed from them, and what
//! is done to write a transaction.
use vstd::prelude::*;

use crate::json::{LogText, Serializer};
use crate::names::{
    check_log_name, index_of_log, is_log_name, law_log_name_is_read_back, log_name, make_log_name,
    read_log_index,
};
use crate::order::{arrange, arranged, in_order, lemma_arranged};
use crate::transaction::Transaction;

verus! {

/// How many transactions a log file takes. When it holds as many, the next file
/// is started.
pub const LOG_LIMIT: usize = 2;

/// What went wrong with a redo log. `S` is the error of the serializer when it
/// writes, `D` when it reads.
#[derive(Debug)]
pub enum RedoLogError<S, D> {
    UnexpectedLogFile,
    IoError(std::io::Error),
    SerializeError(S),
    DeserializeError(D),
}

/// What a directory says of one of its entries.
pub struct DirEntry {
    pub name: Vec<u8>,
    /// Whether the entry is a regular file, or the fault of finding out.
    pub is_file: Result<bool, std::io::Error>,
}

/// The log files of a directory in the order in which they are listed, or the
/// first fault. An entry of another name is not asked whether it is a file.
pub open spec fn listed(listing: Seq<Result<DirEntry, std::io::Error>>) -> Result<
    Seq<Vec<u8>>,
    std::io::Error,
>
    decreases listing.len(),
{
    if listing.len() == 0 {
        Ok(Seq::empty())
    } else {
        match listed(listing.drop_last()) {
            Err(fault) => Err(fault),
            Ok(names) => match listing.last() {
                Err(fault) => Err(fault),
                Ok(entry) => if !is_log_name(entry.name@) {
                    Ok(names)
                } else {
                    match entry.is_file {
                        Err(fault) => Err(fault),
                        Ok(true) => Ok(names.push(entry.name)),
                        Ok(false) => Ok(names),
                    }
                },
            },
        }
    }
}

pub proof fn lemma_listed_stops(listing: Seq<Result<DirEntry, std::io::Error>>, at: int)
    requires
        0 <= at <= listing.len(),
        listed(listing.take(at)) is Err,
    ensures
        listed(listing) == listed(listing.take(at)),
    decreases listing.len() - at,
{
    if at < listing.len() {
        let longer = listing.take(at + 1);
        assert(longer.drop_last() =~= listing.take(at));
        lemma_listed_stops(listing, at + 1);
    } else {
        assert(listing.take(at) =~= listing);
    }
}

/// The names of the log files among the entries of a directory, in the order in
/// which they are replayed.
pub fn read_log_files(listing: Vec<Result<DirEntry, std::io::Error>>) -> (result: Result<
    Vec<Vec<u8>>,
    std::io::Error,
>)
    ensures
        match listed(listing@) {
            Ok(names) => {
                &&& result matches Ok(files)
                &&& files@ == arranged(names)
                &&& in_order(files@)
                &&& files@.to_multiset() == names.to_multiset()
                &&& forall|i: int| 0 <= i < files@.len() ==> is_log_name(#[trigger] files@[i]@)
            },
            Err(fault) => result == Err::<Vec<Vec<u8>>, _>(fault),
        },
{
    let mut names: Vec<Vec<u8>> = Vec::new();
    let ghost all = listing@;
    assert(all.take(0) =~= Seq::empty());
    for item in it: listing
        invariant
            it.seq() == all,
            listed(all.take(it.index() as int)) == Ok::<_, std::io::Error>(names@),
            forall|i: int| 0 <= i < names@.len() ==> is_log_name(#[trigger] names@[i]@),
    {
        let ghost n = it.index() as int;
        proof {
            assert(all.take(n + 1).drop_last() =~= all.take(n));
            if listed(all.take(n + 1)) is Err {
                lemma_listed_stops(all, n + 1);
            }
        }
        match item {
            Err(fault) => {
                return Err(fault);
            },
            Ok(entry) => {
                if check_log_name(entry.name.as_slice()) {
                    match entry.is_file {
                        Err(fault) => {
                            return Err(fault);
                        },
                        Ok(is_file) => {
                            if is_file {
                                names.push(entry.name);
                            }
                        },
                    }
                }
            },
        }
    }
    assert(all.take(all.len() as int) =~= all);
    proof {
        lemma_arranged(names@);
        assert forall|i: int| 0 <= i < names@.len() implies is_log_name(
            #[trigger] arranged(names@)[i]@,
        ) by {
            broadcast use vstd::seq_lib::group_to_multiset_ensures;

            let name = arranged(names@)[i];
            assert(arranged(names@).contains(name));
            assert(names@.to_multiset().count(name) > 0);
            assert(names@.contains(name));
        }
    }
    Ok(arrange(names))
}

/// A log file and what reading it gave, or the fault of opening it.
pub struct LogFileRead {
    pub name: Vec<u8>,
    pub text: Result<LogText, std::io::Error>,
}

/// `LogFileRead` as plain bytes.
pub struct FileView {
    pub name: Seq<u8>,
    pub text: Result<(Seq<u8>, Option<std::io::Error>), std::io::Error>,
}

impl View for LogFileRead {
    type V = FileView;

    open spec fn view(&self) -> FileView {
        FileView {
            name: self.name@,
            text: match self.text {
                Ok(text) => Ok((text.bytes@, text.fault)),
                Err(fault) => Err(fault),
            },
        }
    }
}

pub open spec fn views(files: Seq<LogFileRead>) -> Seq<FileView> {
    files.map_values(|file: LogFileRead| file@)
}

/// What a replay leaves: the data, how many transactions came from the last file,
/// and the error at which it stopped.
pub struct Replay<Target, S, D> {
    pub data: Target,
    pub n_transactions: int,
    pub error: Option<RedoLogError<S, D>>,
}

impl<Target, S, D> Replay<Target, S, D> {
    /// Whether the replay came to `data` without an error.
    pub open spec fn reached(self, data: Target, n_transactions: int) -> bool {
        &&& self.data == data
        &&& self.n_transactions == n_transactions
        &&& self.error is None
    }
}

/// The transactions of one file are executed one after the other, up to the first
/// that could not be read.
pub open spec fn replay_items<Target, T: Transaction<Target>, S, D>(
    items: Seq<Result<T, D>>,
    data: Target,
) -> Replay<Target, S, D>
    decreases items.len(),
{
    if items.len() == 0 {
        Replay { data, n_transactions: 0, error: None }
    } else {
        let before = replay_items::<Target, T, S, D>(items.drop_last(), data);
        if before.error is Some {
            before
        } else {
            match items.last() {
                Ok(transaction) => Replay {
                    data: transaction.after(before.data),
                    n_transactions: before.n_transactions + 1,
                    error: None,
                },
                Err(error) => Replay {
                    data: before.data,
                    n_transactions: before.n_transactions,
                    error: Some(RedoLogError::DeserializeError(error)),
                },
            }
        }
    }
}

/// The files of a log are replayed one after the other, up to the first error.
pub open spec fn replay<Target, T: Transaction<Target>, L: Serializer<T>>(
    serializer: &L,
    files: Seq<FileView>,
    data: Target,
) -> Replay<Target, L::SerializerError, L::DeserializeError>
    decreases files.len(),
{
    if files.len() == 0 {
        Replay { data, n_transactions: 0, error: None }
    } else {
        let before = replay::<Target, T, L>(serializer, files.drop_last(), data);
        if before.error is Some {
            before
        } else {
            match files.last().text {
                Err(fault) => Replay {
                    data: before.data,
                    n_transactions: 0,
                    error: Some(RedoLogError::IoError(fault)),
                },
                Ok((bytes, fault)) => replay_items(
                    serializer.transactions(bytes, fault),
                    before.data,
                ),
            }
        }
    }
}

pub proof fn lemma_replay_items_stops<Target, T: Transaction<Target>, S, D>(
    items: Seq<Result<T, D>>,
    data: Target,
    at: int,
)
    requires
        0 <= at <= items.len(),
        replay_items::<Target, T, S, D>(items.take(at), data).error is Some,
    ensures
        replay_items::<Target, T, S, D>(items, data) == replay_items::<Target, T, S, D>(
            items.take(at),
            data,
        ),
    decreases items.len() - at,
{
    if at < items.len() {
        assert(items.take(at + 1).drop_last() =~= items.take(at));
        lemma_replay_items_stops::<Target, T, S, D>(items, data, at + 1);
    } else {
        assert(items.take(at) =~= items);
    }
}

pub proof fn lemma_replay_stops<Target, T: Transaction<Target>, L: Serializer<T>>(
    serializer: &L,
    files: Seq<FileView>,
    data: Target,
    at: int,
)
    requires
        0 <= at <= files.len(),
        replay::<Target, T, L>(serializer, files.take(at), data).error is Some,
    ensures
        replay::<Target, T, L>(serializer, files, data) == replay::<Target, T, L>(
            serializer,
            files.take(at),
            data,
        ),
    decreases files.len() - at,
{
    if at < files.len() {
        assert(files.take(at + 1).drop_last() =~= files.take(at));
        lemma_replay_stops::<Target, T, L>(serializer, files, data, at + 1);
    } else {
        assert(files.take(at) =~= files);
    }
}

/// The file that a log goes on with: its last, or the very first where it has
/// none.
pub open spec fn last_log(names: Seq<Seq<u8>>) -> Seq<u8> {
    if names.len() == 0 {
        log_name(0)
    } else {
        names.last()
    }
}

/// The file that has to be opened for appending, and created where it is not
/// there, to go on with the log that consists of `names`.
pub fn last_file_to_open(names: &Vec<Vec<u8>>) -> (result: Vec<u8>)
    ensures
        result@ == last_log(names@.map_values(|name: Vec<u8>| name@)),
{
    let n: usize = names.len();
    if n == 0 {
        make_log_name(0)
    } else {
        names[n - 1].clone()
    }
}

struct LogFile {
    file_index: usize,
    n_transactions: usize,
}

/// How far the writing of a transaction has come: what is being done for it.
pub enum Stage {
    Append,
    Sync,
    Create,
}

/// A redo log that is open for appending. One transaction at a time is written
/// to it.
pub struct RedoLog {
    file: LogFile,
    path: Vec<u8>,
    stage: Option<Stage>,
}

/// A redo log: the directory of its files, the index of the file that is written,
/// and how many transactions that file holds.
#[verifier::ext_equal]
pub struct LogView {
    pub path: Seq<u8>,
    pub file_index: int,
    pub n_transactions: int,
}

impl View for RedoLog {
    type V = LogView;

    closed spec fn view(&self) -> LogView {
        LogView {
            path: self.path@,
            file_index: self.file.file_index as int,
            n_transactions: self.file.n_transactions as int,
        }
    }
}

/// What opening a log gives once its files were replayed: the fault of opening
/// the last file, or the log, where that file is named like one.
pub open spec fn opened_log<Target, S, D>(
    replayed: Replay<Target, S, D>,
    last: Seq<u8>,
    path: Seq<u8>,
    opened: Result<(), std::io::Error>,
) -> Result<LogView, RedoLogError<S, D>> {
    match replayed.error {
        Some(error) => Err(error),
        None => match opened {
            Err(fault) => Err(RedoLogError::IoError(fault)),
            Ok(_) => match index_of_log(last) {
                None => Err(RedoLogError::UnexpectedLogFile),
                Some(index) => Ok(
                    LogView {
                        path,
                        file_index: index,
                        n_transactions: replayed.n_transactions,
                    },
                ),
            },
        },
    }
}

impl RedoLog {
    /// What is being done for the transaction that is being written, where one is.
    pub closed spec fn stage(&self) -> Option<Stage> {
        self.stage
    }

    /// Replays `files`, the log files of the directory `path` in order, on `data`,
    /// and goes on with the last of them. `opened` is what opening that file for
    /// appending came to.
    pub fn new<Target, Transactions: Transaction<Target>, LogSerializer: Serializer<Transactions>>(
        data: &mut Target,
        path: Vec<u8>,
        files: Vec<LogFileRead>,
        opened: Result<(), std::io::Error>,
        serializer: &LogSerializer,
    ) -> (result: Result<
        Self,
        RedoLogError<LogSerializer::SerializerError, LogSerializer::DeserializeError>,
    >)
        requires
            files@.len() > 0 ==> is_log_name(files@.last().name@),
        ensures
            ({
                let replayed = replay::<Target, Transactions, LogSerializer>(
                    serializer,
                    views(files@),
                    *old(data),
                );
                let last = last_log(files@.map_values(|file: LogFileRead| file.name@));
                &&& *final(data) == replayed.data
                &&& match opened_log(replayed, last, path@, opened) {
                    Ok(log) => result matches Ok(made) && made@ == log && made.stage() is None,
                    Err(error) => result == Err::<Self, _>(error),
                }
            }),
    {
        let ghost all = views(files@);
        let n: usize = files.len();
        let last: Vec<u8> = if n == 0 {
            proof {
                law_log_name_is_read_back(0);
            }
            make_log_name(0)
        } else {
            files[n - 1].name.clone()
        };
        let mut n_transactions: usize = 0;
        assert(all.take(0) =~= Seq::empty());
        for file in it: files
            invariant
                views(it.seq()) == all,
                replay::<Target, Transactions, LogSerializer>(
                    serializer,
                    all.take(it.index() as int),
                    *old(data),
                ).reached(*data, n_transactions as int),
        {
            let ghost k = it.index() as int;
            let ghost before = *data;
            proof {
                assert(all[k] == file@);
                assert(all.take(k + 1).drop_last() =~= all.take(k));
                assert(all.take(k + 1).last() == all[k]);
            }
            n_transactions = 0;
            let text: LogText = match file.text {
                Ok(text) => text,
                Err(fault) => {
                    proof {
                        lemma_replay_stops::<Target, Transactions, LogSerializer>(
                            serializer,
                            all,
                            *old(data),
                            k + 1,
                        );
                    }
                    return Err(RedoLogError::IoError(fault));
                },
            };
            let items = serializer.desserialize(text);
            let count: usize = items.len();
            let ghost read = items@;
            assert(read.take(0) =~= Seq::empty());
            for item in inner: items
                invariant
                    inner.seq() == read,
                    0 <= k < all.len(),
                    n_transactions == inner.index(),
                    read.len() == count,
                    all == views(files@),
                    replay_items::<
                        Target,
                        Transactions,
                        LogSerializer::SerializerError,
                        LogSerializer::DeserializeError,
                    >(read.take(inner.index() as int), before).reached(
                        *data,
                        n_transactions as int,
                    ),
                    replay::<Target, Transactions, LogSerializer>(
                        serializer,
                        all.take(k + 1),
                        *old(data),
                    ) == replay_items::<
                        Target,
                        Transactions,
                        LogSerializer::SerializerError,
                        LogSerializer::DeserializeError,
                    >(read, before),
            {
                let ghost m = inner.index() as int;
                assert(read.take(m + 1).drop_last() =~= read.take(m));
                assert(read.take(m + 1).last() == item);
                match item {
                    Ok(transaction) => {
                        let _output = transaction.execute(data);
                        n_transactions = n_transactions + 1;
                    },
                    Err(error) => {
                        proof {
                            lemma_replay_items_stops::<
                                Target,
                                Transactions,
                                LogSerializer::SerializerError,
                                LogSerializer::DeserializeError,
                            >(read, before, m + 1);
                            lemma_replay_stops::<Target, Transactions, LogSerializer>(
                                serializer,
                                all,
                                *old(data),
                                k + 1,
                            );
                        }
                        return Err(RedoLogError::DeserializeError(error));
                    },
                }
            }
            assert(read.take(read.len() as int) =~= read);
        }
        assert(all.take(all.len() as int) =~= all);
        match opened {
            Err(fault) => Err(RedoLogError::IoError(fault)),
            Ok(_) => match read_log_index(last.as_slice()) {
                None => Err(RedoLogError::UnexpectedLogFile),
                Some(file_index) => Ok(
                    RedoLog { file: LogFile { file_index, n_transactions }, path, stage: None },
                ),
            },
        }
    }
}

/// What has to be done for a log.
pub enum LogAction {
    /// Append these bytes to the file that is open.
    Append(Vec<u8>),
    /// Have the file that is open written through to the disk.
    Sync,
    /// Create a file of this name in the directory of the log, and go on with it.
    Create(Vec<u8>),
}

/// `LogAction` as plain bytes.
pub enum ActionView {
    Append(Seq<u8>),
    Sync,
    Create(Seq<u8>),
}

impl View for LogAction {
    type V = ActionView;

    open spec fn view(&self) -> ActionView {
        match *self {
            LogAction::Append(bytes) => ActionView::Append(bytes@),
            LogAction::Sync => ActionView::Sync,
            LogAction::Create(name) => ActionView::Create(name@),
        }
    }
}

impl ActionView {
    /// The stage of a writing for which this has to be done.
    pub open spec fn stage(self) -> Stage {
        match self {
            ActionView::Append(_) => Stage::Append,
            ActionView::Sync => Stage::Sync,
            ActionView::Create(_) => Stage::Create,
        }
    }
}

/// How the writing of a transaction goes on: there is something to do, or it is
/// over, with the number of transactions in the file that is now open.
pub enum LogStep<S, D> {
    Perform(LogAction),
    Done(Result<usize, RedoLogError<S, D>>),
}

/// `LogStep` as plain values.
pub enum StepView<S, D> {
    Perform(ActionView),
    Done(Result<int, RedoLogError<S, D>>),
}

impl<S, D> View for LogStep<S, D> {
    type V = StepView<S, D>;

    open spec fn view(&self) -> StepView<S, D> {
        match *self {
            LogStep::Perform(action) => StepView::Perform(action@),
            LogStep::Done(Ok(n_transactions)) => StepView::Done(Ok(n_transactions as int)),
            LogStep::Done(Err(error)) => StepView::Done(Err(error)),
        }
    }
}

impl<S, D> StepView<S, D> {
    /// The stage that a writing is in after this step, where it is not over.
    pub open spec fn stage(self) -> Option<Stage> {
        match self {
            StepView::Perform(action) => Some(action.stage()),
            StepView::Done(_) => None,
        }
    }
}

impl LogView {
    /// Whether the counters of the log can go up.
    pub open spec fn has_room(self) -> bool {
        &&& self.file_index < usize::MAX
        &&& self.n_transactions < usize::MAX
    }

    /// Whether the counters can go up that go up when what is done at `stage` is
    /// done.
    pub open spec fn has_room_after(self, stage: Stage) -> bool {
        match stage {
            Stage::Append => true,
            Stage::Sync => {
                &&& self.n_transactions < usize::MAX
                &&& self.n_transactions + 1 >= LOG_LIMIT ==> self.file_index < usize::MAX
            },
            Stage::Create => self.file_index < usize::MAX,
        }
    }
}

/// The first step of writing `transaction`: its encoding is appended.
pub open spec fn first_step<T, L: Serializer<T>>(serializer: &L, transaction: T) -> StepView<
    L::SerializerError,
    L::DeserializeError,
> {
    match serializer.encoded(transaction) {
        Ok(record) => StepView::Perform(ActionView::Append(record)),
        Err(error) => StepView::Done(Err(RedoLogError::SerializeError(error))),
    }
}

/// The log and the step that follow when what was done at `stage` came to
/// `outcome`. A record that was appended is synced; one that was synced is counted,
/// and fills the file or not; a file that is full is followed by the next. A
/// failure ends the writing.
pub open spec fn next_step<T, L: Serializer<T>>(
    log: LogView,
    serializer: &L,
    stage: Stage,
    outcome: Result<(), std::io::Error>,
) -> (LogView, StepView<L::SerializerError, L::DeserializeError>) {
    match (stage, outcome) {
        (Stage::Append, Ok(_)) => (log, StepView::Perform(ActionView::Sync)),
        (Stage::Append, Err(fault)) => (
            log,
            StepView::Done(Err(RedoLogError::SerializeError(serializer.write_fault(fault)))),
        ),
        (Stage::Sync, Ok(_)) => {
            let counted = LogView { n_transactions: log.n_transactions + 1, ..log };
            if counted.n_transactions >= LOG_LIMIT {
                (counted, StepView::Perform(ActionView::Create(log_name(log.file_index + 1))))
            } else {
                (counted, StepView::Done(Ok(counted.n_transactions)))
            }
        },
        (Stage::Sync, Err(fault)) => (log, StepView::Done(Err(RedoLogError::IoError(fault)))),
        (Stage::Create, Ok(_)) => (
            LogView { file_index: log.file_index + 1, n_transactions: 0, ..log },
            StepView::Done(Ok(0)),
        ),
        (Stage::Create, Err(fault)) => (log, StepView::Done(Err(RedoLogError::IoError(fault)))),
    }
}

impl RedoLog {
    /// Whether the counters of the log can go up.
    pub fn has_room(&self) -> (result: bool)
        ensures
            result == self@.has_room(),
    {
        self.file.file_index < usize::MAX && self.file.n_transactions < usize::MAX
    }

    /// Begins to write `transaction` to the log. A writing that is not over is given
    /// up.
    pub fn write_transaction_log<T, LogSerializer: Serializer<T>>(
        &mut self,
        serializer: &LogSerializer,
        transaction: &T,
    ) -> (result: LogStep<LogSerializer::SerializerError, LogSerializer::DeserializeError>)
        ensures
            result@ == first_step(serializer, *transaction),
            final(self)@ == old(self)@,
            final(self).stage() == result@.stage(),
    {
        match serializer.serialize(transaction) {
            Ok(record) => {
                self.stage = Some(Stage::Append);
                LogStep::Perform(LogAction::Append(record))
            },
            Err(error) => {
                self.stage = None;
                LogStep::Done(Err(RedoLogError::SerializeError(error)))
            },
        }
    }

    /// Goes on with the writing that has begun, after what had to be done came to
    /// `outcome`.
    pub fn resume<T, LogSerializer: Serializer<T>>(
        &mut self,
        serializer: &LogSerializer,
        outcome: Result<(), std::io::Error>,
    ) -> (result: LogStep<LogSerializer::SerializerError, LogSerializer::DeserializeError>)
        requires
            old(self).stage() matches Some(stage) && old(self)@.has_room_after(stage),
        ensures
            (final(self)@, result@) == next_step::<T, LogSerializer>(
                old(self)@,
                serializer,
                old(self).stage()->Some_0,
                outcome,
            ),
            final(self).stage() == result@.stage(),
    {
        match (self.stage.take().unwrap(), outcome) {
            (Stage::Append, Ok(_)) => {
                self.stage = Some(Stage::Sync);
                LogStep::Perform(LogAction::Sync)
            },
            (Stage::Append, Err(fault)) => LogStep::Done(
                Err(RedoLogError::SerializeError(serializer.write_failed(fault))),
            ),
            (Stage::Sync, Ok(_)) => {
                self.file.n_transactions = self.file.n_transactions + 1;
                if self.file.n_transactions >= LOG_LIMIT {
                    self.stage = Some(Stage::Create);
                    LogStep::Perform(LogAction::Create(make_log_name(self.file.file_index + 1)))
                } else {
                    LogStep::Done(Ok(self.file.n_transactions))
                }
            },
            (Stage::Create, Ok(_)) => {
                self.file = LogFile { file_index: self.file.file_index + 1, n_transactions: 0 };
                LogStep::Done(Ok(0))
            },
            (_, Err(fault)) => LogStep::Done(Err(RedoLogError::IoError(fault))),
        }
    }
}

} // verus!
