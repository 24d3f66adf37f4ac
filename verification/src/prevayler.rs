//! The prevailed data and the log that restores it.
use vstd::prelude::*;
use core::marker::PhantomData;

use crate::json::Serializer;
use crate::log::{
    first_step, last_log, next_step, opened_log, replay, views, LogAction, LogFileRead, LogStep,
    LogView, RedoLog, RedoLogError, Stage, StepView,
};
use crate::names::is_log_name;
use crate::transaction::Transaction;

verus! {

/// What went wrong with a `Prevayler`.
#[derive(Debug)]
pub enum PrevaylerError<S, D> {
    UnexpectedLogFile,
    IoError(std::io::Error),
    SerializationError(S),
    DeserializationError(D),
}

impl<S, D> From<std::io::Error> for PrevaylerError<S, D> {
    fn from(error: std::io::Error) -> (result: Self) {
        PrevaylerError::IoError(error)
    }
}

impl<S, D> vstd::std_specs::convert::FromSpecImpl<std::io::Error> for PrevaylerError<S, D> {
    open spec fn obeys_from_spec() -> bool {
        true
    }

    open spec fn from_spec(error: std::io::Error) -> Self {
        PrevaylerError::IoError(error)
    }
}

impl<S, D> From<RedoLogError<S, D>> for PrevaylerError<S, D> {
    fn from(error: RedoLogError<S, D>) -> (result: Self) {
        match error {
            RedoLogError::UnexpectedLogFile => PrevaylerError::UnexpectedLogFile,
            RedoLogError::IoError(error) => PrevaylerError::IoError(error),
            RedoLogError::SerializeError(error) => PrevaylerError::SerializationError(error),
            RedoLogError::DeserializeError(error) => PrevaylerError::DeserializationError(error),
        }
    }
}

impl<S, D> vstd::std_specs::convert::FromSpecImpl<RedoLogError<S, D>> for PrevaylerError<S, D> {
    open spec fn obeys_from_spec() -> bool {
        true
    }

    open spec fn from_spec(error: RedoLogError<S, D>) -> Self {
        match error {
            RedoLogError::UnexpectedLogFile => PrevaylerError::UnexpectedLogFile,
            RedoLogError::IoError(error) => PrevaylerError::IoError(error),
            RedoLogError::SerializeError(error) => PrevaylerError::SerializationError(error),
            RedoLogError::DeserializeError(error) => PrevaylerError::DeserializationError(error),
        }
    }
}

/// The error of a `Prevayler` that a redo log error becomes.
pub open spec fn raised<S, D>(error: RedoLogError<S, D>) -> PrevaylerError<S, D> {
    <PrevaylerError<S, D> as vstd::std_specs::convert::FromSpec<RedoLogError<S, D>>>::from_spec(
        error,
    )
}

/// Data that changes by transactions only, each of which is in the log before it
/// is executed. One transaction at a time is under way.
pub struct Prevayler<Data, Transactions, LogSerializer> {
    data: Data,
    redo_log: RedoLog,
    serializer: LogSerializer,
    path: Vec<u8>,
    transaction: Option<Transactions>,
}

/// How an execution goes on: there is something to do for the log, or it is over.
pub enum ExecuteStep<Output, S, D> {
    Perform(LogAction),
    Done(Result<Output, PrevaylerError<S, D>>),
}

/// A transaction that is under way, and what is being done for it.
pub struct Pending<T> {
    pub transaction: T,
    pub stage: Stage,
}

/// What is under way after `step` of writing `transaction`.
pub open spec fn pending_after<T, S, D>(transaction: T, step: StepView<S, D>) -> Option<
    Pending<T>,
> {
    match step.stage() {
        Some(stage) => Some(Pending { transaction, stage }),
        None => None,
    }
}

/// Whether `result` begins to write `transaction`.
pub open spec fn begins<Data, T: Transaction<Data>, L: Serializer<T>>(
    serializer: &L,
    transaction: T,
    result: ExecuteStep<T::Output, L::SerializerError, L::DeserializeError>,
) -> bool {
    match first_step(serializer, transaction) {
        StepView::Perform(action) => result matches ExecuteStep::Perform(made) && made@ == action,
        StepView::Done(Err(error)) => result == ExecuteStep::<
            T::Output,
            L::SerializerError,
            L::DeserializeError,
        >::Done(Err(raised(error))),
        StepView::Done(Ok(_)) => false,
    }
}

impl<Data, Transactions, LogSerializer> Prevayler<Data, Transactions, LogSerializer> {
    pub closed spec fn data(self) -> Data {
        self.data
    }

    pub closed spec fn log(self) -> LogView {
        self.redo_log@
    }

    pub closed spec fn serializer(self) -> LogSerializer {
        self.serializer
    }

    pub closed spec fn directory(self) -> Seq<u8> {
        self.path@
    }

    /// The transaction that is under way, where one is.
    pub closed spec fn pending(self) -> Option<Pending<Transactions>> {
        match (self.transaction, self.redo_log.stage()) {
            (Some(transaction), Some(stage)) => Some(Pending { transaction, stage }),
            _ => None,
        }
    }

    /// The data as it is now.
    pub fn query(&self) -> (result: &Data)
        ensures
            *result == self.data(),
    {
        &self.data
    }

    /// Whether the counters of the log can go up.
    pub fn has_room(&self) -> (result: bool)
        ensures
            result == self.log().has_room(),
    {
        self.redo_log.has_room()
    }
}

/// Whether `result` is what replaying `files` on `data` comes to.
pub open spec fn restored<Data, T: Transaction<Data>, L: Serializer<T>>(
    data: Data,
    path: Seq<u8>,
    files: Seq<LogFileRead>,
    opened: Result<(), std::io::Error>,
    serializer: L,
    result: Result<
        Prevayler<Data, T, L>,
        PrevaylerError<L::SerializerError, L::DeserializeError>,
    >,
) -> bool {
    let replayed = replay::<Data, T, L>(&serializer, views(files), data);
    let last = last_log(files.map_values(|file: LogFileRead| file.name@));
    match opened_log(replayed, last, path, opened) {
        Ok(log) => {
            &&& result matches Ok(made)
            &&& made.data() == replayed.data
            &&& made.log() == log
            &&& made.serializer() == serializer
            &&& made.directory() == path
            &&& made.pending() is None
        },
        Err(error) => result == Err::<
            Prevayler<Data, T, L>,
            PrevaylerError<L::SerializerError, L::DeserializeError>,
        >(raised(error)),
    }
}

impl<Data, Transactions, LogSerializer> Prevayler<Data, Transactions, LogSerializer> where
    LogSerializer: Serializer<Transactions>,
    Transactions: Transaction<Data>,
 {
    /// Restores the data from the log: `files` are the log files of the directory
    /// `path` in order, and are replayed on `data`. `opened` is what opening the
    /// last of them for appending came to.
    pub fn new(
        data: Data,
        path: Vec<u8>,
        files: Vec<LogFileRead>,
        opened: Result<(), std::io::Error>,
        serializer: LogSerializer,
    ) -> (result: Result<
        Self,
        PrevaylerError<LogSerializer::SerializerError, LogSerializer::DeserializeError>,
    >)
        requires
            files@.len() > 0 ==> is_log_name(files@.last().name@),
        ensures
            restored(data, path@, files@, opened, serializer, result),
    {
        let mut data = data;
        let log_path: Vec<u8> = path.clone();
        assert(log_path@ =~= path@);
        match RedoLog::new::<Data, Transactions, LogSerializer>(
            &mut data,
            log_path,
            files,
            opened,
            &serializer,
        ) {
            Ok(redo_log) => Ok(
                Prevayler { data, redo_log, serializer, path, transaction: None },
            ),
            Err(error) => Err(PrevaylerError::from(error)),
        }
    }

    /// Begins to execute a transaction: it has to be in the log first. One that is
    /// under way is given up, and not executed.
    pub fn execute<X: Into<Transactions>>(&mut self, transaction: X) -> (result: ExecuteStep<
        Transactions::Output,
        LogSerializer::SerializerError,
        LogSerializer::DeserializeError,
    >)
        ensures
            final(self).data() == old(self).data(),
            final(self).log() == old(self).log(),
            final(self).serializer() == old(self).serializer(),
            final(self).directory() == old(self).directory(),
            exists|converted: Transactions|
                {
                    &&& call_ensures(X::into, (transaction,), converted)
                    &&& #[trigger] begins::<Data, Transactions, LogSerializer>(
                        &old(self).serializer(),
                        converted,
                        result,
                    )
                    &&& final(self).pending() == pending_after(
                        converted,
                        first_step(&old(self).serializer(), converted),
                    )
                },
    {
        let converted: Transactions = transaction.into();
        let ghost given = converted;
        let result = match self.redo_log.write_transaction_log(&self.serializer, &converted) {
            LogStep::Perform(action) => ExecuteStep::Perform(action),
            LogStep::Done(Err(error)) => ExecuteStep::Done(Err(PrevaylerError::from(error))),
            LogStep::Done(Ok(_)) => {
                assert(false);
                ExecuteStep::Done(Err(PrevaylerError::UnexpectedLogFile))
            },
        };
        self.transaction = Some(converted);
        assert(begins::<Data, Transactions, LogSerializer>(
            &old(self).serializer(),
            given,
            result,
        ));
        result
    }

    /// Begins to execute a transaction as `execute` does. That the log file holds
    /// `limit` transactions or more makes no difference.
    pub fn execute_with_snapshot<X: Into<Transactions>>(
        &mut self,
        transaction: X,
        limit: usize,
    ) -> (result: ExecuteStep<
        Transactions::Output,
        LogSerializer::SerializerError,
        LogSerializer::DeserializeError,
    >)
        ensures
            final(self).data() == old(self).data(),
            final(self).log() == old(self).log(),
            final(self).serializer() == old(self).serializer(),
            final(self).directory() == old(self).directory(),
            exists|converted: Transactions|
                {
                    &&& call_ensures(X::into, (transaction,), converted)
                    &&& #[trigger] begins::<Data, Transactions, LogSerializer>(
                        &old(self).serializer(),
                        converted,
                        result,
                    )
                    &&& final(self).pending() == pending_after(
                        converted,
                        first_step(&old(self).serializer(), converted),
                    )
                },
    {
        self.execute(transaction)
    }

    /// Goes on with the execution that is under way, after what had to be done for
    /// the log came to `outcome`. The transaction is executed when, and only when,
    /// all that was to be done for the log is done.
    pub fn resume(&mut self, outcome: Result<(), std::io::Error>) -> (result: ExecuteStep<
        Transactions::Output,
        LogSerializer::SerializerError,
        LogSerializer::DeserializeError,
    >)
        requires
            old(self).pending() matches Some(pending) && old(self).log().has_room_after(
                pending.stage,
            ),
        ensures
            ({
                let pending = old(self).pending()->Some_0;
                let (log, step) = next_step::<Transactions, LogSerializer>(
                    old(self).log(),
                    &old(self).serializer(),
                    pending.stage,
                    outcome,
                );
                let transaction = pending.transaction;
                let before = old(self).data();
                &&& final(self).log() == log
                &&& final(self).serializer() == old(self).serializer()
                &&& final(self).directory() == old(self).directory()
                &&& final(self).pending() == pending_after(transaction, step)
                &&& match step {
                    StepView::Perform(action) => {
                        &&& final(self).data() == before
                        &&& result matches ExecuteStep::Perform(made)
                        &&& made@ == action
                    },
                    StepView::Done(Ok(_)) => {
                        &&& final(self).data() == transaction.after(before)
                        &&& result == ExecuteStep::<
                            Transactions::Output,
                            LogSerializer::SerializerError,
                            LogSerializer::DeserializeError,
                        >::Done(Ok(transaction.output(before)))
                    },
                    StepView::Done(Err(error)) => {
                        &&& final(self).data() == before
                        &&& result == ExecuteStep::<
                            Transactions::Output,
                            LogSerializer::SerializerError,
                            LogSerializer::DeserializeError,
                        >::Done(Err(raised(error)))
                    },
                }
            }),
    {
        let transaction: Transactions = self.transaction.take().unwrap();
        let step = self.redo_log.resume::<Transactions, LogSerializer>(&self.serializer, outcome);
        match step {
            LogStep::Perform(action) => {
                self.transaction = Some(transaction);
                ExecuteStep::Perform(action)
            },
            LogStep::Done(Ok(_)) => ExecuteStep::Done(Ok(transaction.execute(&mut self.data))),
            LogStep::Done(Err(error)) => ExecuteStep::Done(Err(PrevaylerError::from(error))),
        }
    }
}

/// Collects what a `Prevayler` is made of.
pub struct PrevaylerBuilder<Transactions, Data, LogSerializer> {
    path: Option<Vec<u8>>,
    serializer: Option<LogSerializer>,
    data: Data,
    _transactions: PhantomData<Transactions>,
}

/// `.`: the directory of the log where none is given.
pub open spec fn current_directory() -> Seq<u8> {
    seq![0x2eu8]
}

impl<Transactions, Data, LogSerializer> PrevaylerBuilder<Transactions, Data, LogSerializer> {
    /// The directory that was given.
    pub closed spec fn given_path(self) -> Option<Seq<u8>> {
        match self.path {
            Some(path) => Some(path@),
            None => None,
        }
    }

    /// The serializer that was given.
    pub closed spec fn given_serializer(self) -> Option<LogSerializer> {
        self.serializer
    }

    /// The data that the log is replayed on.
    pub closed spec fn given_data(self) -> Data {
        self.data
    }

    /// The directory of the log: the one that was given, or the current one.
    pub open spec fn chosen_path(self) -> Seq<u8> {
        match self.given_path() {
            Some(path) => path,
            None => current_directory(),
        }
    }

    pub fn create(data: Data) -> (result: Self)
        ensures
            result.given_path() is None,
            result.given_serializer() is None,
            result.given_data() == data,
    {
        PrevaylerBuilder { path: None, serializer: None, data, _transactions: PhantomData {  } }
    }

    pub fn with_path(self, path: Vec<u8>) -> (result: Self)
        ensures
            result.given_path() == Some(path@),
            result.given_serializer() == self.given_serializer(),
            result.given_data() == self.given_data(),
    {
        PrevaylerBuilder { path: Some(path), ..self }
    }

    pub fn with_serializer(self, serializer: LogSerializer) -> (result: Self) where
        LogSerializer: Serializer<Transactions>,

        ensures
            result.given_path() == self.given_path(),
            result.given_serializer() == Some(serializer),
            result.given_data() == self.given_data(),
    {
        PrevaylerBuilder { serializer: Some(serializer), ..self }
    }

    /// The directory that the log files have to be read from.
    pub fn directory(&self) -> (result: Vec<u8>)
        ensures
            result@ == self.chosen_path(),
    {
        match &self.path {
            Some(path) => path.clone(),
            None => vec![0x2eu8],
        }
    }

    /// Makes the `Prevayler`. `files` are the log files of the directory in order,
    /// and `opened` is what opening the last of them for appending came to.
    pub fn build(self, files: Vec<LogFileRead>, opened: Result<(), std::io::Error>) -> (result:
        Result<
            Prevayler<Data, Transactions, LogSerializer>,
            PrevaylerError<LogSerializer::SerializerError, LogSerializer::DeserializeError>,
        >) where
        Transactions: Transaction<Data>,
        LogSerializer: Serializer<Transactions> + Default,

        requires
            files@.len() > 0 ==> is_log_name(files@.last().name@),
        ensures
            exists|serializer: LogSerializer|
                {
                    &&& match self.given_serializer() {
                        Some(given) => serializer == given,
                        None => call_ensures(LogSerializer::default, (), serializer),
                    }
                    &&& #[trigger] restored(
                        self.given_data(),
                        self.chosen_path(),
                        files@,
                        opened,
                        serializer,
                        result,
                    )
                },
    {
        let path: Vec<u8> = self.directory();
        let serializer: LogSerializer = self.serializer.unwrap_or_default();
        let result = Prevayler::new(self.data, path, files, opened, serializer);
        assert(restored(
            self.given_data(),
            self.chosen_path(),
            files@,
            opened,
            serializer,
            result,
        ));
        result
    }
}

} // verus!
