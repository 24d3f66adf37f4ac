//! The errors of a redo log with snapshots.
use vstd::prelude::*;

use crate::serializer::SerializerError;

verus! {

pub type PrevaylerResult<T, E> = Result<T, PrevaylerError<E>>;

/// What went wrong with a redo log: a file, or a value that the serializer could not
/// write or read.
#[derive(Debug)]
pub enum PrevaylerError<E> {
    IOError(std::io::Error),
    SerializationError(SerializerError<E>),
}

impl<E> From<std::io::Error> for PrevaylerError<E> {
    fn from(error: std::io::Error) -> (result: Self) {
        PrevaylerError::IOError(error)
    }
}

impl<E> vstd::std_specs::convert::FromSpecImpl<std::io::Error> for PrevaylerError<E> {
    open spec fn obeys_from_spec() -> bool {
        true
    }

    open spec fn from_spec(error: std::io::Error) -> Self {
        PrevaylerError::IOError(error)
    }
}

impl<E> From<SerializerError<E>> for PrevaylerError<E> {
    fn from(error: SerializerError<E>) -> (result: Self) {
        PrevaylerError::SerializationError(error)
    }
}

impl<E> vstd::std_specs::convert::FromSpecImpl<SerializerError<E>> for PrevaylerError<E> {
    open spec fn obeys_from_spec() -> bool {
        true
    }

    open spec fn from_spec(error: SerializerError<E>) -> Self {
        PrevaylerError::SerializationError(error)
    }
}

} // verus!
