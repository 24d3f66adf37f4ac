//! System prevalence: data that is kept in memory and changed by transactions only,
//! each of which is written to a redo log before it is executed. When the system
//! restarts, replaying the log restores the data.
//!
//! [`Prevayler`] and [`RedoLog`] say what has to be done with files; what comes of it is
//! handed back to them. The module [`redolog`] holds a log that can also begin with a
//! snapshot of the data, with the modules [`serializer`] and [`error`] that belong to it.
//! What the logs promise as a whole is proved in [`laws`] and [`snapshot_laws`]; what the
//! calls promise, over what they are given and what they give, in [`prevayler_laws`],
//! [`redolog_laws`], [`json_laws`] and [`name_laws`].
use vstd::prelude::*;

pub mod bytes;
pub mod error;
pub mod external;
pub mod framing;
pub mod json;
pub mod json_laws;
pub mod laws;
pub mod log;
pub mod name_laws;
pub mod names;
pub mod order;
pub mod prevayler;
pub mod prevayler_laws;
pub mod redolog;
pub mod redolog_laws;
pub mod serializer;
pub mod snapshot_laws;
pub mod transaction;

pub use crate::json::{JsonSerializeError, JsonSerializer, JsonSerializerStream, Serializer};
pub use crate::log::{RedoLog, RedoLogError};
pub use crate::prevayler::{Prevayler, PrevaylerBuilder, PrevaylerError};
pub use crate::transaction::Transaction;

verus! {

} // verus!
