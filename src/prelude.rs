//! The items most callers need, for a glob import.
pub use crate::error::Error;
pub use crate::filter::{filter, Filter};
pub use crate::flatten::{Flatten, Flattener};
pub use crate::ignore::Ignore;
pub use crate::matches::{Match, Matchable};
pub use crate::value::{Number, ObjectMap, Value};
