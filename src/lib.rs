//! Composable transformations over a JSON-like document tree.
//!
//! A [`Value`] is a tree of nulls, booleans, numbers, strings, arrays and
//! objects. A [`Filter`] consumes one such tree and produces a result:
//! [`Flatten`] collapses nesting into delimited path keys, [`Ignore`] prunes
//! named keys at every depth, and [`Match`] collects every value found under a
//! given key, converted to a caller-chosen type.
pub mod error;
pub mod filter;
pub mod flatten;
pub mod ignore;
pub mod matches;
pub mod prelude;
pub mod value;

pub use error::Error;
pub use filter::{filter, Filter};
pub use flatten::{Flatten, Flattener};
pub use ignore::Ignore;
pub use matches::{Match, Matchable};
pub use value::{Json, Number, ObjectMap, Value};
