//! Queries over an in-memory document tree with a small selector language:
//! universal, tag, id and class atoms, compounds with required classes,
//! whitespace-separated descendant chains and comma-separated alternatives.
//!
//! - [`dom`]: the tree, its model, and paths into it.
//! - [`selector`], [`error`]: parsed selectors, and why a string is refused.
//! - [`text`], [`parser`]: from a selector string to a selector list.
//! - [`matcher`]: one element against one basic selector.
//! - [`search`]: the elements that a selector list picks out, as paths.
//! - [`query`]: [`find`] and [`select`], from a string to elements.
//! - [`laws`]: what holds of every search.
//! - [`table`]: the texts of a table cell.

pub mod dom;
pub mod error;
pub mod laws;
pub mod matcher;
pub mod parser;
pub mod query;
pub mod search;
pub mod selector;
pub mod table;
pub mod text;

pub use dom::{Dom, Element, Node};
pub use error::{ErrorKind, QueryError};
pub use query::{find, select};
pub use selector::{BasicSelector, Selector};
