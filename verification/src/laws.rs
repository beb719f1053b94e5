//! What holds of every search.
//!
//! - [`soundness`]: each result is an element of the tree that the selector
//!   list asks for.
//! - [`reach`]: the search visits every element, so every element that a
//!   basic selector matches is found.
//! - [`chains`]: what a chain gives, said path by path, and that it finds
//!   what lies below its matches at any depth.
//! - [`order`]: where the results come in document order.

pub mod chains;
pub mod order;
pub mod reach;
pub mod soundness;
