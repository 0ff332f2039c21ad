//! A small regular expression engine: a [`Grammar`] is expanded into a
//! Thompson NFA, a [`RegularExpression`], that is matched by advancing every
//! live state in step with the input.

pub mod description;
pub mod list;
mod automaton;
pub mod regular;

pub use description::Grammar;
pub use list::ConstList;
pub use regular::RegularExpression;
