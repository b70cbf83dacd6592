//! A deterministic Ruby formatter's verified core.

pub mod unicode;
pub mod doc;
pub mod print;
pub mod options;
pub mod comments;
pub mod source;
pub mod words;
pub mod literals;
pub mod layout;
pub mod cli;
