//! A bounded log of the queries a session has run, most recent last.

pub mod codec;
pub mod entry;
pub mod error;
pub mod json;
pub mod store;
