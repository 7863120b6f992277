//! A small in-memory key-value store with a binary snapshot format, a per-key
//! lock registry, and transactions that stage their writes until commit.

pub mod command;
pub mod executor;
pub mod lexer;
pub mod locks;
pub mod memdb;
pub mod parser;
pub mod reply;
pub mod sessions;
pub mod snapshot;
pub mod table;
pub mod text;
pub mod transaction;

pub use executor::Executor;
pub use locks::Locks;
pub use memdb::Memdb;
