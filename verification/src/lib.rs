//! A minimal persistent key-value store engine.
//!
//! The store holds a single mapping from text keys to text values in memory
//! and persists it as a flat file: one `KEY<TAB>VALUE` record per line.
//! Keys are normalized to uppercase, so lookups are case-insensitive.
//!
//! The crate is split into the record codec (one entry to and from one line
//! of text), key normalization, and the store engine itself.  All file I/O
//! stays with the caller: the engine parses file contents handed to it and
//! renders the contents to write back.

pub mod codec;
pub mod norm;
pub mod store;
