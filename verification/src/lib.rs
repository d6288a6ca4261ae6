//! A keyword-in-context concordance over sealed, ordered shard indexes.
//!
//! An index key is a sentence followed by eight hexadecimal digits that give
//! the sentence's position in its document; the value stored under the key is
//! the document's identifier. Shards are built from sorted corpus lines and
//! answer windowed token searches and prefix completions.

pub mod backend;
pub mod builder;
pub mod docs;
pub mod encoding;
pub mod error;
pub mod hex;
pub mod index;
pub mod order;
pub mod query;
pub mod registry;
pub mod results;
pub mod text;
