//! `kvs`: an embeddable key-value store whose operations are proved against a
//! map model.
//!
//! A [`KvStore`] maps string keys to string values, held in key order. It can
//! be saved as bytes with [`KvStore::to_bytes`] and loaded back with
//! [`KvStore::open`].
pub mod codec;
pub mod error;
pub mod laws;
pub mod order;
pub mod store;

pub use error::KvsError;
pub use store::KvStore;
