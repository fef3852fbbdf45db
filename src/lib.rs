//! A bounded cache with least-recently-used eviction that keeps every value
//! as bytes, behind a pair of fallible encode / decode capabilities.

pub mod cache;
pub mod codec;
pub mod error;
pub mod laws;
pub mod model;
pub mod person;

pub use cache::LruCache;
pub use codec::{TryFromBytes, TryIntoBytes};
pub use error::CacheError;
pub use person::Person;
