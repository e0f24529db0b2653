//! Core of an interactive fuzzy file finder: an append-only arena with
//! stable slice handles, byte-level path values and parsing, an
//! approximate-substring scorer with an instant match for exact path
//! segments, the per-chunk ranking pass of a search worker, and a bounded
//! top-K collector gated by query generations.

pub mod arena;
pub mod byte_storage;
pub mod collector;
pub mod fuzzy_match;
pub mod search;
pub mod walker;

pub use arena::Arena;
pub use arena::SliceHandle;
pub use byte_storage::FilePath;
pub use byte_storage::FilePathIterator;
pub use collector::Collector;
pub use fuzzy_match::FuzzyMatcher;
