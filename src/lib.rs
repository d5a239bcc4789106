//! Heap storage for a compact, copy-on-write string: a reference-counted block
//! holding its capacity and an inline byte buffer, and a two-word handle that
//! shares the block until it needs to write.

pub mod heap;
pub mod arc;
pub mod traits;

pub use arc::ArcString;
pub use heap::{ArcStringInner, BlockLayout, MAX_CAPACITY};
pub use traits::IntoRepr;
