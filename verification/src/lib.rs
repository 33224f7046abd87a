//! A lazy, double-ended flattening adapter over a two-level nested lazy
//! sequence, with the producers it is built on and the laws it obeys.

pub mod stream;
pub mod flat;
pub mod cursor;
pub mod sources;
pub mod adapter;
pub mod combine;
pub mod drain;
pub mod laws;

pub use crate::adapter::{flatten, Flatten};
pub use crate::cursor::{BackCursor, Cursor, IntoCursor};
pub use crate::combine::{map_items, rev, Mapped, Rev};
pub use crate::drain::{collect, count};
pub use crate::sources::{count_from, once, span, Counter, Once, Span, VecCursor};
pub use crate::stream::Stream;
