//! Ordered maps whose values keep a stable address for as long as their entry
//! lives, however the map grows or shrinks around them.
//!
//! Two storage engines share one key index (a `BTreeMap` from key to address):
//!
//! - [`blocks::PineMap`] keeps values of one type in a list of blocks whose
//!   capacities double; a block is never moved or resized, and the cells of
//!   removed entries are kept on a hole list and reused.
//! - [`arena::PressedPineMap`] appends every value to an arena of chunks that
//!   never move either, and never reuses a cell until the whole map is cleared.
//!
//! Each block and chunk is allocated with its full capacity and only filled up
//! to it, so it never reallocates: a value stays at the same place in memory,
//! and the contracts state that its address (a block and an offset) is kept by
//! every operation on other entries.
//!
//! Both implement the operation set of [`prelude::UnpinnedPineMap`] and
//! [`prelude::UnpinnedPineMapEmplace`]: lookup, insert if absent, construct in
//! place if absent, remove, and clear with every failure collected.

pub mod arena;
pub mod blocks;
mod index;
pub mod prelude;
pub mod teardown;
