//! A dynamically growing hash table that maps integer keys below `2^63` to
//! arbitrary values, built from two layered components:
//!
//! - a [`growable_array::GrowableArray`]: a lazily growing tree of fixed-size
//!   segments acting as a sparse array of slots, and
//! - a [`split_ordered_list::SplitOrderedList`]: a single globally sorted list
//!   holding every real entry plus one sentinel node per logical bucket, kept
//!   in recursive-split ("bit reversal") order so the bucket table can double
//!   without rehashing.
//!
//! A small memoizing [`cache::Cache`] rounds out the crate.

pub mod bits;
pub mod cache;
pub mod growable_array;
pub mod list;
pub mod split_ordered_list;
