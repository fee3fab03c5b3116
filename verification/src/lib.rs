//! Splittable, index-addressable iteration over a rectangular pixel domain.
//!
//! A [`Dim`] is a `width x height` extent whose cells are numbered column by
//! column, so that the linear offsets `0..width * height` correspond one to
//! one to the coordinates `(x, y)`. A [`DimIterator`] is a double-ended cursor
//! over a run of offsets. A [`DimProducer`] is a run of offsets that can be
//! cut in two at any place, for a scheduler that hands the parts to its
//! workers; a [`DimParallelIterator`] is the whole domain as such a unit of
//! work.
//!
//! The library spawns no thread and owns no resource. What it proves is that
//! the cursors yield each cell once, whatever cuts were made.

pub mod dim;
pub mod iter;
pub mod producer;
pub mod split_tree;

pub use dim::Dim;
pub use iter::DimIterator;
pub use producer::{DimParallelIterator, DimProducer};
