//! Palette reduction for raster images by k-means clustering of pixel colors.
//!
//! Channel values are IEEE 754 single-precision numbers, carried through the
//! library as their 32-bit patterns. The library moves, orders and narrows
//! them; the arithmetic on them is supplied by the caller through
//! [`arithmetic::Arithmetic`]. Nothing is assumed of that arithmetic: the
//! contracts of the engine say which of its operations gave each value, and
//! [`determinism`] shows that the engine is a function where the arithmetic
//! is one.

pub mod arithmetic;
pub mod ieee;
pub mod matrix;
pub mod sampling;
pub mod kmeans;
pub mod cli;
pub mod timing;
pub mod io;
pub mod text;
pub mod preprocessing;
pub mod pipeline;
pub mod determinism;
