//! One step of the distance product of a square matrix with itself: entry
//! `(i, j)` of the result is the least over `k` of `d[i][k]` plus `d[k][j]`.
//! Repeated, the step yields the weights of the shortest paths between all
//! pairs of vertices of a graph.
//!
//! Weights are single-precision numbers held as bit patterns, with positive
//! infinity for a missing edge. The library orders the patterns itself and
//! is handed the addition by its caller, so that every statement about the
//! result is a statement about integers.
//!
//! - `weight`: the patterns, their order and their minima;
//! - `product`: what the product is, and what holds of it;
//! - `layout`: the padded and transposed working copies of a matrix;
//! - `scalar`: the kernel with a block of independent running minima;
//! - `lanes`, `tiled`: vectors of weights, and the kernel that computes a
//!   tile of three rows by three columns on them;
//! - `dispatch`: the groups of rows, computed in turn or side by side, and
//!   `step` itself.
pub mod dispatch;
pub mod lanes;
pub mod layout;
pub mod product;
pub mod scalar;
pub mod tiled;
pub mod weight;

pub use dispatch::{step, Kernel};
