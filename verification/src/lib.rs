//! Sparse feed-forward networks: weighted edges kept as a coordinate list,
//! regrouped by row into a compressed layout, and evaluated in one pass.
//!
//! The library is generic in the scalar type `V` of weights, biases and
//! activations. Arithmetic on scalars is supplied by the caller as plain
//! functions (`plus`, `times`, `positive`), so the same code runs on any
//! numeric type. Contracts speak of the mathematical functions that these
//! operations compute.

pub mod coo;
pub mod csr;
pub mod iter;
pub mod net;
pub mod order;
pub mod render;
pub mod sample;
pub mod scalar;

pub use coo::{CooEntry, CooMatrix};
pub use csr::CsrMatrix;
pub use iter::CsrIterator;
pub use net::{SparseNet, SparseNetData};
pub use scalar::relu;
