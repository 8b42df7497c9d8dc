//! Generalised tensor transposition: permutes the axes of a dense N-dimensional
//! array, optionally scaling the input and accumulating into an existing output,
//! and reading from or writing into sub-views of larger padded buffers.
use vstd::prelude::*;

pub mod geometry;
pub mod identities;
pub mod kernel;
pub mod perm;
pub mod radix;
pub mod sys;
pub mod transpose;

pub use geometry::TransposeError;
pub use perm::{inv_permute, permute};
pub use transpose::{transpose, transpose_simple, Transposable};

verus! {

} // verus!
