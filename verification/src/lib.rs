//! Symbolic modeling core for mathematical optimization: expression graphs
//! over scalar decision variables, exact symbolic differentiation, affine
//! classification, and lowering into sparse numeric structures.
//!
//! Scalars are `i64` values combined with wrapping arithmetic, which keeps
//! every algebraic identity of a commutative ring exact and total.

pub mod node;
pub mod scalar;
pub mod sem;
pub mod diff;
pub mod coeffs;
pub mod node_std;
pub mod problem;
pub mod solver;

pub use node::Node;
