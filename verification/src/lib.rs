//! Symbolic regression of the right-hand side of an ordinary differential
//! equation by genetic programming.
//!
//! Real numbers are carried as the bit patterns of IEEE 754 double precision
//! values (`u64`). The library orders them itself; arithmetic on them is done
//! by a function that the caller hands in: the library proves every
//! structural step of the search and leaves the numerics to the caller.

pub mod arity;
pub mod chance;
pub mod error;
pub mod eval;
pub mod expr;
pub mod ode;
pub mod operator;
pub mod population;
pub mod ranking;
pub mod scalar;
