//! A dense matrix-multiplication engine: `C += A * B` over 64-bit integer
//! elements, organised as a cache-blocked base kernel under a recursive
//! partitioner that splits large problems into quadrants and runs the
//! independent quadrant updates in parallel.

pub mod engine;
pub mod kernel;
pub mod laws;
pub mod matrix;
pub mod region;
