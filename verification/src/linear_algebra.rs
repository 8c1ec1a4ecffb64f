//! Linear algebra over exact rational scalars: elementary operations and
//! the diagonal reduction engine.

pub mod operations;
pub mod smith;
