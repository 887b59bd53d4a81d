//! What a symbol is drawn from: runs of modules, and the rows that emit
//! them.

pub mod bitfield;
pub mod generator;
pub mod pdf417;
pub mod micro_pdf417;
pub mod row;
