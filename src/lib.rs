//! Lowering of name-resolved filter programs (MIR) into a flat arena of
//! primitive nodes (LIR), addressed by stable integer identifiers.

pub mod check;
pub mod exact;
pub mod laws;
pub mod lir;
pub mod lower;
pub mod mir;
pub mod spec;
