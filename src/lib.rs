//! Binary module format of an assembler for a register-based virtual machine:
//! the call table that resolves external routine calls to stable indices, and
//! the length-prefixed codec of a whole module.

pub mod libid;
pub mod call_table;
pub mod codec;
pub mod error;
pub mod value;
pub mod module;
