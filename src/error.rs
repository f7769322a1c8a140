//! Failures of reading a module.

use vstd::prelude::*;

use crate::call_table::CallTableError;

verus! {

/// Why a module could not be read.
#[derive(Clone, Debug, PartialEq, Eq)]
pub enum ModuleError {
    /// The input ended before the complete module was read.
    Io,
    /// The ISA extensions text is longer than its segment allows.
    IsaeLengthLimExceeded(usize),
    /// The module references more libraries than a segment holds.
    LibCountLimExceeded,
    /// The referenced libraries are not strictly increasing.
    LibsUnordered,
    /// The exported names are not strictly increasing.
    ExportsUnordered,
    /// A field is longer than its length prefix allows.
    FieldLengthExceeded,
    /// The ISA extensions text is not UTF-8.
    IsaeNonUtf8,
    /// A variable description is not UTF-8; the bytes are kept.
    VarNonUtf8(Vec<u8>),
    /// A routine name of the call table is not UTF-8; the bytes are kept.
    RoutineNonUtf8(Vec<u8>),
    /// An exported routine name is not UTF-8; the bytes are kept.
    ExternalNonUtf8(Vec<u8>),
    /// Unknown type byte of the variable with this description.
    VarUnknownType(u8, String),
    /// Invalid sign byte of the integer variable with this description.
    VarWrongSignByte(u8, String),
    /// The default value's width differs from the declared layout's.
    VarWrongLayout { layout_bytes: u16, data_bytes: u16, info: String },
    /// Unknown float layout code of the variable with this description.
    VarWrongFloatType(u8, String),
    /// The flag before a default value is neither 0 nor 1.
    VarWrongDefaultFlag(u8, String),
    /// The call table holds more routines than a 16-bit index reaches.
    Imports(CallTableError),
    /// The call table's libraries are not in increasing order, a routine name
    /// repeats within a library, or call sites are not strictly increasing.
    ImportsUnordered,
}

} // verus!
