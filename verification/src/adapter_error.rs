//! Errors of the framework adapters.

use vstd::prelude::*;

use crate::validate::ValidationError;

verus! {

/// I/O errors, carried through unchanged.
#[verifier::external_type_specification]
#[verifier::external_body]
pub struct ExIoError(std::io::Error);

/// Errors produced by the OpenQASM 3 adapter.
#[derive(Debug)]
pub enum OpenQasmError {
    Parse(String),
    SymbolicParameter { gate: String, name: String },
    Io(std::io::Error),
    Validation(ValidationError),
}

/// Errors produced by the tket JSON adapter.
#[derive(Debug)]
pub enum TketJsonError {
    Parse(String),
    UnsupportedOperation { op_type: String },
    SymbolicParameter { gate: String, param: String },
    Io(std::io::Error),
    Validation(ValidationError),
}

} // verus!
