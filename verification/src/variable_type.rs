//! How the bytes of a watched value are read.

use vstd::prelude::*;

verus! {

/// A scalar's encoding, or the size of something that is no scalar.
#[derive(Copy, Clone, Debug, PartialEq, Eq, Structural)]
pub enum VariableType {
    Bool,
    U8,
    I8,
    U16,
    I16,
    U32,
    I32,
    U64,
    I64,
    F32,
    F64,
    Raw(usize),
}

} // verus!
