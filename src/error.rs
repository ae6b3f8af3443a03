use vstd::prelude::*;

verus! {

/// Why an operation of this library failed.
#[derive(Debug)]
pub enum ClvmError {
    /// The text is not an even number of hexadecimal digits.
    MalformedHex,
    /// The bytes are not the canonical serialization of one S-expression.
    MalformedEncoding,
    /// A pair was expected and an atom was found.
    NotAPair,
    /// The virtual machine could not build the curried program.
    CurryFailed(String),
    /// The virtual machine could not evaluate the program.
    ReductionFailed(String),
}

} // verus!
