//! The error of converting a complex number to a real one. The numbers
//! themselves are floating point and live outside the verified library.
use vstd::prelude::*;

verus! {

/// A complex number with a non-zero imaginary part has no real value.
#[derive(Debug, PartialEq, Eq, Structural)]
pub enum ComplexNumberError {
    ImaginaryNotZero,
}

} // verus!
