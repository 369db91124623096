//! Errors that can occur during circuit synthesis, such as witness
//! generation or constraint-system construction. These are recoverable:
//! synthesis for the circuit aborts, but the host process continues and may
//! report the specific kind to its caller.

use vstd::prelude::*;

verus! {

/// An error that could occur during circuit synthesis contexts.
#[derive(Debug, PartialEq, Eq)]
pub enum SynthesisError {
    /// During synthesis, we lacked knowledge of a variable assignment.
    AssignmentMissing,
    /// During synthesis, we divided by zero.
    DivisionByZero,
    /// During synthesis, we constructed an unsatisfiable constraint system.
    Unsatisfiable,
    /// During synthesis, our polynomials ended up being too high of degree.
    PolynomialDegreeTooLarge,
    /// During proof generation, we encountered an identity in the CRS.
    UnexpectedIdentity,
    /// During proof generation, we encountered an I/O error with the CRS.
    IoError(String),
    /// During verification, our verifying key was malformed.
    MalformedVerifyingKey,
    /// During CRS generation, we observed an unconstrained auxiliary variable.
    UnconstrainedVariable,
    /// Attempted to aggregate malformed proofs.
    MalformedProofs(String),
    /// Malformed SRS.
    MalformedSrs,
    /// Non power of two proofs given for aggregation.
    NonPowerOfTwo,
    /// Incompatible vector length.
    IncompatibleLengthVector(String),
    /// Invalid pairing.
    InvalidPairing,
}

impl SynthesisError {
    /// A short human-readable description of the error kind.
    pub fn describe(&self) -> (r: &'static str)
        ensures
            r@.len() > 0,
    {
        let r = match self {
            SynthesisError::AssignmentMissing => {
                "an assignment for a variable could not be computed"
            },
            SynthesisError::DivisionByZero => "division by zero",
            SynthesisError::Unsatisfiable => "unsatisfiable constraint system",
            SynthesisError::PolynomialDegreeTooLarge => "polynomial degree is too large",
            SynthesisError::UnexpectedIdentity => "encountered an identity element in the CRS",
            SynthesisError::IoError(_) => "encountered an I/O error",
            SynthesisError::MalformedVerifyingKey => "malformed verifying key",
            SynthesisError::UnconstrainedVariable => "auxiliary variable was unconstrained",
            SynthesisError::MalformedProofs(_) => "attempted to aggregate malformed proofs",
            SynthesisError::MalformedSrs => "malformed SRS",
            SynthesisError::NonPowerOfTwo => "non power of two proofs given for aggregation",
            SynthesisError::IncompatibleLengthVector(_) => "incompatible vector length",
            SynthesisError::InvalidPairing => "invalid pairing",
        };
        proof {
            reveal_strlit("an assignment for a variable could not be computed");
            reveal_strlit("division by zero");
            reveal_strlit("unsatisfiable constraint system");
            reveal_strlit("polynomial degree is too large");
            reveal_strlit("encountered an identity element in the CRS");
            reveal_strlit("encountered an I/O error");
            reveal_strlit("malformed verifying key");
            reveal_strlit("auxiliary variable was unconstrained");
            reveal_strlit("attempted to aggregate malformed proofs");
            reveal_strlit("malformed SRS");
            reveal_strlit("non power of two proofs given for aggregation");
            reveal_strlit("incompatible vector length");
            reveal_strlit("invalid pairing");
        }
        r
    }
}

} // verus!
