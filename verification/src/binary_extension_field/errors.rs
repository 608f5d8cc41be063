use vstd::prelude::*;
use vstd::string::StringExecFns;

verus! {

/// What can go wrong when a binary extension field is made.
#[derive(Debug, Clone, Copy, PartialEq, Eq)]
pub enum BinaryExtensionFieldError {
    /// The modulus given has a divisor of smaller degree.
    NonIrreducibleModulus,
    /// The degree of the modulus given is not the degree of the field.
    InvalidModulusDegree,
    /// The search for an irreducible modulus used up its attempts.
    UnableToGenerateModulus,
}

impl BinaryExtensionFieldError {
    /// The message of the error.
    pub open spec fn message(&self) -> Seq<char> {
        match self {
            BinaryExtensionFieldError::NonIrreducibleModulus => {
                "The provided modulus is not irreducible."@
            },
            BinaryExtensionFieldError::InvalidModulusDegree => {
                "The degree of the modulus does not match the field degree."@
            },
            BinaryExtensionFieldError::UnableToGenerateModulus => {
                "Unable to generate an irreducible modulus polynomial."@
            },
        }
    }

    /// The message of the error.
    pub fn to_string(&self) -> (text: String)
        ensures
            text@ == self.message(),
    {
        match self {
            BinaryExtensionFieldError::NonIrreducibleModulus => {
                String::from_str("The provided modulus is not irreducible.")
            },
            BinaryExtensionFieldError::InvalidModulusDegree => {
                String::from_str("The degree of the modulus does not match the field degree.")
            },
            BinaryExtensionFieldError::UnableToGenerateModulus => {
                String::from_str("Unable to generate an irreducible modulus polynomial.")
            },
        }
    }
}

} // verus!
