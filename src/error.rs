//! Errors of the language configuration.
use vstd::prelude::*;

verus! {

/// What can go wrong when looking up or changing the configured languages.
#[derive(Debug, Clone, Copy, PartialEq, Eq, Structural)]
pub enum CipherError {
    LangAlreadyExists,
    LangNotFound,
    NoLangSelected,
    IdsExhausted,
}

impl CipherError {
    /// The message shown to the user for this error.
    pub fn message(&self) -> (r: &'static str)
        ensures
            *self == CipherError::LangAlreadyExists ==> r@ == "Lang name already exists"@,
            *self == CipherError::LangNotFound ==> r@ == "Lang with specified name did not exist"@,
            *self == CipherError::NoLangSelected ==> r@ == "No language was selected.\n\ttry `cipher lang set -n <name>`"@,
            *self == CipherError::IdsExhausted ==> r@ == "No free language id is left"@,
    {
        match self {
            CipherError::LangAlreadyExists => "Lang name already exists",
            CipherError::LangNotFound => "Lang with specified name did not exist",
            CipherError::NoLangSelected => "No language was selected.\n\ttry `cipher lang set -n <name>`",
            CipherError::IdsExhausted => "No free language id is left",
        }
    }
}

} // verus!
