//! The error that every fallible estate operation returns.
use vstd::prelude::*;

verus! {

/// A refusal: `code` names the rule that refused (absent for an untyped
/// failure) and `message` explains it.
#[derive(Clone, Debug)]
pub struct Error {
    pub code: Option<String>,
    pub message: String,
}

impl Error {
    pub open spec fn coded(&self, code: Seq<char>) -> bool {
        &&& self.code is Some
        &&& self.code->0@ == code
    }

    /// An error that names its rule.
    pub fn typed(code: &str, message: String) -> (e: Error)
        ensures
            e.coded(code@),
            e.message@ == message@,
    {
        Error { code: Some(String::from_str(code)), message }
    }

    /// An error with a literal message that names its rule.
    pub fn said(code: &str, message: &str) -> (e: Error)
        ensures
            e.coded(code@),
            e.message@ == message@,
    {
        Error { code: Some(String::from_str(code)), message: String::from_str(message) }
    }

    /// A copy that Verus knows equals the original.
    pub fn duplicate(&self) -> (r: Error)
        ensures
            r == *self,
    {
        let code = match &self.code {
            Some(c) => Some(c.clone()),
            None => None,
        };
        Error { code, message: self.message.clone() }
    }

    /// An untyped error.
    pub fn new(message: String) -> (e: Error)
        ensures
            e.code is None,
            e.message@ == message@,
    {
        Error { code: None, message }
    }
}

} // verus!
