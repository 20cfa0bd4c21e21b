use vstd::prelude::*;

verus! {

/// std's I/O error type, declared so that a reading failure can be
/// carried through unchanged.
#[verifier::external_type_specification]
#[verifier::external_body]
pub struct ExIoError(std::io::Error);

/// A structured error from reading a text instance: it names the
/// offending token, the field it belongs to, and the expected type.
#[derive(Debug)]
pub enum InstanceReadError {
    /// The instance file could not be opened or read.
    File(std::io::Error),
    /// A required token is missing from a line.
    MissingToken(String),
    /// A token does not parse as its field's type.
    InvalidToken { token: String, token_name: &'static str, expected_type: &'static str },
}

impl InstanceReadError {
    /// An `InvalidToken` error for a field that expected an integer.
    pub fn expected_int(token: String, token_name: &'static str) -> (r: Self)
        ensures
            r matches InstanceReadError::InvalidToken { token: t, token_name: n, expected_type: e }
                && t == token && n == token_name && e@ == "integer"@,
    {
        InstanceReadError::InvalidToken { token, token_name, expected_type: "integer" }
    }

    /// An `InvalidToken` error for a field that expected a floating point
    /// number.
    pub fn expected_float(token: String, token_name: &'static str) -> (r: Self)
        ensures
            r matches InstanceReadError::InvalidToken { token: t, token_name: n, expected_type: e }
                && t == token && n == token_name && e@ == "floating point number"@,
    {
        InstanceReadError::InvalidToken { token, token_name, expected_type: "floating point number" }
    }
}

} // verus!
