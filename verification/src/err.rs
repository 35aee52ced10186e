//! The library's error type, and the conversion from `std::io::Error` that
//! callers at the I/O boundary use.

use vstd::prelude::*;

verus! {

/// An error of the proxy core. `Other` carries a rendered description;
/// `NotLogin` marks a request that lacked a valid session.
#[derive(Debug)]
pub enum Error {
    Other(String),
    NotLogin,
}

impl Error {
    /// The error rendered as text.
    pub fn to_text(&self) -> (r: String)
        ensures
            self matches Error::Other(m) ==> r@ == m@,
            self is NotLogin ==> r@ == "not login"@,
    {
        match self {
            Error::Other(msg) => msg.clone(),
            Error::NotLogin => String::from_str("not login"),
        }
    }
}

#[verifier::external_type_specification]
#[verifier::external_body]
pub struct ExIoError(std::io::Error);

/// Relies on the `Display` rendering of `std::io::Error` for the carried
/// description; nothing is assumed about the produced text.
#[verifier::external_body]
fn io_error_text(e: &std::io::Error) -> String {
    e.to_string()
}

/// Wraps an I/O error as a library error carrying its rendered text.
pub fn map_io_err(e: std::io::Error) -> (r: Error)
    ensures
        r is Other,
{
    Error::Other(io_error_text(&e))
}

} // verus!
