//! The HTTP status codes that this library knows by name.

use vstd::prelude::*;

verus! {

/// A named HTTP status.
#[derive(Clone, Copy, Debug, PartialEq, Eq, Structural)]
pub enum HttpStatus {
    OK,
    NotModified,
    NotFound,
}

impl HttpStatus {
    /// The number that stands for the status on the wire.
    pub open spec fn code_of(self) -> u32 {
        match self {
            HttpStatus::OK => 200,
            HttpStatus::NotModified => 304,
            HttpStatus::NotFound => 404,
        }
    }

    /// The number that stands for the status on the wire.
    pub fn code(self) -> (n: u32)
        ensures
            n == self.code_of(),
    {
        match self {
            HttpStatus::OK => 200,
            HttpStatus::NotModified => 304,
            HttpStatus::NotFound => 404,
        }
    }
}

/// The status that `n` stands for, if it has a name here.
pub open spec fn status_of(n: u32) -> Option<HttpStatus> {
    if n == 200 {
        Some(HttpStatus::OK)
    } else if n == 304 {
        Some(HttpStatus::NotModified)
    } else if n == 404 {
        Some(HttpStatus::NotFound)
    } else {
        None
    }
}

/// Looks up the status that `n` stands for: `Some` for 200, 304 and 404,
/// `None` for every other number.
pub fn http_status_from_u32(n: u32) -> (status: Option<HttpStatus>)
    ensures
        status == status_of(n),
        status is Some <==> n == 200 || n == 304 || n == 404,
        status matches Some(s) ==> s.code_of() == n,
{
    match n {
        200 => Some(HttpStatus::OK),
        304 => Some(HttpStatus::NotModified),
        404 => Some(HttpStatus::NotFound),
        _ => None,
    }
}

/// Looking up the code of a status gives that status back, and a number that
/// is looked up with success is the code of what was found.
pub proof fn lemma_code_round_trip(status: HttpStatus, n: u32)
    ensures
        status_of(status.code_of()) == Some(status),
        status_of(n) == Some(status) <==> status.code_of() == n,
{
}

} // verus!
