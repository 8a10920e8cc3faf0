//! The canonical response statuses the server emits.

use vstd::prelude::*;

verus! {

/// An HTTP status the engine can produce, with its numeric code and
/// canonical reason phrase.
#[derive(Clone, Copy, Debug, PartialEq, Eq, Structural)]
pub enum HttpStatus {
    OK,
    NoContent,
    BadRequest,
    NotFound,
    MethodNotAllowed,
    InternalServerError,
}

/// The numeric code of a status.
pub open spec fn status_code_spec(s: HttpStatus) -> int {
    match s {
        HttpStatus::OK => 200,
        HttpStatus::NoContent => 204,
        HttpStatus::BadRequest => 400,
        HttpStatus::NotFound => 404,
        HttpStatus::MethodNotAllowed => 405,
        HttpStatus::InternalServerError => 500,
    }
}

/// The canonical reason phrase of a status.
pub open spec fn status_reason_spec(s: HttpStatus) -> Seq<char> {
    match s {
        HttpStatus::OK => "OK"@,
        HttpStatus::NoContent => "No Content"@,
        HttpStatus::BadRequest => "Bad Request"@,
        HttpStatus::NotFound => "Not Found"@,
        HttpStatus::MethodNotAllowed => "Method Not Allowed"@,
        HttpStatus::InternalServerError => "Internal Server Error"@,
    }
}

impl HttpStatus {
    pub fn code(&self) -> (r: u16)
        ensures
            r as int == status_code_spec(*self),
    {
        match self {
            HttpStatus::OK => 200,
            HttpStatus::NoContent => 204,
            HttpStatus::BadRequest => 400,
            HttpStatus::NotFound => 404,
            HttpStatus::MethodNotAllowed => 405,
            HttpStatus::InternalServerError => 500,
        }
    }

    pub fn reason(&self) -> (r: &'static str)
        ensures
            r@ == status_reason_spec(*self),
    {
        match self {
            HttpStatus::OK => "OK",
            HttpStatus::NoContent => "No Content",
            HttpStatus::BadRequest => "Bad Request",
            HttpStatus::NotFound => "Not Found",
            HttpStatus::MethodNotAllowed => "Method Not Allowed",
            HttpStatus::InternalServerError => "Internal Server Error",
        }
    }
}

} // verus!
