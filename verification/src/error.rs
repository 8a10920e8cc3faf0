//! The two error families of the engine: handler-facing `HttpError`
//! and engine-internal `HttpInternalError`.

use vstd::prelude::*;

use crate::http_status::HttpStatus;

verus! {

/// An error surfaced on handler return paths: a message together with
/// the status the response should carry.
#[derive(Debug)]
pub struct HttpError {
    message: String,
    status: HttpStatus,
}

impl View for HttpError {
    type V = (Seq<char>, HttpStatus);

    closed spec fn view(&self) -> (Seq<char>, HttpStatus) {
        (self.message@, self.status)
    }
}

impl HttpError {
    pub fn new(message: &str, status: HttpStatus) -> (r: Self)
        ensures
            r@ == (message@, status),
    {
        HttpError { message: message.to_owned(), status }
    }

    pub fn message(&self) -> (r: &str)
        ensures
            r@ == self@.0,
    {
        self.message.as_str()
    }

    pub fn status(&self) -> (r: HttpStatus)
        ensures
            r == self@.1,
    {
        self.status
    }
}

/// An engine-internal failure. The two timeout variants mean the peer
/// went quiet; everything else is carried as a message.
#[derive(Debug)]
pub enum HttpInternalError {
    ConnectionTimeout,
    DataTimeout,
    Other(String),
}

impl HttpInternalError {
    pub fn new(message: &str) -> (r: Self)
        ensures
            r matches HttpInternalError::Other(m) && m@ == message@,
    {
        HttpInternalError::Other(message.to_owned())
    }

    /// The human-readable description of the error.
    pub fn message(&self) -> (r: String)
        ensures
            self matches HttpInternalError::ConnectionTimeout ==> r@ == "Connection timed out"@,
            self matches HttpInternalError::DataTimeout ==> r@ == "Data timed out."@,
            self matches HttpInternalError::Other(m) ==> r@ == m@,
    {
        match self {
            HttpInternalError::ConnectionTimeout => "Connection timed out".to_owned(),
            HttpInternalError::DataTimeout => "Data timed out.".to_owned(),
            HttpInternalError::Other(m) => m.clone(),
        }
    }

    /// Whether the error is one of the transport-timeout variants, which
    /// the keep-alive loop absorbs silently.
    pub fn is_timeout(&self) -> (r: bool)
        ensures
            r == (self matches HttpInternalError::ConnectionTimeout || self
                matches HttpInternalError::DataTimeout),
    {
        match self {
            HttpInternalError::ConnectionTimeout => true,
            HttpInternalError::DataTimeout => true,
            HttpInternalError::Other(_) => false,
        }
    }

    /// Wraps a handler-facing error as an internal one, keeping its message.
    pub fn from_http(e: &HttpError) -> (r: Self)
        ensures
            r matches HttpInternalError::Other(m) && m@ == e@.0,
    {
        let m: &str = e.message();
        HttpInternalError::Other(m.to_owned())
    }
}

impl PartialEq for HttpInternalError {
    fn eq(&self, other: &Self) -> (r: bool) {
        match (self, other) {
            (HttpInternalError::ConnectionTimeout, HttpInternalError::ConnectionTimeout) => true,
            (HttpInternalError::DataTimeout, HttpInternalError::DataTimeout) => true,
            (HttpInternalError::Other(a), HttpInternalError::Other(b)) => crate::text::str_eq(
                a.as_str(),
                b.as_str(),
            ),
            _ => false,
        }
    }
}

impl vstd::std_specs::cmp::PartialEqSpecImpl for HttpInternalError {
    open spec fn obeys_eq_spec() -> bool {
        true
    }

    open spec fn eq_spec(&self, other: &Self) -> bool {
        match (self, other) {
            (HttpInternalError::ConnectionTimeout, HttpInternalError::ConnectionTimeout) => true,
            (HttpInternalError::DataTimeout, HttpInternalError::DataTimeout) => true,
            (HttpInternalError::Other(a), HttpInternalError::Other(b)) => a@ == b@,
            _ => false,
        }
    }
}

impl Eq for HttpInternalError {

}

} // verus!
