//! The library's error type and its HTTP status mapping.
use vstd::prelude::*;

use crate::text::concat2;

verus! {

/// All errors produced by the library, each mapped to an HTTP status.
#[derive(Debug, Clone, PartialEq, Eq)]
pub enum IiifError {
    BadRequest(String),
    NotFound(String),
    NotImplemented(String),
    Unauthorized(String),
    Forbidden(String),
    NotAcceptable(String),
    Internal(String),
    ImageProcessing(String),
    Storage(String),
    ServiceUnavailable(String),
    /// An I/O failure, carried by its message.
    Io(String),
}

/// The HTTP status code of an error variant.
pub open spec fn status_of(e: IiifError) -> u16 {
    match e {
        IiifError::BadRequest(_) => 400,
        IiifError::Unauthorized(_) => 401,
        IiifError::Forbidden(_) => 403,
        IiifError::NotFound(_) => 404,
        IiifError::NotAcceptable(_) => 406,
        IiifError::NotImplemented(_) => 501,
        IiifError::ServiceUnavailable(_) => 503,
        IiifError::Internal(_) => 500,
        IiifError::ImageProcessing(_) => 500,
        IiifError::Storage(_) => 500,
        IiifError::Io(_) => 500,
    }
}

/// The label that the error's message starts with.
pub open spec fn label_of(e: IiifError) -> Seq<char> {
    match e {
        IiifError::BadRequest(_) => "Bad request: "@,
        IiifError::NotFound(_) => "Not found: "@,
        IiifError::NotImplemented(_) => "Not implemented: "@,
        IiifError::Unauthorized(_) => "Unauthorized: "@,
        IiifError::Forbidden(_) => "Forbidden: "@,
        IiifError::NotAcceptable(_) => "Not acceptable: "@,
        IiifError::Internal(_) => "Internal error: "@,
        IiifError::ImageProcessing(_) => "Image processing error: "@,
        IiifError::Storage(_) => "Storage error: "@,
        IiifError::ServiceUnavailable(_) => "Service unavailable: "@,
        IiifError::Io(_) => "IO error: "@,
    }
}

/// The detail text the error carries.
pub open spec fn detail_of(e: IiifError) -> Seq<char> {
    match e {
        IiifError::BadRequest(m) => m@,
        IiifError::NotFound(m) => m@,
        IiifError::NotImplemented(m) => m@,
        IiifError::Unauthorized(m) => m@,
        IiifError::Forbidden(m) => m@,
        IiifError::NotAcceptable(m) => m@,
        IiifError::Internal(m) => m@,
        IiifError::ImageProcessing(m) => m@,
        IiifError::Storage(m) => m@,
        IiifError::ServiceUnavailable(m) => m@,
        IiifError::Io(m) => m@,
    }
}

impl IiifError {
    /// Numeric HTTP status code for this error variant.
    pub fn http_status_code(&self) -> (r: u16)
        ensures
            r == status_of(*self),
    {
        match self {
            IiifError::BadRequest(_) => 400,
            IiifError::Unauthorized(_) => 401,
            IiifError::Forbidden(_) => 403,
            IiifError::NotFound(_) => 404,
            IiifError::NotAcceptable(_) => 406,
            IiifError::NotImplemented(_) => 501,
            IiifError::ServiceUnavailable(_) => 503,
            IiifError::Internal(_) => 500,
            IiifError::ImageProcessing(_) => 500,
            IiifError::Storage(_) => 500,
            IiifError::Io(_) => 500,
        }
    }

    /// Human-readable message: the variant's label followed by its detail.
    pub fn message(&self) -> (r: String)
        ensures
            r@ == label_of(*self) + detail_of(*self),
    {
        match self {
            IiifError::BadRequest(m) => concat2("Bad request: ", m.as_str()),
            IiifError::NotFound(m) => concat2("Not found: ", m.as_str()),
            IiifError::NotImplemented(m) => concat2("Not implemented: ", m.as_str()),
            IiifError::Unauthorized(m) => concat2("Unauthorized: ", m.as_str()),
            IiifError::Forbidden(m) => concat2("Forbidden: ", m.as_str()),
            IiifError::NotAcceptable(m) => concat2("Not acceptable: ", m.as_str()),
            IiifError::Internal(m) => concat2("Internal error: ", m.as_str()),
            IiifError::ImageProcessing(m) => concat2("Image processing error: ", m.as_str()),
            IiifError::Storage(m) => concat2("Storage error: ", m.as_str()),
            IiifError::ServiceUnavailable(m) => concat2("Service unavailable: ", m.as_str()),
            IiifError::Io(m) => concat2("IO error: ", m.as_str()),
        }
    }
}

/// A `BadRequest` error with the given detail.
pub fn bad_request(msg: &str) -> (r: IiifError)
    ensures
        r matches IiifError::BadRequest(m) && m@ == msg@,
{
    IiifError::BadRequest(String::from_str(msg))
}

} // verus!
