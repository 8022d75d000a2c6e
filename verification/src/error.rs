//! The errors that are reported to whoever asked.

use vstd::prelude::*;
use vstd::string::*;

verus! {

/// The most bytes that the JSON body of a request may have.
pub const JSON_LIMIT: usize = 4096;

/// The status with which every error here is answered: a bad request.
pub const BAD_REQUEST: u16 = 400;

/// A request that could not be served.
#[derive(Debug)]
pub enum ApiError {
    /// The JSON body of the request was refused; `cause` says why.
    JsonError { cause: String },
}

impl ApiError {
    /// The cause of the error, as characters.
    pub open spec fn cause(self) -> Seq<char> {
        match self {
            ApiError::JsonError { cause } => cause@,
        }
    }

    /// The error for a JSON body that was refused for `cause`.
    pub fn json_error(cause: String) -> (r: ApiError)
        ensures
            r.cause() == cause@,
    {
        ApiError::JsonError { cause }
    }

    /// The error in words: its cause and nothing else.
    pub fn message(&self) -> (r: String)
        ensures
            r@ == self.cause(),
    {
        match self {
            ApiError::JsonError { cause } => cause.clone(),
        }
    }

    /// The line under which the error is passed on.
    pub fn report(&self) -> (r: String)
        ensures
            r@ == "JSON error: "@ + self.cause(),
    {
        match self {
            ApiError::JsonError { cause } => {
                let mut text = "JSON error: ".to_owned();
                text.append(cause.as_str());
                text
            },
        }
    }

    /// The status with which the error is answered.
    pub fn status_code(&self) -> (r: u16)
        ensures
            r == BAD_REQUEST,
    {
        match self {
            ApiError::JsonError { .. } => BAD_REQUEST,
        }
    }
}

/// Why no token was handed out.
#[derive(Clone, Copy, Debug, PartialEq, Eq)]
pub enum DrawError {
    /// The deck holds no token at all.
    Exhausted,
}

impl DrawError {
    /// The error in words.
    pub fn message(&self) -> (r: String)
        ensures
            r@ == "Deck was empty"@,
    {
        "Deck was empty".to_owned()
    }

    /// The status with which the error is answered.
    pub fn status_code(&self) -> (r: u16)
        ensures
            r == BAD_REQUEST,
    {
        BAD_REQUEST
    }
}

} // verus!
