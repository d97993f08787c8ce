//! The error a query is answered with.

use vstd::prelude::*;

verus! {

/// HTTP 400.
pub const BAD_REQUEST: u16 = 400;

/// HTTP 500.
pub const INTERNAL_SERVER_ERROR: u16 = 500;

/// Why a query failed, with the HTTP status it is answered with.
#[derive(Debug)]
pub struct PromError {
    pub status: u16,
    pub error_type: &'static str,
    pub message: String,
}

/// The view of a `PromError`.
#[verifier::ext_equal]
pub struct ErrorView {
    pub status: u16,
    pub error_type: Seq<char>,
    pub message: Seq<char>,
}

impl View for PromError {
    type V = ErrorView;

    open spec fn view(&self) -> ErrorView {
        ErrorView { status: self.status, error_type: self.error_type@, message: self.message@ }
    }
}

/// The query is at fault.
pub open spec fn bad_data(message: Seq<char>) -> ErrorView {
    ErrorView { status: BAD_REQUEST, error_type: "bad_data"@, message }
}

/// The server is at fault.
pub open spec fn internal(message: Seq<char>) -> ErrorView {
    ErrorView { status: INTERNAL_SERVER_ERROR, error_type: "internal"@, message }
}

impl PromError {
    /// The query is at fault.
    pub fn bad_data(message: String) -> (r: PromError)
        ensures
            r@ == bad_data(message@),
    {
        PromError { status: BAD_REQUEST, error_type: "bad_data", message }
    }

    /// The server is at fault.
    pub fn internal(message: String) -> (r: PromError)
        ensures
            r@ == internal(message@),
    {
        PromError { status: INTERNAL_SERVER_ERROR, error_type: "internal", message }
    }
}

} // verus!
