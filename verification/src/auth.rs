//! Static bearer-token authentication.
//!
//! Where a token is set, every request must carry `Authorization: Bearer
//! <token>`. Where none is set, every request passes.

use vstd::prelude::*;
use vstd::string::StringExecFns;
use crate::text::same_text;

verus! {

/// What stands before the token.
pub const BEARER: &'static str = "Bearer ";

/// Whether a request passes: the header must be the scheme and the token.
pub open spec fn admitted(expected: Option<Seq<char>>, header: Option<Seq<char>>) -> bool {
    match expected {
        None => true,
        Some(token) => header == Some(BEARER@ + token),
    }
}

/// The text of an optional string slice.
pub open spec fn slice_text(s: Option<&str>) -> Option<Seq<char>> {
    match s {
        Some(t) => Some(t@),
        None => None,
    }
}

/// Whether a request with that `Authorization` header passes. A header that is
/// missing, or is not text, is `None`.
pub fn admits(expected: Option<&str>, header: Option<&str>) -> (r: bool)
    ensures
        r == admitted(slice_text(expected), slice_text(header)),
{
    match expected {
        None => true,
        Some(token) => match header {
            Some(h) => {
                let mut want = BEARER.to_string();
                want.append(token);
                same_text(h, want.as_str())
            },
            None => false,
        },
    }
}

/// Where a token is set, a request without it, or with another one, does not
/// pass.
pub proof fn law_only_the_token_admits(token: Seq<char>, other: Seq<char>)
    requires
        other != token,
    ensures
        !admitted(Some(token), None),
        !admitted(Some(token), Some(BEARER@ + other)),
        admitted(Some(token), Some(BEARER@ + token)),
{
    if BEARER@ + other == BEARER@ + token {
        let n = BEARER@.len() as int;
        assert((BEARER@ + other).skip(n) =~= other);
        assert((BEARER@ + token).skip(n) =~= token);
    }
}

} // verus!
