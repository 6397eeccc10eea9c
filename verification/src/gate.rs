//! The request gate run before every protected handler: read the bearer
//! token, validate it, reject it if revoked, else forward with its claims.
//! Fail closed: every doubt is a rejection.

use crate::jwt::{validate_spec, Claims, TokenError};
use crate::jwt::validate_jwt;
use crate::revocation::{revoked_spec, RevocationStore};
use vstd::prelude::*;
use vstd::string::{StrSliceExecFns, StringSliceAdditionalSpecFns};
use vstd::utf8::encode_utf8;

verus! {

/// `Bearer ` — the scheme prefix of the authorization header.
pub open spec fn bearer_prefix() -> Seq<char> {
    seq!['B', 'e', 'a', 'r', 'e', 'r', ' ']
}

/// The token carried by an authorization header value, when the value is
/// a well-formed bearer credential.
pub open spec fn bearer_token(h: Seq<char>) -> Option<Seq<char>> {
    if h.len() >= 7 && h.take(7) == bearer_prefix() {
        Some(h.skip(7))
    } else {
        None
    }
}

/// Outcome of one request: the claims when it may pass, or a status
/// and message to answer with.
pub enum GateOutcome {
    Forward(Claims),
    Reject { status: u16, message: String },
}

/// The store could not be consulted.
pub struct RevocationCheckError;

/// Fail closed: a revocation check blocks the request unless it answered
/// plainly that the token is not revoked.
pub fn revocation_blocks(check: &Result<bool, RevocationCheckError>) -> (r: bool)
    ensures
        r == !(check matches Ok(false)),
{
    match check {
        Ok(revoked) => *revoked,
        Err(_) => true,
    }
}

/// Read the token out of a bearer authorization header value.
pub fn bearer_of(h: &str) -> (r: Option<&str>)
    ensures
        match r {
            Some(t) => bearer_token(h@) == Some(t@),
            None => bearer_token(h@) is None,
        },
{
    let hl = h.unicode_len();
    if hl < 7 || h.get_char(0) != 'B' || h.get_char(1) != 'e' || h.get_char(2) != 'a'
        || h.get_char(3) != 'r' || h.get_char(4) != 'e' || h.get_char(5) != 'r'
        || h.get_char(6) != ' ' {
        proof {
            if h@.len() >= 7 {
                assert(h@.take(7) != bearer_prefix());
            }
        }
        return None;
    }
    proof {
        assert(h@.take(7) =~= bearer_prefix());
    }
    Some(h.substring_char(7, hl))
}

/// Decide one request: a missing header is 401, a header without the
/// bearer prefix is 400, a bad or revoked token is 401; a good token
/// passes, carrying its claims.
pub fn jwt_validator(
    auth_header: Option<&str>,
    secret: &str,
    store: &RevocationStore,
    now: u64,
) -> (r: GateOutcome)
    ensures
        match r {
            GateOutcome::Forward(c) => {
                &&& auth_header matches Some(h)
                &&& bearer_token(auth_header->0@) matches Some(tok)
                &&& validate_spec(encode_utf8(tok), secret.spec_bytes(), now) == Ok::<
                    (Seq<u8>, u64),
                    TokenError,
                >((encode_utf8(c.sub@), c.exp))
                &&& !revoked_spec(store@, tok, now)
            },
            GateOutcome::Reject { status, message } => {
                if auth_header is None {
                    status == 401 && message@ == "missing token"@
                } else if bearer_token(auth_header->0@) is None {
                    status == 400 && message@ == "malformed header"@
                } else if !(validate_spec(
                    encode_utf8(bearer_token(auth_header->0@)->0),
                    secret.spec_bytes(),
                    now,
                ) is Ok) {
                    status == 401 && message@ == "invalid token"@
                } else if revoked_spec(store@, bearer_token(auth_header->0@)->0, now) {
                    status == 401 && message@ == "invalid token"@
                } else {
                    false
                }
            },
        },
{
    let h = match auth_header {
        Some(h) => h,
        None => {
            return GateOutcome::Reject {
                status: 401,
                message: String::from_str("missing token"),
            };
        },
    };
    let token = match bearer_of(h) {
        Some(t) => t,
        None => {
            return GateOutcome::Reject {
                status: 400,
                message: String::from_str("malformed header"),
            };
        },
    };
    let claims = match validate_jwt(token, secret, now) {
        Ok(c) => c,
        Err(_) => {
            return GateOutcome::Reject {
                status: 401,
                message: String::from_str("invalid token"),
            };
        },
    };
    if store.is_revoked(token, now) {
        return GateOutcome::Reject {
            status: 401,
            message: String::from_str("invalid token"),
        };
    }
    GateOutcome::Forward(claims)
}

} // verus!
