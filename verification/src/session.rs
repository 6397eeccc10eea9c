//! Session flows over the token service and the revocation store: logging
//! a bearer out, and refreshing it into a new token.  Either way the old
//! token is recorded as revoked with a grace window, so that it cannot be
//! replayed while it is still cryptographically valid.

use crate::gate::{bearer_of, bearer_token};
use crate::jwt::{issue, token_bytes, ttl_expiry, validate_jwt, validate_spec, TokenError};
use crate::revocation::{revoked_spec, RevocationStore};
use vstd::prelude::*;
use vstd::string::StringSliceAdditionalSpecFns;
use vstd::utf8::encode_utf8;

verus! {

/// Log a bearer out: validate the presented token, then record it as
/// revoked for `grace_window` seconds.  On failure the store is untouched
/// and the status and message mirror the request gate's.
pub fn logout(
    store: &mut RevocationStore,
    auth_header: Option<&str>,
    secret: &str,
    grace_window: u64,
    now: u64,
) -> (r: Result<(), (u16, String)>)
    requires
        grace_window > 0,
        now + grace_window <= u64::MAX,
    ensures
        match r {
            Ok(_) => {
                &&& auth_header matches Some(h)
                &&& bearer_token(auth_header->0@) matches Some(tok)
                &&& validate_spec(encode_utf8(tok), secret.spec_bytes(), now) is Ok
                &&& final(store)@.len() == old(store)@.len() + 1
                &&& final(store)@.drop_last() == old(store)@
                &&& final(store)@.last().token@ == tok
                &&& final(store)@.last().purge_after == now + grace_window
                &&& revoked_spec(final(store)@, tok, now)
            },
            Err(e) => {
                &&& final(store)@ == old(store)@
                &&& if auth_header is None {
                    e.0 == 401 && e.1@ == "missing token"@
                } else if bearer_token(auth_header->0@) is None {
                    e.0 == 400 && e.1@ == "malformed header"@
                } else if !(validate_spec(
                    encode_utf8(bearer_token(auth_header->0@)->0),
                    secret.spec_bytes(),
                    now,
                ) is Ok) {
                    e.0 == 401 && e.1@ == "invalid token"@
                } else {
                    false
                }
            },
        },
{
    let h = match auth_header {
        Some(h) => h,
        None => {
            return Err((401, String::from_str("missing token")));
        },
    };
    let token = match bearer_of(h) {
        Some(t) => t,
        None => {
            return Err((400, String::from_str("malformed header")));
        },
    };
    let claims = match validate_jwt(token, secret, now) {
        Ok(c) => c,
        Err(_) => {
            return Err((401, String::from_str("invalid token")));
        },
    };
    store.record_revocation(claims.sub.as_str(), token, grace_window, now);
    proof {
        let last = store@.len() - 1;
        assert(store@[last].token@ == token@ && store@[last].purge_after > now);
    }
    Ok(())
}

/// Refresh a bearer: validate the presented token, revoke it, and issue a
/// fresh token for the same subject with a time to live from `now`.  On
/// failure the store is untouched.
pub fn refresh(
    store: &mut RevocationStore,
    auth_header: Option<&str>,
    secret: &str,
    grace_window: u64,
    ttl: i64,
    now: u64,
) -> (r: Result<String, (u16, String)>)
    requires
        grace_window > 0,
        now + grace_window <= u64::MAX,
        ttl > 0 ==> now + ttl <= u64::MAX,
    ensures
        match r {
            Ok(t) => {
                &&& auth_header matches Some(h)
                &&& bearer_token(auth_header->0@) matches Some(tok)
                &&& validate_spec(encode_utf8(tok), secret.spec_bytes(), now) matches Ok(p)
                &&& encode_utf8(t@) == token_bytes(p.0, ttl_expiry(now, ttl), secret.spec_bytes())
                &&& final(store)@.len() == old(store)@.len() + 1
                &&& final(store)@.drop_last() == old(store)@
                &&& final(store)@.last().token@ == tok
                &&& revoked_spec(final(store)@, tok, now)
            },
            Err(e) => {
                &&& final(store)@ == old(store)@
                &&& if auth_header is None {
                    e.0 == 401 && e.1@ == "missing token"@
                } else if bearer_token(auth_header->0@) is None {
                    e.0 == 400 && e.1@ == "malformed header"@
                } else if !(validate_spec(
                    encode_utf8(bearer_token(auth_header->0@)->0),
                    secret.spec_bytes(),
                    now,
                ) is Ok) {
                    e.0 == 401 && e.1@ == "invalid token"@
                } else {
                    false
                }
            },
        },
{
    let h = match auth_header {
        Some(h) => h,
        None => {
            return Err((401, String::from_str("missing token")));
        },
    };
    let token = match bearer_of(h) {
        Some(t) => t,
        None => {
            return Err((400, String::from_str("malformed header")));
        },
    };
    let claims = match validate_jwt(token, secret, now) {
        Ok(c) => c,
        Err(_) => {
            return Err((401, String::from_str("invalid token")));
        },
    };
    store.record_revocation(claims.sub.as_str(), token, grace_window, now);
    proof {
        let last = store@.len() - 1;
        assert(store@[last].token@ == token@ && store@[last].purge_after > now);
    }
    match issue(claims.sub.as_str(), secret, ttl, now) {
        Ok(t) => Ok(t),
        Err(_) => Err((500, String::from_str("token issuance failed"))),
    }
}

} // verus!
