//! Signed bearer tokens: three base64url segments `header.claims.signature`
//! over an HMAC-SHA256 tag.  Issuing and validation are verified against a
//! byte-exact model of the token; only the tag itself is computed by the
//! signing backend.

use crate::b64::{b64_decode, b64_decode_bytes, b64_encode, b64_encode_bytes, is_b64_byte,
    lemma_b64_encode_alphabet, lemma_b64_round_trip};
use crate::claims::{claims_bytes, claims_json, parse_claims, parse_claims_bytes,
    lemma_claims_round_trip};
use vstd::prelude::*;
use vstd::slice::slice_subrange;
use vstd::string::StringSliceAdditionalSpecFns;
use vstd::utf8::{decode_utf8, decode_utf8_encode_utf8, encode_utf8, encode_utf8_valid_utf8,
    partial_valid_utf8, partial_valid_utf8_extend_ascii_block, valid_utf8};

verus! {

/// The signed payload of a token: the subject it names and its expiry in
/// epoch seconds.
#[derive(Debug, Clone)]
pub struct Claims {
    pub sub: String,
    pub exp: u64,
}

/// Why a token fails to validate.
#[derive(Debug, Clone, Copy, PartialEq, Eq, Structural)]
pub enum TokenError {
    /// The token does not decompose into header, claims and signature.
    Malformed,
    /// The recomputed tag over header and claims differs from the
    /// supplied signature.
    InvalidSignature,
    /// The claims are genuine but their expiry has passed.
    Expired,
}

/// The base64url-encoded HMAC-SHA256 tag over a message with a key: a
/// function of the two alone, computed by the signing backend.
pub uninterp spec fn hs256_sig(msg: Seq<u8>, key: Seq<u8>) -> Seq<u8>;

/// Relies on jsonwebtoken's `crypto::sign` with `Algorithm::HS256` and a
/// key from `EncodingKey::from_secret`: the result is the base64url (no
/// padding) encoding of the HMAC-SHA256 tag, a function of message and key
/// alone; for the HMAC family with a secret key, signing never fails, and
/// every byte of the encoding is in the base64url alphabet.
#[verifier::external_body]
fn hs256_sign(msg: &[u8], key: &[u8]) -> (r: Vec<u8>)
    ensures
        r@ == hs256_sig(msg@, key@),
        forall|i: int| 0 <= i < r@.len() ==> is_b64_byte(#[trigger] r@[i]),
{
    let k = jsonwebtoken::EncodingKey::from_secret(key);
    jsonwebtoken::crypto::sign(msg, &k, jsonwebtoken::Algorithm::HS256)
        .map(|s| s.into_bytes())
        .unwrap_or_default()
}

/// `{"alg":"HS256","typ":"JWT"}` — the fixed token header.
pub open spec fn header_json() -> Seq<u8> {
    seq![
        123u8, 34u8, 97u8, 108u8, 103u8, 34u8, 58u8, 34u8, 72u8, 83u8, 50u8, 53u8, 54u8,
        34u8, 44u8, 34u8, 116u8, 121u8, 112u8, 34u8, 58u8, 34u8, 74u8, 87u8, 84u8, 34u8,
        125u8,
    ]
}

pub open spec fn header_segment() -> Seq<u8> {
    b64_encode(header_json())
}

/// What gets signed: the first two segments joined by a dot.
pub open spec fn signing_input(sub: Seq<u8>, exp: u64) -> Seq<u8> {
    header_segment() + seq![46u8] + b64_encode(claims_json(sub, exp))
}

/// The complete token for a subject (as UTF-8 bytes), an expiry and a key.
pub open spec fn token_bytes(sub: Seq<u8>, exp: u64, key: Seq<u8>) -> Seq<u8> {
    signing_input(sub, exp) + seq![46u8] + hs256_sig(signing_input(sub, exp), key)
}

/// Index of the first dot at or after `i`.
pub open spec fn first_dot_from(s: Seq<u8>, i: int) -> Option<int>
    decreases s.len() - i,
{
    if i < 0 || i >= s.len() {
        None
    } else if s[i] == 46 {
        Some(i)
    } else {
        first_dot_from(s, i + 1)
    }
}

/// Decompose a token at its first two dots: header, claims, signature.
pub open spec fn split3(t: Seq<u8>) -> Option<(Seq<u8>, Seq<u8>, Seq<u8>)> {
    match first_dot_from(t, 0) {
        None => None,
        Some(i) => match first_dot_from(t, i + 1) {
            None => None,
            Some(j) => Some((t.take(i), t.subrange(i + 1, j), t.skip(j + 1))),
        },
    }
}

/// What validation returns on any token text, key and clock reading:
/// the subject bytes and expiry of a genuine, unexpired token, or the
/// first failure in the order malformed, signature, expiry.
pub open spec fn validate_spec(token: Seq<u8>, key: Seq<u8>, now: u64) -> Result<
    (Seq<u8>, u64),
    TokenError,
> {
    match split3(token) {
        None => Err(TokenError::Malformed),
        Some(parts) => match b64_decode(parts.1) {
            None => Err(TokenError::Malformed),
            Some(cb) => match parse_claims(cb) {
                None => Err(TokenError::Malformed),
                Some(p) => if !valid_utf8(p.0) {
                    Err(TokenError::Malformed)
                } else if parts.2 != hs256_sig(parts.0 + seq![46u8] + parts.1, key) {
                    Err(TokenError::InvalidSignature)
                } else if p.1 <= now {
                    Err(TokenError::Expired)
                } else {
                    Ok(p)
                },
            },
        },
    }
}

proof fn lemma_first_dot_at(s: Seq<u8>, from: int, j: int)
    requires
        0 <= from <= j < s.len(),
        s[j] == 46,
        forall|k: int| from <= k < j ==> s[k] != 46,
    ensures
        first_dot_from(s, from) == Some(j),
    decreases j - from,
{
    if from < j {
        lemma_first_dot_at(s, from + 1, j);
    }
}

/// A sequence of ASCII bytes is valid UTF-8.
proof fn lemma_ascii_valid_utf8(b: Seq<u8>)
    requires
        forall|i: int| 0 <= i < b.len() ==> #[trigger] b[i] < 128,
    ensures
        valid_utf8(b),
{
    assert(b.subrange(0, 0) =~= Seq::<u8>::empty());
    assert(partial_valid_utf8(b, 0));
    partial_valid_utf8_extend_ascii_block(b, 0, b.len() as int);
    assert(b.subrange(0, b.len() as int) =~= b);
}

/// Every byte of a token is ASCII, so a token is a well-formed string.
proof fn lemma_token_ascii(sub: Seq<u8>, exp: u64, key: Seq<u8>)
    requires
        forall|i: int|
            0 <= i < hs256_sig(signing_input(sub, exp), key).len() ==> is_b64_byte(
                #[trigger] hs256_sig(signing_input(sub, exp), key)[i],
            ),
    ensures
        valid_utf8(token_bytes(sub, exp, key)),
{
    let h = header_segment();
    let c = b64_encode(claims_json(sub, exp));
    let si = signing_input(sub, exp);
    let g = hs256_sig(si, key);
    let t = token_bytes(sub, exp, key);
    lemma_b64_encode_alphabet(header_json());
    lemma_b64_encode_alphabet(claims_json(sub, exp));
    assert forall|i: int| 0 <= i < t.len() implies #[trigger] t[i] < 128 by {
        if i < si.len() {
            assert(t[i] == si[i]);
            if i < h.len() {
                assert(si[i] == h[i]);
            } else if i == h.len() {
                assert(si[i] == 46);
            } else {
                assert(si[i] == c[i - h.len() - 1]);
            }
        } else if i == si.len() {
            assert(t[i] == 46);
        } else {
            assert(t[i] == g[i - si.len() - 1]);
        }
    }
    lemma_ascii_valid_utf8(t);
}

/// How validation treats any token that `token_bytes` describes: the
/// outcome depends only on whether the verifying key's tag agrees with the
/// issuing key's, and on the expiry against the clock.
pub proof fn lemma_validate_token_bytes(sub: Seq<u8>, exp: u64, key: Seq<u8>, vkey: Seq<u8>, now: u64)
    requires
        valid_utf8(sub),
    ensures
        validate_spec(token_bytes(sub, exp, key), vkey, now) == (
        if hs256_sig(signing_input(sub, exp), vkey) != hs256_sig(signing_input(sub, exp), key) {
            Err::<(Seq<u8>, u64), TokenError>(TokenError::InvalidSignature)
        } else if exp <= now {
            Err::<(Seq<u8>, u64), TokenError>(TokenError::Expired)
        } else {
            Ok::<(Seq<u8>, u64), TokenError>((sub, exp))
        }),
{
    let h = header_segment();
    let c = b64_encode(claims_json(sub, exp));
    let si = signing_input(sub, exp);
    let g = hs256_sig(si, key);
    let t = token_bytes(sub, exp, key);
    let hl = h.len() as int;
    let cl = c.len() as int;
    lemma_b64_encode_alphabet(header_json());
    lemma_b64_encode_alphabet(claims_json(sub, exp));
    assert(t.len() == si.len() + 1 + g.len());
    assert(si.len() == hl + 1 + cl);
    assert forall|k: int| 0 <= k < hl implies t[k] != 46 by {
        assert(t[k] == si[k]);
        assert(si[k] == h[k]);
        assert(is_b64_byte(h[k]));
    }
    assert(t[hl] == si[hl]);
    assert(si[hl] == 46);
    lemma_first_dot_at(t, 0, hl);
    assert forall|k: int| hl + 1 <= k < hl + 1 + cl implies t[k] != 46 by {
        assert(t[k] == si[k]);
        assert(si[k] == c[k - hl - 1]);
        assert(is_b64_byte(c[k - hl - 1]));
    }
    assert(t[hl + 1 + cl] == 46);
    lemma_first_dot_at(t, hl + 1, hl + 1 + cl);
    assert(split3(t) == Some((t.take(hl), t.subrange(hl + 1, hl + 1 + cl), t.skip(hl + 2 + cl))));
    assert(t.take(hl) =~= h);
    assert(t.subrange(hl + 1, hl + 1 + cl) =~= c);
    assert(t.skip(hl + 2 + cl) =~= g);
    lemma_b64_round_trip(claims_json(sub, exp));
    lemma_claims_round_trip(sub, exp);
    assert(t.take(hl) + seq![46u8] + t.subrange(hl + 1, hl + 1 + cl) =~= si);
}

/// For every subject, secret and future expiry: the token issued for the
/// subject validates under the issuing secret, returning the same subject
/// and expiry.
pub proof fn lemma_issue_then_validate(subject: Seq<char>, exp: u64, key: Seq<u8>, now: u64)
    requires
        now < exp,
    ensures
        validate_spec(token_bytes(encode_utf8(subject), exp, key), key, now) == Ok::<
            (Seq<u8>, u64),
            TokenError,
        >((encode_utf8(subject), exp)),
{
    encode_utf8_valid_utf8(subject);
    lemma_validate_token_bytes(encode_utf8(subject), exp, key, key, now);
}

/// A token issued with a positive time to live validates at the moment
/// of issuance: same subject, expiry `now + ttl`.
pub proof fn lemma_issue_ttl_validates(subject: Seq<char>, key: Seq<u8>, ttl: i64, now: u64)
    requires
        ttl > 0,
        now + ttl <= u64::MAX,
    ensures
        validate_spec(token_bytes(encode_utf8(subject), ttl_expiry(now, ttl), key), key, now)
            == Ok::<(Seq<u8>, u64), TokenError>((encode_utf8(subject), (now + ttl) as u64)),
{
    lemma_issue_then_validate(subject, ttl_expiry(now, ttl), key, now);
}

/// A token issued with a zero or negative time to live is already expired
/// at the moment of issuance.
pub proof fn lemma_issue_ttl_expired(subject: Seq<char>, key: Seq<u8>, ttl: i64, now: u64)
    requires
        ttl <= 0,
    ensures
        validate_spec(token_bytes(encode_utf8(subject), ttl_expiry(now, ttl), key), key, now)
            == Err::<(Seq<u8>, u64), TokenError>(TokenError::Expired),
{
    lemma_validate_expired(subject, ttl_expiry(now, ttl), key, now);
}

/// A token whose expiry is not in the future fails as expired under the
/// issuing secret, however fresh the signature.
pub proof fn lemma_validate_expired(subject: Seq<char>, exp: u64, key: Seq<u8>, now: u64)
    requires
        exp <= now,
    ensures
        validate_spec(token_bytes(encode_utf8(subject), exp, key), key, now) == Err::<
            (Seq<u8>, u64),
            TokenError,
        >(TokenError::Expired),
{
    encode_utf8_valid_utf8(subject);
    lemma_validate_token_bytes(encode_utf8(subject), exp, key, key, now);
}

/// Validating under a secret whose tag over this token's signing input
/// differs from the issuing secret's fails with `InvalidSignature`.  Two
/// distinct secrets whose tags collide on this input cannot be told apart
/// by any verifier and are excluded by the premise.
pub proof fn lemma_validate_wrong_secret(
    subject: Seq<char>,
    exp: u64,
    key: Seq<u8>,
    vkey: Seq<u8>,
    now: u64,
)
    requires
        hs256_sig(signing_input(encode_utf8(subject), exp), vkey) != hs256_sig(
            signing_input(encode_utf8(subject), exp),
            key,
        ),
    ensures
        validate_spec(token_bytes(encode_utf8(subject), exp, key), vkey, now) == Err::<
            (Seq<u8>, u64),
            TokenError,
        >(TokenError::InvalidSignature),
{
    encode_utf8_valid_utf8(subject);
    lemma_validate_token_bytes(encode_utf8(subject), exp, key, vkey, now);
}

/// Relies on `String::from_utf8`: it succeeds exactly on valid UTF-8 and
/// decodes it.
#[verifier::external_body]
fn bytes_to_string(v: Vec<u8>) -> (r: Option<String>)
    ensures
        r is Some <==> valid_utf8(v@),
        r is Some ==> r->0@ == decode_utf8(v@),
{
    String::from_utf8(v).ok()
}

/// Byte-for-byte equality of two byte strings.
fn eq_bytes(a: &[u8], b: &[u8]) -> (r: bool)
    ensures
        r == (a@ == b@),
{
    if a.len() != b.len() {
        proof {
            assert(a@ != b@);
        }
        return false;
    }
    let mut i: usize = 0;
    while i < a.len()
        invariant
            i <= a.len(),
            a@.len() == b@.len(),
            forall|k: int| 0 <= k < i ==> a@[k] == b@[k],
        decreases a.len() - i,
    {
        if a[i] != b[i] {
            proof {
                assert(a@[i as int] != b@[i as int]);
            }
            return false;
        }
        i = i + 1;
    }
    proof {
        assert(a@ =~= b@);
    }
    true
}

/// The fixed header segment, as bytes.
fn header_segment_bytes() -> (r: Vec<u8>)
    ensures
        r@ == header_segment(),
{
    let mut hj: Vec<u8> = Vec::new();
    hj.push(123);
    hj.push(34);
    hj.push(97);
    hj.push(108);
    hj.push(103);
    hj.push(34);
    hj.push(58);
    hj.push(34);
    hj.push(72);
    hj.push(83);
    hj.push(50);
    hj.push(53);
    hj.push(54);
    hj.push(34);
    hj.push(44);
    hj.push(34);
    hj.push(116);
    hj.push(121);
    hj.push(112);
    hj.push(34);
    hj.push(58);
    hj.push(34);
    hj.push(74);
    hj.push(87);
    hj.push(84);
    hj.push(34);
    hj.push(125);
    proof {
        assert(hj@ =~= header_json());
    }
    b64_encode_bytes(hj.as_slice())
}

/// Issue a signed token naming `username`, expiring at `expiry` (epoch
/// seconds), under the given secret.
pub fn create_jwt(username: &str, secret: &str, expiry: u64) -> (r: Result<String, TokenError>)
    ensures
        match r {
            Ok(t) => t@.len() > 0 && vstd::utf8::encode_utf8(t@) == token_bytes(
                username.spec_bytes(),
                expiry,
                secret.spec_bytes(),
            ),
            Err(_) => false,
        },
{
    let sub = username.as_bytes();
    let key = secret.as_bytes();
    let mut t = header_segment_bytes();
    t.push(46);
    let cj = claims_bytes(sub, expiry);
    let mut cseg = b64_encode_bytes(cj.as_slice());
    t.append(&mut cseg);
    let ghost si = signing_input(sub@, expiry);
    proof {
        assert(t@ =~= si);
    }
    let sig = hs256_sign(t.as_slice(), key);
    let ghost sig_view = sig@;
    t.push(46);
    let mut sig_mut = sig;
    t.append(&mut sig_mut);
    proof {
        assert(t@ =~= token_bytes(sub@, expiry, key@));
        lemma_token_ascii(sub@, expiry, key@);
        assert(t@.len() > 0);
    }
    let ghost tv = t@;
    match bytes_to_string(t) {
        Some(s) => {
            proof {
                decode_utf8_encode_utf8(tv);
            }
            Ok(s)
        },
        None => Err(TokenError::Malformed),
    }
}

/// The expiry that a time to live denotes from `now`: `now + ttl` for a
/// positive ttl, and the epoch itself (already past) otherwise.
pub open spec fn ttl_expiry(now: u64, ttl: i64) -> u64 {
    if ttl <= 0 {
        0u64
    } else {
        (now + ttl) as u64
    }
}

/// Issue a token with a time to live measured from `now`.  A zero or
/// negative ttl yields a token that is already expired.
pub fn issue(subject: &str, secret: &str, ttl: i64, now: u64) -> (r: Result<String, TokenError>)
    requires
        ttl > 0 ==> now + ttl <= u64::MAX,
    ensures
        match r {
            Ok(t) => t@.len() > 0 && vstd::utf8::encode_utf8(t@) == token_bytes(
                subject.spec_bytes(),
                ttl_expiry(now, ttl),
                secret.spec_bytes(),
            ),
            Err(_) => false,
        },
{
    let expiry: u64 = if ttl <= 0 {
        0
    } else {
        now + (ttl as u64)
    };
    create_jwt(subject, secret, expiry)
}

/// Validate a token against a secret at clock reading `now`, as
/// `validate_spec` describes: the claims of a genuine unexpired token, or
/// the first failure among `Malformed`, `InvalidSignature`, `Expired`.
#[verifier::loop_isolation(false)]
pub fn validate_jwt(token: &str, secret: &str, now: u64) -> (r: Result<Claims, TokenError>)
    ensures
        match r {
            Ok(c) => validate_spec(token.spec_bytes(), secret.spec_bytes(), now) == Ok::<
                (Seq<u8>, u64),
                TokenError,
            >((vstd::utf8::encode_utf8(c.sub@), c.exp)),
            Err(e) => validate_spec(token.spec_bytes(), secret.spec_bytes(), now) == Err::<
                (Seq<u8>, u64),
                TokenError,
            >(e),
        },
{
    let tb = token.as_bytes();
    let ghost tv = tb@;
    // find the first two dots
    let mut i: usize = 0;
    while i < tb.len() && tb[i] != 46
        invariant
            i <= tb@.len(),
            forall|k: int| 0 <= k < i ==> tv[k] != 46,
        decreases tb@.len() - i,
    {
        i = i + 1;
    }
    if i == tb.len() {
        proof {
            lemma_no_dot_from(tv, 0);
        }
        return Err(TokenError::Malformed);
    }
    proof {
        lemma_first_dot_at(tv, 0, i as int);
    }
    let mut j: usize = i + 1;
    while j < tb.len() && tb[j] != 46
        invariant
            i < j <= tb@.len(),
            forall|k: int| i < k < j ==> tv[k] != 46,
        decreases tb@.len() - j,
    {
        j = j + 1;
    }
    if j == tb.len() {
        proof {
            lemma_no_dot_from(tv, i as int + 1);
        }
        return Err(TokenError::Malformed);
    }
    proof {
        lemma_first_dot_at(tv, i as int + 1, j as int);
        assert(split3(tv) == Some((tv.take(i as int), tv.subrange(i as int + 1, j as int),
            tv.skip(j as int + 1))));
    }
    let claims_seg = slice_subrange(tb, i + 1, j);
    let cb = match b64_decode_bytes(claims_seg) {
        Some(v) => v,
        None => {
            return Err(TokenError::Malformed);
        },
    };
    let parsed = match parse_claims_bytes(cb.as_slice()) {
        Some(p) => p,
        None => {
            return Err(TokenError::Malformed);
        },
    };
    let (sub_bytes, exp) = parsed;
    let ghost sub_view = sub_bytes@;
    let sub = match bytes_to_string(sub_bytes) {
        Some(s) => s,
        None => {
            return Err(TokenError::Malformed);
        },
    };
    let signing = slice_subrange(tb, 0, j);
    let sig = hs256_sign(signing, secret.as_bytes());
    let sig_seg = slice_subrange(tb, j + 1, tb.len());
    proof {
        assert(tv.take(i as int) + seq![46u8] + tv.subrange(i as int + 1, j as int) =~= tv.subrange(
            0,
            j as int,
        ));
    }
    if !eq_bytes(sig.as_slice(), sig_seg) {
        return Err(TokenError::InvalidSignature);
    }
    if exp <= now {
        return Err(TokenError::Expired);
    }
    proof {
        vstd::utf8::decode_utf8_encode_utf8(sub_view);
    }
    Ok(Claims { sub, exp })
}

proof fn lemma_no_dot_from(s: Seq<u8>, from: int)
    requires
        0 <= from,
        forall|k: int| from <= k < s.len() ==> s[k] != 46,
    ensures
        first_dot_from(s, from) is None,
    decreases s.len() - from,
{
    if from < s.len() {
        lemma_no_dot_from(s, from + 1);
    }
}

} // verus!

