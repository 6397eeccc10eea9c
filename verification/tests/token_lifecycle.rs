//! Token issue/validate, revocation, and the request gate.

use pve_gateway::gate::{jwt_validator, revocation_blocks, GateOutcome, RevocationCheckError};
use pve_gateway::jwt::{create_jwt, issue, validate_jwt, TokenError};
use pve_gateway::revocation::RevocationStore;

const NOW: u64 = 1_700_000_000;
const SECRET: &str = "test-secret";

#[test]
fn issue_then_validate_returns_subject() {
    let token = issue("alice", SECRET, 3600, NOW).unwrap();
    let claims = validate_jwt(&token, SECRET, NOW).unwrap();
    assert_eq!(claims.sub, "alice");
    assert_eq!(claims.exp, NOW + 3600);
}

#[test]
fn issue_with_nonpositive_ttl_is_expired() {
    let token = issue("alice", SECRET, 0, NOW).unwrap();
    assert!(matches!(validate_jwt(&token, SECRET, NOW), Err(TokenError::Expired)));
    let token = issue("alice", SECRET, -50, NOW).unwrap();
    assert!(matches!(validate_jwt(&token, SECRET, NOW), Err(TokenError::Expired)));
}

#[test]
fn validate_with_other_secret_is_invalid_signature() {
    let token = issue("alice", SECRET, 3600, NOW).unwrap();
    assert!(matches!(
        validate_jwt(&token, "another-secret", NOW),
        Err(TokenError::InvalidSignature)
    ));
}

#[test]
fn expiry_boundary_is_expired() {
    let token = create_jwt("bob", SECRET, NOW).unwrap();
    assert!(matches!(validate_jwt(&token, SECRET, NOW), Err(TokenError::Expired)));
    let token = create_jwt("bob", SECRET, NOW + 1).unwrap();
    assert!(validate_jwt(&token, SECRET, NOW).is_ok());
}

#[test]
fn unicode_subject_round_trips() {
    let subject = "grüße-世界-\"quoted\"\\slash\n";
    let token = create_jwt(subject, SECRET, NOW + 60).unwrap();
    let claims = validate_jwt(&token, SECRET, NOW).unwrap();
    assert_eq!(claims.sub, subject);
}

#[test]
fn malformed_tokens_are_rejected() {
    for bad in [
        "",
        "justonepart",
        "two.parts",
        "..",
        "a.b.c",
        "!!!.###.$$$",
        "eyJhbGciOiJIUzI1NiIsInR5cCI6IkpXVCJ9..sig",
    ] {
        assert!(
            matches!(validate_jwt(bad, SECRET, NOW), Err(TokenError::Malformed)),
            "expected Malformed for {:?}",
            bad
        );
    }
}

#[test]
fn tampered_claims_fail_signature() {
    let token = issue("alice", SECRET, 3600, NOW).unwrap();
    let parts: Vec<&str> = token.split('.').collect();
    assert_eq!(parts.len(), 3);
    // claims segment of a different subject under the first token's signature
    let other = issue("mallory", SECRET, 3600, NOW).unwrap();
    let other_parts: Vec<&str> = other.split('.').collect();
    let forged = format!("{}.{}.{}", parts[0], other_parts[1], parts[2]);
    assert!(matches!(
        validate_jwt(&forged, SECRET, NOW),
        Err(TokenError::InvalidSignature)
    ));
}

#[test]
fn token_is_a_standard_jwt() {
    let token = create_jwt("alice", SECRET, 4102444800).unwrap();
    assert!(token.starts_with("eyJhbGciOiJIUzI1NiIsInR5cCI6IkpXVCJ9."));
    let decoded = jsonwebtoken::decode::<serde_json::Value>(
        &token,
        &jsonwebtoken::DecodingKey::from_secret(SECRET.as_bytes()),
        &jsonwebtoken::Validation::new(jsonwebtoken::Algorithm::HS256),
    )
    .expect("an independent decoder accepts the token");
    assert_eq!(decoded.claims["sub"], serde_json::Value::String("alice".to_string()));
}

#[test]
fn revocation_is_idempotent_and_specific() {
    let mut store = RevocationStore::new();
    let token = "token-aaa";
    store.record_revocation("alice", token, 3600, NOW);
    store.record_revocation("alice", token, 3600, NOW);
    assert!(store.is_revoked(token, NOW));
    store.record_revocation("alice", token, 3600, NOW);
    assert!(store.is_revoked(token, NOW));
    assert!(!store.is_revoked("token-bbb", NOW));
}

#[test]
fn revocation_lapses_after_purge_time() {
    let mut store = RevocationStore::new();
    store.record_revocation("alice", "tok", 100, NOW);
    assert!(store.is_revoked("tok", NOW));
    assert!(store.is_revoked("tok", NOW + 99));
    assert!(!store.is_revoked("tok", NOW + 100));
}

#[test]
fn fail_closed_on_unanswered_check() {
    assert!(!revocation_blocks(&Ok(false)));
    assert!(revocation_blocks(&Ok(true)));
    assert!(revocation_blocks(&Err(RevocationCheckError)));
}

#[test]
fn gate_forwards_then_rejects_after_revocation() {
    let token = issue("alice", SECRET, 3600, NOW).unwrap();
    let header = format!("Bearer {token}");
    let mut store = RevocationStore::new();
    match jwt_validator(Some(&header), SECRET, &store, NOW) {
        GateOutcome::Forward(claims) => assert_eq!(claims.sub, "alice"),
        GateOutcome::Reject { status, message } => {
            panic!("unexpected rejection: {status} {message}")
        }
    }
    store.record_revocation("alice", &token, 3600, NOW);
    match jwt_validator(Some(&header), SECRET, &store, NOW) {
        GateOutcome::Forward(_) => panic!("revoked token must not pass"),
        GateOutcome::Reject { status, message } => {
            assert_eq!(status, 401);
            assert_eq!(message, "invalid token");
        }
    }
}

#[test]
fn gate_rejects_missing_and_malformed_headers() {
    let store = RevocationStore::new();
    match jwt_validator(None, SECRET, &store, NOW) {
        GateOutcome::Reject { status, message } => {
            assert_eq!(status, 401);
            assert_eq!(message, "missing token");
        }
        GateOutcome::Forward(_) => panic!("missing header must not pass"),
    }
    match jwt_validator(Some("Basic dXNlcjpwdw=="), SECRET, &store, NOW) {
        GateOutcome::Reject { status, message } => {
            assert_eq!(status, 400);
            assert_eq!(message, "malformed header");
        }
        GateOutcome::Forward(_) => panic!("non-bearer header must not pass"),
    }
    match jwt_validator(Some("Bearer not-a-token"), SECRET, &store, NOW) {
        GateOutcome::Reject { status, message } => {
            assert_eq!(status, 401);
            assert_eq!(message, "invalid token");
        }
        GateOutcome::Forward(_) => panic!("garbage token must not pass"),
    }
}

#[test]
fn gate_rejects_expired_token_even_with_right_secret() {
    let token = issue("alice", SECRET, -1, NOW).unwrap();
    let header = format!("Bearer {token}");
    let store = RevocationStore::new();
    assert!(matches!(
        jwt_validator(Some(&header), SECRET, &store, NOW),
        GateOutcome::Reject { status: 401, .. }
    ));
}

#[test]
fn logout_revokes_the_presented_token() {
    let token = issue("alice", SECRET, 3600, NOW).unwrap();
    let header = format!("Bearer {token}");
    let mut store = RevocationStore::new();
    assert!(pve_gateway::session::logout(&mut store, Some(&header), SECRET, 3600, NOW).is_ok());
    assert!(store.is_revoked(&token, NOW));
    match jwt_validator(Some(&header), SECRET, &store, NOW) {
        GateOutcome::Reject { status, .. } => assert_eq!(status, 401),
        GateOutcome::Forward(_) => panic!("logged-out token must not pass"),
    }
}

#[test]
fn logout_without_valid_token_leaves_store_alone() {
    let mut store = RevocationStore::new();
    let r = pve_gateway::session::logout(&mut store, None, SECRET, 3600, NOW);
    assert_eq!(r.unwrap_err(), (401, "missing token".to_string()));
    let r = pve_gateway::session::logout(&mut store, Some("Token abc"), SECRET, 3600, NOW);
    assert_eq!(r.unwrap_err(), (400, "malformed header".to_string()));
    let r = pve_gateway::session::logout(&mut store, Some("Bearer junk"), SECRET, 3600, NOW);
    assert_eq!(r.unwrap_err(), (401, "invalid token".to_string()));
}

#[test]
fn refresh_revokes_the_old_token_and_issues_a_new_one() {
    let old = issue("alice", SECRET, 3600, NOW).unwrap();
    let header = format!("Bearer {old}");
    let mut store = RevocationStore::new();
    let new = pve_gateway::session::refresh(&mut store, Some(&header), SECRET, 3600, 7200, NOW)
        .unwrap();
    assert!(store.is_revoked(&old, NOW));
    assert!(!store.is_revoked(&new, NOW));
    let claims = validate_jwt(&new, SECRET, NOW).unwrap();
    assert_eq!(claims.sub, "alice");
    assert_eq!(claims.exp, NOW + 7200);
    match jwt_validator(Some(&format!("Bearer {new}")), SECRET, &store, NOW) {
        GateOutcome::Forward(claims) => assert_eq!(claims.sub, "alice"),
        GateOutcome::Reject { status, message } => panic!("rejected: {status} {message}"),
    }
}
