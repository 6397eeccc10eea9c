//! Builder, authentication strategies, path resolution and response
//! classification of the upstream client.

use pve_gateway::b64::{b64_decode_bytes, b64_encode_bytes};
use pve_gateway::claims::{claims_bytes, parse_claims_bytes};
use pve_gateway::client::{
    interpret_response, AuthMethod, ClientBuilder, ClientBuilderError, Error, Method,
    TokenAuthMethod,
};

#[test]
fn token_header_is_exact() {
    let t = TokenAuthMethod {
        username: "u@r".to_string(),
        token_name: "t".to_string(),
        secret: "s".to_string(),
    };
    assert_eq!(t.header(), "PVEAPIToken=u@r!t=s");
}

#[test]
fn auth_method_token_builds_the_strategy() {
    match AuthMethod::token("root@pam".to_string(), "ci".to_string(), "abc".to_string()) {
        AuthMethod::Token(t) => {
            assert_eq!(t.username, "root@pam");
            assert_eq!(t.token_name, "ci");
            assert_eq!(t.secret, "abc");
            assert_eq!(t.header(), "PVEAPIToken=root@pam!ci=abc");
        }
        AuthMethod::NoAuth => panic!("token() must build the token strategy"),
    }
}

#[test]
fn build_without_base_url_fails() {
    assert!(matches!(
        ClientBuilder::default().build(),
        Err(ClientBuilderError::InvalidParameters)
    ));
}

#[test]
fn build_keeps_the_configuration() {
    let client = ClientBuilder::default()
        .with_base_url("https://pve.example:8006/api2/json".to_string())
        .with_insecure_tls(true)
        .with_auth_method(AuthMethod::token(
            "root@pam".to_string(),
            "ci".to_string(),
            "abc".to_string(),
        ))
        .build()
        .unwrap();
    assert_eq!(client.base_url, "https://pve.example:8006/api2/json");
    assert!(client.tls_insecure);
    assert!(matches!(client.auth_method, AuthMethod::Token(_)));
}

#[test]
fn relative_paths_join_under_the_base_url() {
    let client = ClientBuilder::default()
        .with_base_url("https://pve.example:8006/api2/json".to_string())
        .build()
        .unwrap();
    let env = client.get("nodes", vec![]);
    assert_eq!(env.method, Method::Get);
    assert_eq!(env.url, "https://pve.example:8006/api2/json/nodes");
    assert!(env.auth_header.is_none());
    let env = client.get("/version", vec![]);
    assert_eq!(env.url, "https://pve.example:8006/api2/json/version");
}

#[test]
fn absolute_paths_stand_alone_under_the_origin() {
    let client = ClientBuilder::default()
        .with_base_url("https://pve.example:8006/api2/json/".to_string())
        .build()
        .unwrap();
    let env = client.request(Method::Get, "/api2/json/nodes", None, None);
    assert_eq!(env.url, "https://pve.example:8006/api2/json/nodes");
}

#[test]
fn envelope_carries_the_auth_header() {
    let client = ClientBuilder::default()
        .with_base_url("https://pve.example:8006".to_string())
        .with_auth_method(AuthMethod::token(
            "root@pam".to_string(),
            "ci".to_string(),
            "abc".to_string(),
        ))
        .build()
        .unwrap();
    let body: serde_json::Value = serde_json::from_str("{\"name\":\"n1\"}").unwrap();
    let env = client.post("nodes", body.clone());
    assert_eq!(env.method, Method::Post);
    assert_eq!(env.url, "https://pve.example:8006/nodes");
    assert_eq!(env.auth_header.as_deref(), Some("PVEAPIToken=root@pam!ci=abc"));
    assert_eq!(env.body, Some(body));
    let env = client.put("nodes/1", serde_json::Value::Null);
    assert_eq!(env.method, Method::Put);
    let env = client.delete("nodes/1", vec![("force".to_string(), "1".to_string())]);
    assert_eq!(env.method, Method::Delete);
    assert_eq!(
        env.query,
        Some(vec![("force".to_string(), "1".to_string())])
    );
}

#[test]
fn success_with_data_decodes_the_payload() {
    let v = interpret_response(200, "{\"data\":{\"x\":1}}").unwrap();
    let expected: serde_json::Value = serde_json::from_str("{\"x\":1}").unwrap();
    assert_eq!(v, expected);
}

#[test]
fn failure_status_reports_the_errors_payload() {
    match interpret_response(500, "{\"errors\":{\"msg\":\"bad\"}}") {
        Err(Error::APIError(status, payload)) => {
            assert_eq!(status, 500);
            let expected: serde_json::Value = serde_json::from_str("{\"msg\":\"bad\"}").unwrap();
            assert_eq!(payload, Some(expected));
        }
        other => panic!("expected APIError, got {other:?}"),
    }
}

#[test]
fn failure_status_without_payload_still_reports_the_status() {
    match interpret_response(404, "") {
        Err(Error::APIError(status, payload)) => {
            assert_eq!(status, 404);
            assert_eq!(payload, None);
        }
        other => panic!("expected APIError, got {other:?}"),
    }
    match interpret_response(503, "no json here") {
        Err(Error::APIError(status, payload)) => {
            assert_eq!(status, 503);
            assert_eq!(payload, None);
        }
        other => panic!("expected APIError, got {other:?}"),
    }
}

#[test]
fn success_without_data_is_a_decode_error() {
    assert!(matches!(interpret_response(200, "{\"x\":1}"), Err(Error::JsonError)));
    assert!(matches!(interpret_response(204, ""), Err(Error::JsonError)));
    assert!(matches!(interpret_response(200, "not json"), Err(Error::JsonError)));
}

#[test]
fn base64url_round_trips_and_rejects_junk() {
    let cases: Vec<&[u8]> = vec![b"", b"f", b"fo", b"foo", b"foob", b"fooba", b"foobar"];
    let expected = ["", "Zg", "Zm8", "Zm9v", "Zm9vYg", "Zm9vYmE", "Zm9vYmFy"];
    for (bytes, want) in cases.iter().zip(expected.iter()) {
        let enc = b64_encode_bytes(bytes);
        assert_eq!(std::str::from_utf8(&enc).unwrap(), *want);
        let dec = b64_decode_bytes(&enc).unwrap();
        assert_eq!(&dec, bytes);
    }
    assert!(b64_decode_bytes(b"a").is_none());
    assert!(b64_decode_bytes(b"a.b").is_none());
    assert!(b64_decode_bytes(b"Zm9vYmFyZ").is_none());
    // non-canonical trailing bits
    assert!(b64_decode_bytes(b"Zh").is_none());
}

#[test]
fn claims_document_is_exact_json() {
    let text = claims_bytes(b"alice", 1700000000);
    assert_eq!(
        std::str::from_utf8(&text).unwrap(),
        "{\"sub\":\"alice\",\"exp\":1700000000}"
    );
    let (sub, exp) = parse_claims_bytes(&text).unwrap();
    assert_eq!(&sub, b"alice");
    assert_eq!(exp, 1700000000);
}

#[test]
fn claims_document_escapes_and_round_trips() {
    let sub = "a\"b\\c\nd".as_bytes();
    let text = claims_bytes(sub, 0);
    assert_eq!(
        std::str::from_utf8(&text).unwrap(),
        "{\"sub\":\"a\\\"b\\\\c\\u000ad\",\"exp\":0}"
    );
    let (parsed, exp) = parse_claims_bytes(&text).unwrap();
    assert_eq!(parsed, sub);
    assert_eq!(exp, 0);
    assert!(parse_claims_bytes(b"{\"sub\":\"a\",\"exp\":}").is_none());
    assert!(parse_claims_bytes(b"{\"sub\":\"a\",\"exp\":12extra}").is_none());
    assert!(parse_claims_bytes(b"{\"sub\":\"a\"}").is_none());
    assert!(parse_claims_bytes(b"{\"sub\":\"a\",\"exp\":99999999999999999999999}").is_none());
}
