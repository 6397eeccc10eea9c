//! The upstream client's envelope logic: a validating builder, a closed
//! set of authentication strategies, path resolution against the base URL,
//! and the classification of upstream responses.  The transport that sends
//! an envelope and returns a status and body lives outside the library.

use vstd::prelude::*;
use vstd::string::{StrSliceExecFns, StringExecFns, StringSliceAdditionalSpecFns};

verus! {

#[verifier::external_type_specification]
#[verifier::external_body]
pub struct ExValue(serde_json::Value);

/// Whether `text` parses as a JSON document whose top level is an object
/// holding the field `name`: a function of the text alone.
pub uninterp spec fn json_field(text: Seq<char>, name: Seq<char>) -> bool;

/// Relies on serde_json::from_str and Value::get: the named field of the
/// parsed document, present exactly when the text is a JSON object with
/// that field.
#[verifier::external_body]
fn json_field_of(body: &str, name: &str) -> (r: Option<serde_json::Value>)
    ensures
        r is Some == json_field(body@, name@),
{
    match serde_json::from_str::<serde_json::Value>(body) {
        Ok(v) => v.get(name).cloned(),
        Err(_) => None,
    }
}

/// The four request methods the upstream client issues.
#[derive(Debug, Clone, Copy, PartialEq, Eq, Structural)]
pub enum Method {
    Get,
    Post,
    Put,
    Delete,
}

/// Token-based authentication against the upstream API.
#[derive(Debug, Clone)]
pub struct TokenAuthMethod {
    pub username: String,
    pub token_name: String,
    pub secret: String,
}

/// The authorization header value that a token strategy injects.
pub open spec fn pve_token_header(
    username: Seq<char>,
    token_name: Seq<char>,
    secret: Seq<char>,
) -> Seq<char> {
    "PVEAPIToken="@ + username + seq!['!'] + token_name + seq!['='] + secret
}

impl TokenAuthMethod {
    /// The header value `PVEAPIToken=<username>!<token_name>=<secret>`.
    pub fn header(&self) -> (r: String)
        ensures
            r@ == pve_token_header(self.username@, self.token_name@, self.secret@),
    {
        let mut out = String::from_str("PVEAPIToken=");
        out.append(self.username.as_str());
        out.append("!");
        out.append(self.token_name.as_str());
        out.append("=");
        out.append(self.secret.as_str());
        proof {
            reveal_strlit("!");
            reveal_strlit("=");
            assert(out@ =~= pve_token_header(self.username@, self.token_name@, self.secret@));
        }
        out
    }
}

/// How outgoing requests authenticate: not at all, or with an API token.
#[derive(Debug, Clone)]
pub enum AuthMethod {
    /// No authentication
    NoAuth,
    /// Token-based authentication
    Token(TokenAuthMethod),
}

impl Default for AuthMethod {
    fn default() -> (r: Self)
        ensures
            r matches AuthMethod::NoAuth,
    {
        AuthMethod::NoAuth
    }
}

impl AuthMethod {
    /// The token strategy for the given identity and secret.
    pub fn token(username: String, token_name: String, secret: String) -> (r: Self)
        ensures
            r matches AuthMethod::Token(t) && t.username == username && t.token_name == token_name
                && t.secret == secret,
    {
        AuthMethod::Token(TokenAuthMethod { username, token_name, secret })
    }
}

/// Builder for a `Client`; only the base URL is required.
#[derive(Debug, Clone)]
pub struct ClientBuilder {
    pub base_url: Option<String>,
    pub tls_insecure: bool,
    pub auth_method: AuthMethod,
}

/// Why a client could not be built.
#[derive(Debug, Clone)]
pub enum ClientBuilderError {
    /// A required parameter is missing.
    InvalidParameters,
    /// The transport layer refused its configuration.
    UnderlyingError(String),
}

impl Default for ClientBuilder {
    fn default() -> (r: Self)
        ensures
            r.base_url is None,
            !r.tls_insecure,
            r.auth_method matches AuthMethod::NoAuth,
    {
        ClientBuilder { base_url: None, tls_insecure: false, auth_method: AuthMethod::NoAuth }
    }
}

/// The immutable configuration of one upstream client.
#[derive(Debug, Clone)]
pub struct Client {
    pub base_url: String,
    pub tls_insecure: bool,
    pub auth_method: AuthMethod,
}

impl ClientBuilder {
    pub fn with_base_url(self, url: String) -> (r: Self)
        ensures
            r.base_url == Some(url),
            r.tls_insecure == self.tls_insecure,
            r.auth_method == self.auth_method,
    {
        ClientBuilder { base_url: Some(url), ..self }
    }

    pub fn with_insecure_tls(self, enable: bool) -> (r: Self)
        ensures
            r.base_url == self.base_url,
            r.tls_insecure == enable,
            r.auth_method == self.auth_method,
    {
        ClientBuilder { tls_insecure: enable, ..self }
    }

    pub fn with_auth_method(self, auth_method: AuthMethod) -> (r: Self)
        ensures
            r.base_url == self.base_url,
            r.tls_insecure == self.tls_insecure,
            r.auth_method == auth_method,
    {
        ClientBuilder { auth_method, ..self }
    }

    /// Build the client: fails exactly when no base URL was given.
    pub fn build(self) -> (r: Result<Client, ClientBuilderError>)
        ensures
            match r {
                Ok(c) => {
                    &&& self.base_url matches Some(u)
                    &&& c.base_url == u
                    &&& c.tls_insecure == self.tls_insecure
                    &&& c.auth_method == self.auth_method
                },
                Err(e) => self.base_url is None && e matches ClientBuilderError::InvalidParameters,
            },
    {
        match self.base_url {
            Some(u) => Ok(
                Client {
                    base_url: u,
                    tls_insecure: self.tls_insecure,
                    auth_method: self.auth_method,
                },
            ),
            None => Err(ClientBuilderError::InvalidParameters),
        }
    }
}

/// How many `/` the path starts with.
pub open spec fn count_leading_slashes(p: Seq<char>) -> int
    decreases p.len(),
{
    if p.len() == 0 || p[0] != '/' {
        0
    } else {
        1 + count_leading_slashes(p.skip(1))
    }
}

/// How many `/` the base ends with.
pub open spec fn count_trailing_slashes(b: Seq<char>) -> int
    decreases b.len(),
{
    if b.len() == 0 || b.last() != '/' {
        0
    } else {
        1 + count_trailing_slashes(b.drop_last())
    }
}

pub open spec fn sep_at(s: Seq<char>, i: int) -> bool {
    s[i] == ':' && s[i + 1] == '/' && s[i + 2] == '/'
}

/// The first position of `://` at or after `i`.
pub open spec fn find_sep_from(s: Seq<char>, i: int) -> Option<int>
    decreases s.len() - i,
{
    if i < 0 || i + 3 > s.len() {
        None
    } else if sep_at(s, i) {
        Some(i)
    } else {
        find_sep_from(s, i + 1)
    }
}

/// The first `/` at or after `i`.
pub open spec fn first_slash_from(s: Seq<char>, i: int) -> Option<int>
    decreases s.len() - i,
{
    if i < 0 || i >= s.len() {
        None
    } else if s[i] == '/' {
        Some(i)
    } else {
        first_slash_from(s, i + 1)
    }
}

/// The scheme and authority of a URL: everything before the first `/`
/// that follows `://`; the whole text when it has no path.
pub open spec fn origin(base: Seq<char>) -> Seq<char> {
    match find_sep_from(base, 0) {
        None => base,
        Some(k) => match first_slash_from(base, k + 3) {
            None => base,
            Some(m) => base.take(m),
        },
    }
}

/// `api2/json` — the upstream API's versioned prefix.
pub open spec fn api_prefix() -> Seq<char> {
    seq!['a', 'p', 'i', '2', '/', 'j', 's', 'o', 'n']
}

/// Resolve a request path against the base URL.  A path already rooted at
/// the versioned prefix is absolute: it stands alone under the base's
/// origin.  Any other path is relative: it is joined under the base URL.
pub open spec fn resolve_path(base: Seq<char>, path: Seq<char>) -> Seq<char> {
    let p = path.skip(count_leading_slashes(path));
    if p.len() >= 9 && p.take(9) == api_prefix() {
        origin(base) + seq!['/'] + p
    } else {
        base.take(base.len() - count_trailing_slashes(base)) + seq!['/'] + p
    }
}

proof fn lemma_leading_slashes(p: Seq<char>, i: int)
    requires
        0 <= i <= p.len(),
        forall|k: int| 0 <= k < i ==> p[k] == '/',
        i < p.len() ==> p[i] != '/',
    ensures
        count_leading_slashes(p) == i,
    decreases i,
{
    if i == 0 {
    } else {
        lemma_leading_slashes(p.skip(1), i - 1);
    }
}

proof fn lemma_trailing_slashes(b: Seq<char>, e: int)
    requires
        0 <= e <= b.len(),
        forall|k: int| e <= k < b.len() ==> b[k] == '/',
        e > 0 ==> b[e - 1] != '/',
    ensures
        count_trailing_slashes(b) == b.len() - e,
    decreases b.len() - e,
{
    if e == b.len() {
    } else {
        lemma_trailing_slashes(b.drop_last(), e);
    }
}

proof fn lemma_sep_found(s: Seq<char>, from: int, j: int)
    requires
        0 <= from <= j,
        j + 3 <= s.len(),
        sep_at(s, j),
        forall|k: int| from <= k < j ==> !sep_at(s, k),
    ensures
        find_sep_from(s, from) == Some(j),
    decreases j - from,
{
    if from < j {
        lemma_sep_found(s, from + 1, j);
    }
}

proof fn lemma_sep_none(s: Seq<char>, from: int)
    requires
        0 <= from,
        forall|k: int| from <= k && k + 3 <= s.len() ==> !sep_at(s, k),
    ensures
        find_sep_from(s, from) is None,
    decreases s.len() - from,
{
    if from + 3 <= s.len() {
        lemma_sep_none(s, from + 1);
    }
}

proof fn lemma_slash_found(s: Seq<char>, from: int, j: int)
    requires
        0 <= from <= j < s.len(),
        s[j] == '/',
        forall|k: int| from <= k < j ==> s[k] != '/',
    ensures
        first_slash_from(s, from) == Some(j),
    decreases j - from,
{
    if from < j {
        lemma_slash_found(s, from + 1, j);
    }
}

proof fn lemma_slash_none(s: Seq<char>, from: int)
    requires
        0 <= from,
        forall|k: int| from <= k < s.len() ==> s[k] != '/',
    ensures
        first_slash_from(s, from) is None,
    decreases s.len() - from,
{
    if from < s.len() {
        lemma_slash_none(s, from + 1);
    }
}

/// The base's origin, as a string.
#[verifier::loop_isolation(false)]
fn origin_of(base: &str) -> (r: String)
    ensures
        r@ == origin(base@),
{
    let bl = base.unicode_len();
    let mut k: usize = 0;
    while bl - k >= 3 && !(base.get_char(k) == ':' && base.get_char(k + 1) == '/'
        && base.get_char(k + 2) == '/')
        invariant
            k <= bl,
            forall|t: int| 0 <= t < k ==> !sep_at(base@, t),
        decreases bl - k,
    {
        k = k + 1;
    }
    if bl - k < 3 {
        proof {
            lemma_sep_none(base@, 0);
        }
        return base.to_owned();
    }
    proof {
        lemma_sep_found(base@, 0, k as int);
    }
    let mut m: usize = k + 3;
    while m < bl && base.get_char(m) != '/'
        invariant
            k + 3 <= m <= bl,
            forall|t: int| k + 3 <= t < m ==> base@[t] != '/',
        decreases bl - m,
    {
        m = m + 1;
    }
    if m == bl {
        proof {
            lemma_slash_none(base@, k as int + 3);
        }
        return base.to_owned();
    }
    proof {
        lemma_slash_found(base@, k as int + 3, m as int);
    }
    let o = base.substring_char(0, m);
    o.to_owned()
}

/// Resolve a request path against the base URL, as `resolve_path` says.
#[verifier::loop_isolation(false)]
pub fn resolve_url(base: &str, path: &str) -> (r: String)
    ensures
        r@ == resolve_path(base@, path@),
{
    let pl = path.unicode_len();
    let mut i: usize = 0;
    while i < pl && path.get_char(i) == '/'
        invariant
            i <= pl,
            forall|k: int| 0 <= k < i ==> path@[k] == '/',
        decreases pl - i,
    {
        i = i + 1;
    }
    proof {
        lemma_leading_slashes(path@, i as int);
    }
    let p = path.substring_char(i, pl);
    let ghost pv = path@.skip(i as int);
    let pn = p.unicode_len();
    let absolute = pn >= 9 && p.get_char(0) == 'a' && p.get_char(1) == 'p' && p.get_char(2) == 'i'
        && p.get_char(3) == '2' && p.get_char(4) == '/' && p.get_char(5) == 'j'
        && p.get_char(6) == 's' && p.get_char(7) == 'o' && p.get_char(8) == 'n';
    proof {
        if absolute {
            assert(pv.take(9) =~= api_prefix());
        } else if pv.len() >= 9 {
            assert(pv.take(9) != api_prefix());
        }
    }
    if absolute {
        let mut out = origin_of(base);
        out.append("/");
        out.append(p);
        proof {
            reveal_strlit("/");
            assert(out@ =~= resolve_path(base@, path@));
        }
        out
    } else {
        let bl = base.unicode_len();
        let mut e: usize = bl;
        while e > 0 && base.get_char(e - 1) == '/'
            invariant
                e <= bl,
                forall|k: int| e <= k < bl ==> base@[k] == '/',
            decreases e,
        {
            e = e - 1;
        }
        proof {
            lemma_trailing_slashes(base@, e as int);
        }
        let trimmed = base.substring_char(0, e);
        let mut out = trimmed.to_owned();
        out.append("/");
        out.append(p);
        proof {
            reveal_strlit("/");
            assert(out@ =~= resolve_path(base@, path@));
        }
        out
    }
}

/// One outgoing call, fully prepared: everything the transport needs.
pub struct RequestEnvelope {
    pub method: Method,
    pub url: String,
    pub auth_header: Option<String>,
    pub query: Option<Vec<(String, String)>>,
    pub body: Option<serde_json::Value>,
}

impl Client {
    /// Prepare one call: resolve the path, inject the configured
    /// authentication header, and carry method, query and body through.
    pub fn request(
        &self,
        method: Method,
        path: &str,
        query: Option<Vec<(String, String)>>,
        body: Option<serde_json::Value>,
    ) -> (r: RequestEnvelope)
        ensures
            r.method == method,
            r.url@ == resolve_path(self.base_url@, path@),
            self.auth_method matches AuthMethod::NoAuth ==> r.auth_header is None,
            self.auth_method matches AuthMethod::Token(t) ==> r.auth_header matches Some(h)
                && h@ == pve_token_header(t.username@, t.token_name@, t.secret@),
            r.query == query,
            r.body == body,
    {
        let url = resolve_url(self.base_url.as_str(), path);
        let auth_header = match &self.auth_method {
            AuthMethod::NoAuth => None,
            AuthMethod::Token(t) => Some(t.header()),
        };
        RequestEnvelope { method, url, auth_header, query, body }
    }

    /// A `GET` with a query string.
    pub fn get(&self, path: &str, query: Vec<(String, String)>) -> (r: RequestEnvelope)
        ensures
            r.method == Method::Get,
            r.url@ == resolve_path(self.base_url@, path@),
            self.auth_method matches AuthMethod::NoAuth ==> r.auth_header is None,
            self.auth_method matches AuthMethod::Token(t) ==> r.auth_header matches Some(h)
                && h@ == pve_token_header(t.username@, t.token_name@, t.secret@),
            r.query == Some(query),
            r.body is None,
    {
        self.request(Method::Get, path, Some(query), None)
    }

    /// A `POST` with a body.
    pub fn post(&self, path: &str, body: serde_json::Value) -> (r: RequestEnvelope)
        ensures
            r.method == Method::Post,
            r.url@ == resolve_path(self.base_url@, path@),
            self.auth_method matches AuthMethod::NoAuth ==> r.auth_header is None,
            self.auth_method matches AuthMethod::Token(t) ==> r.auth_header matches Some(h)
                && h@ == pve_token_header(t.username@, t.token_name@, t.secret@),
            r.query is None,
            r.body == Some(body),
    {
        self.request(Method::Post, path, None, Some(body))
    }

    /// A `PUT` with a body.
    pub fn put(&self, path: &str, body: serde_json::Value) -> (r: RequestEnvelope)
        ensures
            r.method == Method::Put,
            r.url@ == resolve_path(self.base_url@, path@),
            self.auth_method matches AuthMethod::NoAuth ==> r.auth_header is None,
            self.auth_method matches AuthMethod::Token(t) ==> r.auth_header matches Some(h)
                && h@ == pve_token_header(t.username@, t.token_name@, t.secret@),
            r.query is None,
            r.body == Some(body),
    {
        self.request(Method::Put, path, None, Some(body))
    }

    /// A `DELETE` with a query string.
    pub fn delete(&self, path: &str, query: Vec<(String, String)>) -> (r: RequestEnvelope)
        ensures
            r.method == Method::Delete,
            r.url@ == resolve_path(self.base_url@, path@),
            self.auth_method matches AuthMethod::NoAuth ==> r.auth_header is None,
            self.auth_method matches AuthMethod::Token(t) ==> r.auth_header matches Some(h)
                && h@ == pve_token_header(t.username@, t.token_name@, t.secret@),
            r.query == Some(query),
            r.body is None,
    {
        self.request(Method::Delete, path, Some(query), None)
    }
}

/// A successful upstream document: `{ "data": <payload> }`.
pub struct Response<T> {
    pub data: T,
}

/// A failed upstream document: `{ "errors": <payload> }`, all optional.
pub struct ErrorResponse {
    pub errors: Option<serde_json::Value>,
}

/// What a call can fail with.
#[derive(Debug)]
pub enum Error {
    /// The transport could not complete the exchange.
    UnderlyingError(String),
    /// A success status whose body is not `{ "data": ... }`.
    JsonError,
    /// A non-success status, with the `errors` payload when the body
    /// carried one.
    APIError(u16, Option<serde_json::Value>),
}

/// Classify an upstream exchange that completed with `status` and `body`:
/// on a success status the `data` payload is owed, and any other body is a
/// decode failure; on a failure status, the status is reported with the
/// `errors` payload when one is present.
pub fn interpret_response(status: u16, body: &str) -> (r: Result<serde_json::Value, Error>)
    ensures
        match r {
            Ok(_) => 200 <= status < 300 && json_field(body@, "data"@),
            Err(e) => match e {
                Error::JsonError => 200 <= status < 300 && !json_field(body@, "data"@),
                Error::APIError(s, p) => !(200 <= status < 300) && s == status && (p is Some
                    <==> json_field(body@, "errors"@)),
                Error::UnderlyingError(_) => false,
            },
        },
{
    if 200 <= status && status < 300 {
        match json_field_of(body, "data") {
            Some(v) => Ok(v),
            None => Err(Error::JsonError),
        }
    } else {
        Err(Error::APIError(status, json_field_of(body, "errors")))
    }
}

} // verus!
