//! Plain data carried across the service boundary: request payloads and
//! the upstream version document.

use vstd::prelude::*;

verus! {

/// A login attempt: an account name (or email, or phone) and a password.
#[derive(Debug, Clone)]
pub struct LoginRequest {
    pub username: String,
    pub password: String,
}

/// A registration request.
#[derive(Debug, Clone)]
pub struct RegisterRequest {
    pub username: String,
    pub email: Option<String>,
    pub phone: Option<String>,
    pub password: String,
}

/// A password reset backed by an emailed code.
#[derive(Debug, Clone)]
pub struct ResetPasswordRequest {
    pub email: String,
    pub code: String,
    pub new_password: String,
}

/// A request to register an upstream node.
#[derive(Debug, Clone)]
pub struct PveNodeCreateRequest {
    pub name: String,
    pub hostname: String,
    pub ip_address: String,
    pub port: Option<i32>,
    pub username: String,
    pub password: String,
    pub location: Option<String>,
    pub max_cpu: i32,
    pub max_memory_gb: i32,
    pub max_storage_gb: i32,
}

/// The upstream version document.
#[derive(Debug, Clone)]
pub struct Version {
    pub version: String,
    pub release: String,
    pub repoid: String,
}

} // verus!
