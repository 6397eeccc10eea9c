//! Verified core of a cluster-gateway service: signed bearer tokens,
//! session revocation, the request gate that combines them, and the
//! envelope logic of the authenticated upstream HTTP client.

pub mod b64;
pub mod claims;
pub mod client;
pub mod gate;
pub mod jwt;
pub mod models;
pub mod revocation;
pub mod session;
