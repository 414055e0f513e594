//! Database-facing types of the auxiliary account features; queries
//! themselves run as outside work and degrade silently when they fail.

use vstd::prelude::*;

verus! {

/// The database drivers a server can run on.
#[derive(Clone, Copy, Debug, PartialEq, Eq, Structural)]
pub enum DbKind {
    MySql,
}

/// How a database connection is established.
#[derive(Clone, Debug)]
pub struct DatabaseDetails {
    pub host: String,
    pub port: u16,
    pub database: String,
    pub username: String,
    pub password: String,
    pub ca_cert_path: String,
    pub connection_count: usize,
}

} // verus!
