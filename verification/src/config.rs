//! Connection configuration.
//!
//! The store talks to a Redis-style engine over TCP or a local socket.  The
//! configuration resolves to a connection target: defaults fill in an
//! absent host, port or socket path, and a socket, when set, wins over TCP.
//! Opening the transport itself is the caller's concern; this module only
//! computes what to open.

use vstd::prelude::*;

verus! {

/// Connection configuration; both TCP and socket connections are
/// supported.
#[derive(Clone, Debug, PartialEq)]
pub struct RedisConfig {
    // TCP
    pub database_ip: Option<String>,
    pub database_port: Option<u16>,
    // Socket
    pub database_socket: Option<String>,
    // General database information
    pub database_id: i64,
    pub database_password: Option<String>,
}

/// Where the engine is reached.
#[derive(Clone, Debug, PartialEq)]
pub enum ConnectionTarget {
    Tcp { host: String, port: u16 },
    Unix { path: String },
}

/// Everything needed to open a connection.
#[derive(Clone, Debug, PartialEq)]
pub struct ConnectionSpec {
    pub addr: ConnectionTarget,
    pub database: i64,
    pub password: Option<String>,
}

/// The host a configuration resolves to: the configured one, or
/// "localhost".
pub open spec fn spec_host(c: RedisConfig) -> Seq<char> {
    match c.database_ip {
        Some(s) => s@,
        None => "localhost"@,
    }
}

/// The port a configuration resolves to: the configured one, or 6379.
pub open spec fn spec_port(c: RedisConfig) -> u16 {
    match c.database_port {
        Some(p) => p,
        None => 6379,
    }
}

/// The socket path a configuration resolves to when a socket is set.
pub open spec fn spec_socket(c: RedisConfig) -> Seq<char> {
    match c.database_socket {
        Some(s) => s@,
        None => "/tmp/redis.sock"@,
    }
}

impl Default for RedisConfig {
    /// The local default: TCP to localhost:6379, database 0, no password.
    fn default() -> (r: Self)
        ensures
            r.database_ip matches Some(ip) && ip@ == "localhost"@,
            r.database_port == Some(6379u16),
            r.database_socket is None,
            r.database_id == 0,
            r.database_password is None,
    {
        RedisConfig {
            database_ip: Some(String::from_str("localhost")),
            database_port: Some(6379),
            database_socket: None,
            database_id: 0,
            database_password: None,
        }
    }
}

impl RedisConfig {
    /// Resolve the configuration to a connection target.  A configuration
    /// without a socket is a TCP target with the defaults filled in; one
    /// with a socket is a socket target.
    pub fn form_connection(self) -> (r: ConnectionSpec)
        ensures
            match r.addr {
                ConnectionTarget::Tcp { host, port } => {
                    &&& self.database_socket is None
                    &&& host@ == spec_host(self)
                    &&& port == spec_port(self)
                },
                ConnectionTarget::Unix { path } => {
                    &&& self.database_socket is Some
                    &&& path@ == spec_socket(self)
                },
            },
            r.database == self.database_id,
            r.password.deep_view() == self.database_password.deep_view(),
    {
        let addr: ConnectionTarget = match self.database_socket {
            None => {
                let host: String = match self.database_ip {
                    Some(ip) => ip,
                    None => String::from_str("localhost"),
                };
                let port: u16 = match self.database_port {
                    Some(p) => p,
                    None => 6379,
                };
                ConnectionTarget::Tcp { host, port }
            }
            Some(path) => ConnectionTarget::Unix { path },
        };
        ConnectionSpec { addr, database: self.database_id, password: self.database_password }
    }
}

} // verus!
