//! A small dashboard server's core: a structural URI splitter, host
//! substitution for links that omit a host, request routing, and the
//! configuration snapshot that a reload replaces as a unit.

pub mod config;
pub mod rewrite;
pub mod round_trip;
pub mod route;
pub mod server;
pub mod uri;
