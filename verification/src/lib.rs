//! A small HTTP server and reverse proxy: its configuration language, its
//! HTTP/1.1 reader and writer, URI handling, route matching, upstream
//! balancing and the decisions taken for each connection.
use vstd::prelude::*;

pub mod text;
pub mod strmap;
pub mod vars;
pub mod config;
pub mod uri;
pub mod route_matching;
pub mod proxy;
pub mod http;
pub mod process;
pub mod parse;
pub mod respond;
pub mod tls;

verus! {
} // verus!
