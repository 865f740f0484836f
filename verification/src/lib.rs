//! The core of a small HTTP/1.1 server, without its sockets: a router that
//! maps a method and a path pattern to a handler, the request and response
//! that a handler sees and gives, and the steps that a connection takes from
//! its first line to its close.
//!
//! `prefix_tree` holds the router, a trie of path segments, and `route` says
//! what it means: which handler and which parameters a path resolves to.
//! `connection` decides what a connection does next; the caller does the
//! reading and the writing. `text` holds what these need of strings.

pub mod connection;
pub mod http_request;
pub mod http_response;
pub mod prefix_tree;
pub mod route;
pub mod text;
