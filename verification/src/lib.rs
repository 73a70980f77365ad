//! A record-and-replay proxy core for HTTP API testing.
//!
//! The crate models HTTP requests and responses as plain values, converts
//! them to and from a canonical stored form, matches incoming requests
//! against recorded interactions, plans upstream forwarding with proxy
//! header discipline, and keeps a registry of named sessions, each with its
//! own mode (record, replay or passthrough), recordings and dynamic-value
//! table.  All logic is verified; network and file transport around it hand
//! in and take out plain values.

pub mod codec;
pub mod control;
pub mod dynamic;
pub mod errors;
pub mod forward;
pub mod headers;
pub mod json;
pub mod matcher;
pub mod models;
pub mod registry;
pub mod storage;
pub mod text;
