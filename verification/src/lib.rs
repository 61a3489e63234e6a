//! Client-side logic for a remote libc-identification catalog.
//!
//! The crate models the two kinds of query the catalog answers — an
//! attribute lookup and a per-entry symbol dump — and verifies the three
//! stages around them: parsing user-supplied symbol lists, building the
//! outgoing request (path and JSON body), and deciding what to do with a
//! successful response (print it, or download the matched artifacts).
//! Network transport and file writes stay with the caller.

pub mod text;
pub mod errors;
pub mod symbols;
pub mod json;
pub mod query;
pub mod request;
pub mod response;
