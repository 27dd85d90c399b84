//! Request parsing, response building and handler decisions of a family of
//! small HTTP benchmark servers.
use vstd::prelude::*;

pub mod bytes;
pub mod numbers;
pub mod h1;
pub mod response;
pub mod query;
pub mod query_text;
pub mod state;
pub mod handlers;
pub mod crud;
pub mod static_files;
pub mod config;

verus! {
} // verus!
