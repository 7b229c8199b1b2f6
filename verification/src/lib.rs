//! A recursive DNS resolver library: the wire-format codec, a bounded
//! cache with time-to-live expiry and least-recently-used eviction, and the
//! decisions of the iterative lookup and of the serving loop.
//!
//! The codec is in `utils`, `rr_types`, `domain_name`, `query`,
//! `resource_record`, `message` and `packet`; the cache in `cache`, over the
//! priority queue in `queue` and the clock in `clock`; the lookup in
//! `resolver` and the serving loop in `server`. What holds of them beyond
//! each function's own contract is stated and proved in `round_trip`,
//! `compression` and `pointer_chain`, and beside the functions in `cache`
//! and `resolver`.

pub mod cache;
pub mod clock;
pub mod compression;
pub mod domain_name;
pub mod error;
pub mod message;
pub mod packet;
pub mod pointer_chain;
pub mod query;
pub mod queue;
pub mod resolver;
pub mod resource_record;
pub mod round_trip;
pub mod rr_types;
pub mod server;
pub mod text;
pub mod utils;
