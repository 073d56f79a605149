//! State resolution and short-identifier interning core of a Matrix
//! homeserver.
//!
//! Matrix rooms form a DAG of events; when a newly received event's parent
//! state diverges from the locally known state, the two fork states must be
//! reconciled deterministically by the version-specific state resolution
//! algorithm. This crate holds the verified core of that machinery:
//!
//! - an ordered key/value layer with forward and reverse cursors ([`kv`],
//!   [`stream`], [`rev_stream`]),
//! - the short-id interner mapping long Matrix identifiers to monotonically
//!   assigned 64-bit integers ([`short`]),
//! - the compressed state store representing a snapshot as a sorted set of
//!   fixed-width records and hashing it ([`state_compressor`], [`state`]),
//! - the auth-chain assembler computing the transitive closure over
//!   `auth_events` edges ([`auth_chain`]),
//! - the state resolver driver orchestrating all of the above
//!   ([`event_handler`]),
//! - the lazy-loading bookkeeping table ([`lazy_loading`]) and read-receipt
//!   bookkeeping ([`read_receipt`]).
//!
//! The version-specific resolution algorithm itself is a collaborator: the
//! driver dispatches to an implementation of a resolver interface and is
//! verified to pass its inputs and return its output faithfully, whatever
//! the algorithm decides.

pub mod auth_chain;
pub mod bytes;
pub mod error;
pub mod event_handler;
pub mod kv;
pub mod lazy_loading;
pub mod read_receipt;
pub mod rev_stream;
pub mod state_compressor;
pub mod short;
pub mod state;
pub mod stream;
pub mod types;
