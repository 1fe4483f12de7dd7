//! Verified core of a peer-to-peer OCI image distribution node: publisher
//! identities, image references, seeding policy, signed release records and
//! the replication decisions built on them.

pub mod api;
pub mod cli;
pub mod config;
pub mod dashboard;
pub mod error;
pub mod hash;
pub mod identity;
pub mod index;
pub mod json;
pub mod metrics;
pub mod text;
pub mod topic;
pub mod oci;
pub mod order;
pub mod paths;
pub mod peers;
pub mod registry;
pub mod release;
pub mod replication;
pub mod seqs;
pub mod sse;
pub mod tui;
