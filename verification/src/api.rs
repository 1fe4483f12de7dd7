//! Request and response bodies of the daemon's `/_ocid/` control API, shared
//! with the command-line client. Their JSON form is written by the programs
//! around the library.

use vstd::prelude::*;
use crate::config::Mode;
use crate::identity::PublisherId;
use crate::release::ReleaseSummary;

verus! {

/// A release as the dashboard and the `ls` listing show it.
#[derive(Debug, Clone)]
pub struct ReleaseInfo {
    pub summary: ReleaseSummary,
    /// Every blob is held (and verified).
    pub complete: bool,
    pub size: u64,
    pub blobs: usize,
    /// Published by this node.
    pub mine: bool,
}

#[derive(Debug, Clone)]
pub struct AddPeerReq {
    pub ticket: String,
}

#[derive(Debug, Clone)]
pub struct RefReq {
    pub reference: String,
}

#[derive(Debug, Clone)]
pub struct AnnounceReq {
    pub reference: Option<String>,
}

#[derive(Debug, Clone)]
pub struct AnnounceResp {
    pub announced: usize,
}

#[derive(Debug, Clone)]
pub struct SyncReq {
    pub peer: Option<String>,
}

#[derive(Debug, Clone)]
pub struct SyncResp {
    pub synced: usize,
    pub failed: Vec<String>,
}

#[derive(Debug, Clone, Default)]
pub struct GcReq {
    /// Report only; remove nothing.
    pub dry_run: bool,
    /// Ignore the grace period for unseeded releases.
    pub force: bool,
}

#[derive(Debug, Clone, Default)]
pub struct GcReport {
    pub dry_run: bool,
    /// References of releases removed (or that would be removed).
    pub releases_removed: Vec<String>,
    pub blobs_removed: usize,
    pub bytes_freed: u64,
    pub uploads_removed: usize,
}

#[derive(Debug, Clone)]
pub struct RmReq {
    pub reference: String,
    /// Remove every tag of the image (the reference must not carry a tag).
    pub all_tags: bool,
}

#[derive(Debug, Clone, Default)]
pub struct RmResp {
    pub removed: Vec<String>,
    /// The policy still wants this image; it will be replicated again unless
    /// unseeded.
    pub still_wanted: bool,
}

#[derive(Debug, Clone)]
pub struct OkResp {
    pub ok: bool,
}

#[derive(Debug, Clone)]
pub struct SeedReq {
    pub reference: String,
    /// `latest` when the request leaves it out.
    pub mode: Mode,
}

#[derive(Debug, Clone)]
pub struct UnseedReq {
    pub reference: String,
}

#[derive(Debug, Clone)]
pub struct FollowReq {
    pub publisher: String,
    /// `latest` when the request leaves it out.
    pub mode: Mode,
}

#[derive(Debug, Clone)]
pub struct UnfollowReq {
    pub publisher: String,
}

#[derive(Debug, Clone)]
pub struct PinReq {
    pub reference: String,
}

#[derive(Debug, Clone)]
pub struct UnpinReq {
    pub reference: String,
}

/// Reply of the policy mutation endpoints: whether the policy changed, and
/// the canonical rule (alias-resolved) it now covers, or no longer covers
/// for the removal endpoints.
#[derive(Debug, Clone)]
pub struct PolicyChangeResp {
    pub changed: bool,
    pub reference: String,
}

#[derive(Debug, Clone)]
pub struct ErrorResp {
    pub error: String,
}

/// A live event of the daemon, streamed to the dashboard.
#[derive(Debug, Clone)]
pub enum DaemonEvent {
    /// A release announcement was received or broadcast on gossip.
    Gossip { publisher: PublisherId, name: String, tag: String, outbound: bool },
    /// A release was pruned or kept by window enforcement.
    Pruned { publisher: PublisherId, name: String, tag: String, reason: String },
    /// A release was replicated or published.
    ReleaseSaved { publisher: PublisherId, name: String, tag: String, blobs: usize },
    /// Progress of a release being fetched from peers.
    PullProgress {
        publisher: PublisherId,
        name: String,
        tag: String,
        blobs_done: usize,
        blobs_total: usize,
        bytes_done: u64,
        bytes_total: u64,
    },
    /// A release fetch from peers failed.
    FetchFailed { publisher: PublisherId, name: String, tag: String, error: String },
    /// A peer (by its node key) connected or disconnected.
    PeerChange { id: PublisherId, connected: bool },
    /// The registry or control API answered a request.
    HttpRequest { method: String, path: String, status: u16 },
}

/// Point-in-time counters and gauges of the daemon (`GET /_ocid/metrics`).
#[derive(Debug, Clone, Copy)]
pub struct MetricsSnapshot {
    pub http_requests_total: u64,
    pub http_bytes_served: u64,
    pub http_bytes_received: u64,
    pub releases_published: u64,
    pub releases_replicated: u64,
    pub releases_failed: u64,
    pub blobs_fetched: u64,
    pub blobs_fetched_bytes: u64,
    pub announcements_received: u64,
    pub announcements_sent: u64,
    pub sync_requests_total: u64,
    pub mdns_discovered: u64,
    pub gossip_topics: i64,
    pub gc_runs: u64,
    pub gc_releases_removed: u64,
    pub gc_blobs_removed: u64,
    pub gc_bytes_freed: u64,
    pub neighbors: i64,
    pub peers_known: i64,
    pub releases: i64,
    pub policy_seeds: i64,
    pub policy_follows: i64,
    pub uptime_seconds: i64,
}

} // verus!
