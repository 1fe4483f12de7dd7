//! What the dashboard's panels show: metric histories, totals and gauges,
//! the text of its dialogs, the inspector of the selected release and the
//! state of peers. Laying these out on a terminal is left to the caller.

use vstd::prelude::*;
use crate::api::{MetricsSnapshot, ReleaseInfo};
use crate::config::{mode_text, Policy};
use crate::oci::{reference_text, ImageRef};
use crate::text::{chars_of, dec, dec_string, owned, push_dec, push_str, string_of};
use crate::tui::{keep_last, push_delta, saturating_delta, Modal, Tone, HIST};

verus! {

// ---------------------------------------------------------------------------
// metrics
// ---------------------------------------------------------------------------

/// `a + b`, or the largest `u64` when the sum does not fit.
pub open spec fn saturating_sum(a: u64, b: u64) -> u64 {
    if a + b > u64::MAX {
        u64::MAX
    } else {
        (a + b) as u64
    }
}

/// The four running totals the sparklines follow: HTTP requests, bytes
/// served, releases replicated plus blobs fetched, announcements in plus out.
pub open spec fn spark_totals_of(m: MetricsSnapshot) -> (u64, u64, u64, u64) {
    (
        m.http_requests_total,
        m.http_bytes_served,
        saturating_sum(m.releases_replicated, m.blobs_fetched),
        saturating_sum(m.announcements_received, m.announcements_sent),
    )
}

pub fn spark_totals(m: &MetricsSnapshot) -> (t: (u64, u64, u64, u64))
    ensures
        t == spark_totals_of(*m),
{
    (
        m.http_requests_total,
        m.http_bytes_served,
        m.releases_replicated.saturating_add(m.blobs_fetched),
        m.announcements_received.saturating_add(m.announcements_sent),
    )
}

/// The per-poll histories of the four sparklines.
#[derive(Debug, Clone)]
pub struct Histories {
    pub http: Vec<u64>,
    pub bytes: Vec<u64>,
    pub repl: Vec<u64>,
    pub gossip: Vec<u64>,
}

impl Histories {
    pub fn new() -> (h: Histories)
        ensures
            h.http@.len() == 0 && h.bytes@.len() == 0 && h.repl@.len() == 0 && h.gossip@.len()
                == 0,
    {
        Histories { http: Vec::new(), bytes: Vec::new(), repl: Vec::new(), gossip: Vec::new() }
    }

    /// Records a fresh snapshot `m` after `prev`: each history gains the
    /// per-poll delta of its total (none for the first snapshot).
    pub fn push_snapshot(&mut self, prev: Option<&MetricsSnapshot>, m: &MetricsSnapshot)
        ensures
            match prev {
                None => *final(self) == *old(self),
                Some(p) => {
                    let (a, b, c, d) = spark_totals_of(*m);
                    let (pa, pb, pc, pd) = spark_totals_of(*p);
                    &&& final(self).http@ == keep_last(old(self).http@.push(saturating_delta(a, pa)), HIST as nat)
                    &&& final(self).bytes@ == keep_last(old(self).bytes@.push(saturating_delta(b, pb)), HIST as nat)
                    &&& final(self).repl@ == keep_last(old(self).repl@.push(saturating_delta(c, pc)), HIST as nat)
                    &&& final(self).gossip@ == keep_last(old(self).gossip@.push(saturating_delta(d, pd)), HIST as nat)
                },
            },
    {
        match prev {
            None => {},
            Some(p) => {
                let (a, b, c, d) = spark_totals(m);
                let (pa, pb, pc, pd) = spark_totals(p);
                push_delta(&mut self.http, a, pa);
                push_delta(&mut self.bytes, b, pb);
                push_delta(&mut self.repl, c, pc);
                push_delta(&mut self.gossip, d, pd);
            },
        }
    }
}

/// `last/poll <n>`: the newest point of a history (0 when empty).
pub fn spark_caption(hist: &[u64]) -> (s: String)
    ensures
        s@ == "last/poll "@ + dec((if hist@.len() > 0 {
            hist@.last()
        } else {
            0
        }) as nat),
{
    let last: u64 = if hist.len() > 0 {
        hist[hist.len() - 1]
    } else {
        0
    };
    let mut v = chars_of("last/poll ");
    push_dec(&mut v, last);
    string_of(&v)
}

/// A gauge value that cannot go below 0.
pub open spec fn nonneg(x: i64) -> u64 {
    if x < 0 {
        0
    } else {
        x as u64
    }
}

fn nonneg_exec(x: i64) -> (r: u64)
    ensures
        r == nonneg(x),
{
    if x < 0 {
        0
    } else {
        x as u64
    }
}

/// One gauge: its label, value and scale; the bar fills `min(value, max)`.
#[derive(Debug, Clone, Copy)]
pub struct Gauge {
    pub label: &'static str,
    pub value: u64,
    pub max: u64,
}

/// The larger of two counts.
pub open spec fn larger(a: u64, b: u64) -> u64 {
    if a >= b {
        a
    } else {
        b
    }
}

/// The gauges of the metrics tab: neighbors out of 16, known peers out of 32,
/// releases out of at least 10 and gossip topics out of at least 4.
pub fn gauges(m: &MetricsSnapshot) -> (g: [Gauge; 4])
    ensures
        g[0].label@ == "Neighbors"@ && g[0].value == nonneg(m.neighbors) && g[0].max == 16,
        g[1].label@ == "Known peers"@ && g[1].value == nonneg(m.peers_known) && g[1].max == 32,
        g[2].label@ == "Releases"@ && g[2].value == nonneg(m.releases) && g[2].max == larger(
            nonneg(m.releases),
            10,
        ),
        g[3].label@ == "Gossip topics"@ && g[3].value == nonneg(m.gossip_topics) && g[3].max
            == larger(nonneg(m.gossip_topics), 4),
{
    let r = nonneg_exec(m.releases);
    let t = nonneg_exec(m.gossip_topics);
    proof {
        reveal_strlit("Neighbors");
        reveal_strlit("Known peers");
        reveal_strlit("Releases");
        reveal_strlit("Gossip topics");
    }
    [
        Gauge { label: "Neighbors", value: nonneg_exec(m.neighbors), max: 16 },
        Gauge { label: "Known peers", value: nonneg_exec(m.peers_known), max: 32 },
        Gauge { label: "Releases", value: r, max: if r >= 10 { r } else { 10 } },
        Gauge { label: "Gossip topics", value: t, max: if t >= 4 { t } else { 4 } },
    ]
}

/// `<value>/<max>`, the text on a gauge (its scale at least 1).
pub fn gauge_text(value: u64, max: u64) -> (s: String)
    ensures
        s@ == dec(value as nat) + "/"@ + dec(larger(max, 1) as nat),
{
    let m = if max >= 1 {
        max
    } else {
        1
    };
    let mut v: Vec<char> = Vec::new();
    push_dec(&mut v, value);
    push_str(&mut v, "/");
    push_dec(&mut v, m);
    proof {
        reveal_strlit("/");
    }
    string_of(&v)
}

/// A value of the totals table: text, or a byte count the caller renders in
/// binary units.
#[derive(Debug, Clone)]
pub enum Total {
    Text(String),
    Bytes(u64),
}

/// `a/b`
pub open spec fn pair_text(a: u64, b: u64) -> Seq<char> {
    dec(a as nat) + "/"@ + dec(b as nat)
}

fn pair(a: u64, b: u64) -> (s: String)
    ensures
        s@ == pair_text(a, b),
{
    let mut v: Vec<char> = Vec::new();
    push_dec(&mut v, a);
    push_str(&mut v, "/");
    push_dec(&mut v, b);
    string_of(&v)
}

fn count(n: u64) -> (t: Total)
    ensures
        t matches Total::Text(s) && s@ == dec(n as nat),
{
    Total::Text(dec_string(n))
}

/// The rows of the totals table, in order.
pub fn totals(m: &MetricsSnapshot) -> (rows: Vec<(&'static str, Total)>)
    ensures
        rows@.len() == 13,
        rows@[0].0@ == "http requests"@ && (rows@[0].1 matches Total::Text(s) && s@ == dec(
            m.http_requests_total as nat,
        )),
        rows@[1].0@ == "bytes served"@ && (rows@[1].1 matches Total::Bytes(n) && n
            == m.http_bytes_served),
        rows@[2].0@ == "bytes received"@ && (rows@[2].1 matches Total::Bytes(n) && n
            == m.http_bytes_received),
        rows@[3].0@ == "published"@ && (rows@[3].1 matches Total::Text(s) && s@ == dec(
            m.releases_published as nat,
        )),
        rows@[4].0@ == "replicated"@ && (rows@[4].1 matches Total::Text(s) && s@ == dec(
            m.releases_replicated as nat,
        )),
        rows@[5].0@ == "repl. failed"@ && (rows@[5].1 matches Total::Text(s) && s@ == dec(
            m.releases_failed as nat,
        )),
        rows@[6].0@ == "blobs fetched"@ && (rows@[6].1 matches Total::Text(s) && s@ == dec(
            m.blobs_fetched as nat,
        )),
        rows@[7].0@ == "blobs bytes"@ && (rows@[7].1 matches Total::Bytes(n) && n
            == m.blobs_fetched_bytes),
        rows@[8].0@ == "announce rx/tx"@ && (rows@[8].1 matches Total::Text(s) && s@ == pair_text(
            m.announcements_received,
            m.announcements_sent,
        )),
        rows@[9].0@ == "sync served"@ && (rows@[9].1 matches Total::Text(s) && s@ == dec(
            m.sync_requests_total as nat,
        )),
        rows@[10].0@ == "mdns found"@ && (rows@[10].1 matches Total::Text(s) && s@ == dec(
            m.mdns_discovered as nat,
        )),
        rows@[11].0@ == "gc runs/rel/blobs"@ && (rows@[11].1 matches Total::Text(s) && s@
            == pair_text(m.gc_runs, m.gc_releases_removed) + "/"@ + dec(
            m.gc_blobs_removed as nat,
        )),
        rows@[12].0@ == "gc bytes freed"@ && (rows@[12].1 matches Total::Bytes(n) && n
            == m.gc_bytes_freed),
{
    proof {
        reveal_strlit("http requests");
        reveal_strlit("bytes served");
        reveal_strlit("bytes received");
        reveal_strlit("published");
        reveal_strlit("replicated");
        reveal_strlit("repl. failed");
        reveal_strlit("blobs fetched");
        reveal_strlit("blobs bytes");
        reveal_strlit("announce rx/tx");
        reveal_strlit("sync served");
        reveal_strlit("mdns found");
        reveal_strlit("gc runs/rel/blobs");
        reveal_strlit("gc bytes freed");
    }
    let mut gc: Vec<char> = chars_of(pair(m.gc_runs, m.gc_releases_removed).as_str());
    push_str(&mut gc, "/");
    push_dec(&mut gc, m.gc_blobs_removed);
    let mut rows: Vec<(&'static str, Total)> = Vec::new();
    rows.push(("http requests", count(m.http_requests_total)));
    rows.push(("bytes served", Total::Bytes(m.http_bytes_served)));
    rows.push(("bytes received", Total::Bytes(m.http_bytes_received)));
    rows.push(("published", count(m.releases_published)));
    rows.push(("replicated", count(m.releases_replicated)));
    rows.push(("repl. failed", count(m.releases_failed)));
    rows.push(("blobs fetched", count(m.blobs_fetched)));
    rows.push(("blobs bytes", Total::Bytes(m.blobs_fetched_bytes)));
    rows.push(("announce rx/tx", Total::Text(pair(m.announcements_received, m.announcements_sent))));
    rows.push(("sync served", count(m.sync_requests_total)));
    rows.push(("mdns found", count(m.mdns_discovered)));
    rows.push(("gc runs/rel/blobs", Total::Text(string_of(&gc))));
    rows.push(("gc bytes freed", Total::Bytes(m.gc_bytes_freed)));
    rows
}

/// A signed count as text.
pub open spec fn int_text(x: int) -> Seq<char> {
    if x < 0 {
        "-"@ + dec((-x) as nat)
    } else {
        dec(x as nat)
    }
}

/// `x / d` rounded toward zero (Rust's `/` on signed integers).
pub open spec fn div_toward_zero(x: int, d: int) -> int {
    if x >= 0 {
        x / d
    } else {
        -((-x) / d)
    }
}

fn push_int(out: &mut Vec<char>, x: i64)
    ensures
        final(out)@ == old(out)@ + int_text(x as int),
{
    if x < 0 {
        let n: u64 = (0i128 - (x as i128)) as u64;
        push_str(out, "-");
        push_dec(out, n);
        proof {
            reveal_strlit("-");
        }
    } else {
        push_dec(out, x as u64);
    }
}

/// The state panel: uptime in whole minutes and the policy's follow and seed
/// counts.
pub fn state_lines(m: &MetricsSnapshot) -> (l: (String, String))
    ensures
        l.0@ == int_text(div_toward_zero(m.uptime_seconds as int, 60)) + "m"@,
        l.1@ == int_text(m.policy_follows as int) + "f/"@ + int_text(m.policy_seeds as int) + "s"@,
{
    let up: i64 = if m.uptime_seconds >= 0 {
        (m.uptime_seconds as u64 / 60) as i64
    } else {
        let n: u64 = (0i128 - (m.uptime_seconds as i128)) as u64;
        0i64 - ((n / 60) as i64)
    };
    let mut a: Vec<char> = Vec::new();
    push_int(&mut a, up);
    push_str(&mut a, "m");
    let mut b: Vec<char> = Vec::new();
    push_int(&mut b, m.policy_follows);
    push_str(&mut b, "f/");
    push_int(&mut b, m.policy_seeds);
    push_str(&mut b, "s");
    (string_of(&a), string_of(&b))
}

// ---------------------------------------------------------------------------
// dialogs
// ---------------------------------------------------------------------------

/// The text of a dialog: title, colour, body lines, and the confirming key
/// and its verb.
#[derive(Debug, Clone)]
pub struct ModalView {
    pub title: &'static str,
    pub tone: Tone,
    pub lines: Vec<String>,
    pub confirm: Option<(&'static str, &'static str)>,
}

/// What each dialog says.
pub fn modal_view(modal: &Modal) -> (v: Option<ModalView>)
    ensures
        match *modal {
            Modal::Closed => v is None,
            Modal::Notice(text) => v matches Some(x) && x.title@ == "Notice"@ && x.tone
                == Tone::LightCyan && x.lines@.len() == 1 && x.lines@[0]@ == text@ && x.confirm
                is None,
            Modal::ConfirmGc { force } => v matches Some(x) && x.tone == Tone::Yellow && x.title@
                == (if force {
                "Force garbage collection"@
            } else {
                "Garbage collection"@
            }) && x.lines@.len() == 3 && x.lines@[0]@ == (if force {
                "Remove ALL unmanaged releases now, ignoring the grace period."@
            } else {
                "Remove unmanaged releases older than the grace period and orphaned blobs."@
            }) && x.lines@[1]@ == "Own, pinned and in-window releases are never touched."@
                && x.lines@[2]@.len() == 0 && x.confirm == Some(("Y", "run")),
            Modal::ConfirmDelete(reference) => v matches Some(x) && x.title@ == "Delete release"@
                && x.tone == Tone::Red && x.lines@.len() == 3 && x.lines@[0]@ == reference@
                && x.lines@[1]@
                == "Removes the local record and unpins its blobs; not propagated to peers."@
                && x.lines@[2]@.len() == 0 && x.confirm == Some(("Y", "delete")),
            Modal::SeedPrompt { target, input } => v matches Some(x) && x.title@ == "Seed image"@
                && x.tone == Tone::Cyan && x.lines@.len() == 5 && x.lines@[0]@ == target@
                && x.lines@[1]@ == "retention mode: latest | last:N | full"@ && x.lines@[2]@.len()
                == 0 && x.lines@[3]@ == "> "@ + input@ + "█"@ && x.lines@[4]@.len() == 0
                && x.confirm == Some(("Enter", "save")),
        },
{
    proof {
        reveal_strlit("");
    }
    match modal {
        Modal::Closed => None,
        Modal::Notice(text) => {
            let mut lines: Vec<String> = Vec::new();
            lines.push(text.clone());
            Some(ModalView { title: "Notice", tone: Tone::LightCyan, lines, confirm: None })
        },
        Modal::ConfirmGc { force } => {
            let mut lines: Vec<String> = Vec::new();
            if *force {
                lines.push(owned("Remove ALL unmanaged releases now, ignoring the grace period."));
            } else {
                lines.push(
                    owned("Remove unmanaged releases older than the grace period and orphaned blobs."),
                );
            }
            lines.push(owned("Own, pinned and in-window releases are never touched."));
            lines.push(owned(""));
            let title = if *force {
                "Force garbage collection"
            } else {
                "Garbage collection"
            };
            Some(ModalView { title, tone: Tone::Yellow, lines, confirm: Some(("Y", "run")) })
        },
        Modal::ConfirmDelete(reference) => {
            let mut lines: Vec<String> = Vec::new();
            lines.push(reference.clone());
            lines.push(
                owned("Removes the local record and unpins its blobs; not propagated to peers."),
            );
            lines.push(owned(""));
            Some(
                ModalView {
                    title: "Delete release",
                    tone: Tone::Red,
                    lines,
                    confirm: Some(("Y", "delete")),
                },
            )
        },
        Modal::SeedPrompt { target, input } => {
            let mut prompt = chars_of("> ");
            push_str(&mut prompt, input.as_str());
            push_str(&mut prompt, "█");
            let mut lines: Vec<String> = Vec::new();
            lines.push(target.clone());
            lines.push(owned("retention mode: latest | last:N | full"));
            lines.push(owned(""));
            lines.push(string_of(&prompt));
            lines.push(owned(""));
            Some(
                ModalView {
                    title: "Seed image",
                    tone: Tone::Cyan,
                    lines,
                    confirm: Some(("Enter", "save")),
                },
            )
        },
    }
}

// ---------------------------------------------------------------------------
// the inspector and the peers table
// ---------------------------------------------------------------------------

/// What the inspector says of a release: its reference, the window its
/// image gets, the follow mode of its publisher (`   follow: <mode>`, or
/// nothing), whether it is pinned, and its state.
#[derive(Debug, Clone)]
pub struct Inspector {
    pub reference: String,
    pub window: String,
    pub follow: String,
    pub pinned: bool,
    pub state: &'static str,
}

pub fn inspector(policy: &Policy, r: &ReleaseInfo) -> (i: Inspector)
    ensures
        ({
            let s = r.summary;
            let ms = policy.modes_for(s.publisher@, s.name@);
            &&& i.reference@ == reference_text(s.publisher@, s.name@, Some(s.tag@))
            &&& i.window@ == crate::config::window_text(
                crate::config::any_full(ms),
                crate::config::widest(ms),
                policy.tags_for(s.publisher@, s.name@).len(),
            )
            &&& i.follow@ == match crate::config::first_follow_mode(
                policy.follows_spec(),
                s.publisher@,
            ) {
                Some(m) => "   follow: "@ + mode_text(m),
                None => Seq::empty(),
            }
            &&& i.pinned == policy.pinned(s.publisher@, s.name@, s.tag@)
            &&& i.state@ == if r.complete {
                "complete, verified"@
            } else {
                "incomplete (fetching)"@
            }
        }),
{
    let s = &r.summary;
    let reference = ImageRef {
        publisher: s.publisher,
        name: s.name.clone(),
        tag: Some(s.tag.clone()),
    }.to_string();
    let window = policy.window(&s.publisher, s.name.as_str()).describe();
    let follow = match policy.follow_mode(&s.publisher) {
        Some(m) => {
            let mut v = chars_of("   follow: ");
            push_str(&mut v, m.to_string().as_str());
            string_of(&v)
        },
        None => String::new(),
    };
    proof {
        reveal_strlit("complete, verified");
        reveal_strlit("incomplete (fetching)");
    }
    let state = if r.complete {
        "complete, verified"
    } else {
        "incomplete (fetching)"
    };
    Inspector {
        reference,
        window,
        follow,
        pinned: policy.is_pinned(&s.publisher, s.name.as_str(), s.tag.as_str()),
        state,
    }
}

/// The state column of a peer: a gossip neighbor, a remembered peer, or one
/// only seen.
pub fn peer_state(neighbor: bool, known: bool) -> (r: (&'static str, Tone))
    ensures
        r.0@ == (if neighbor {
            "✓ neighbor"@
        } else if known {
            "known"@
        } else {
            "seen"@
        }),
        r.1 == (if neighbor {
            Tone::Green
        } else if known {
            Tone::Gray
        } else {
            Tone::DarkGray
        }),
{
    proof {
        reveal_strlit("✓ neighbor");
        reveal_strlit("known");
        reveal_strlit("seen");
    }
    if neighbor {
        ("✓ neighbor", Tone::Green)
    } else if known {
        ("known", Tone::Gray)
    } else {
        ("seen", Tone::DarkGray)
    }
}

/// `<s>s ago`, or `-` for a peer never seen.
pub fn last_seen(secs: Option<u64>) -> (s: String)
    ensures
        s@ == match secs {
            Some(n) => dec(n as nat) + "s ago"@,
            None => "-"@,
        },
{
    match secs {
        Some(n) => {
            let mut v: Vec<char> = Vec::new();
            push_dec(&mut v, n);
            push_str(&mut v, "s ago");
            string_of(&v)
        },
        None => {
            proof {
                reveal_strlit("-");
            }
            owned("-")
        },
    }
}

} // verus!
