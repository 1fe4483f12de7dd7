//! Replication decisions of a node: which announced or remote releases to
//! fetch, which local releases a policy keeps, what a window or a garbage
//! collection prunes, and which blobs become orphans.

use vstd::prelude::*;
use crate::config::{any_full, key_set, distinct_keys, insert_key, sort_keys, widest, window_select, Policy, Window};
use crate::hash::Blake3;
use crate::identity::PublisherId;
use crate::oci::{reference_text, Digest};
use crate::order::{
    lemma_text_le_antisym, lemma_text_le_refl, lemma_text_le_total, lemma_text_le_trans, pairs_view,
    sorted_by_key, text_le, text_le_exec,
};
use crate::release::{BlobRef, Referrer, Release, ReleasePayload, ReleaseSummary};
use crate::seqs::kept;
use crate::text::{
    chars_of, contains_string, distinct_strings, hex_encode, insert_string, lemma_hex_roundtrip, push_str,
    str_eq, string_of, string_set,
};

verus! {

/// `(tag, timestamp)` of each release.
pub open spec fn release_pairs(v: Seq<Release>) -> Seq<(Seq<char>, u64)> {
    Seq::new(v.len(), |i: int| (v[i].payload.tag@, v[i].payload.timestamp))
}

/// `(tag, timestamp)` of each summary.
pub open spec fn summary_pairs(v: Seq<ReleaseSummary>) -> Seq<(Seq<char>, u64)> {
    Seq::new(v.len(), |i: int| (v[i].tag@, v[i].timestamp))
}

/// The entries whose tag does not occur again later: a tag -> timestamp map
/// built by inserting in order (the last insert wins).
pub open spec fn last_occurrences(s: Seq<(Seq<char>, u64)>) -> Seq<(Seq<char>, u64)>
    decreases s.len(),
{
    if s.len() == 0 {
        Seq::empty()
    } else {
        let rest = last_occurrences(s.drop_first());
        if exists|j: int| 1 <= j < s.len() && #[trigger] s[j].0 == s[0].0 {
            rest
        } else {
            seq![s[0]] + rest
        }
    }
}

/// The timestamp of the last local release with tag `tag`.
pub open spec fn local_ts(local: Seq<Release>, tag: Seq<char>) -> Option<u64>
    decreases local.len(),
{
    if local.len() == 0 {
        None
    } else if local.last().payload.tag@ == tag {
        Some(local.last().payload.timestamp)
    } else {
        local_ts(local.drop_last(), tag)
    }
}

/// The window of image `(p, n)` keeps nothing.
pub open spec fn window_empty(policy: Policy, p: Seq<u8>, n: Seq<char>) -> bool {
    !any_full(policy.modes_for(p, n)) && widest(policy.modes_for(p, n)) == 0 && policy.tags_for(
        p,
        n,
    ).is_empty()
}

/// The tags the window of `(p, n)` keeps out of `known`.
pub open spec fn window_keeps(policy: Policy, p: Seq<u8>, n: Seq<char>, known: Seq<(Seq<char>, u64)>) -> Set<
    Seq<char>,
> {
    window_select(
        any_full(policy.modes_for(p, n)),
        widest(policy.modes_for(p, n)),
        policy.tags_for(p, n),
        known,
    )
}

/// The remote releases of one image worth fetching: inside the policy window
/// (computed over local and remote knowledge together) and newer than the
/// local release of the same tag, if any.
pub open spec fn wanted(
    policy: Policy,
    p: Seq<u8>,
    n: Seq<char>,
    local: Seq<Release>,
    remote: Seq<ReleaseSummary>,
) -> Seq<ReleaseSummary> {
    if window_empty(policy, p, n) {
        Seq::empty()
    } else {
        let known = last_occurrences(release_pairs(local)) + summary_pairs(remote);
        let sel = window_keeps(policy, p, n, known);
        kept(
            remote,
            |s: ReleaseSummary|
                sel.contains(s.tag@) && match local_ts(local, s.tag@) {
                    Some(t) => s.timestamp > t,
                    None => true,
                },
        )
    }
}

proof fn lemma_window_empty(w: Window, policy: Policy, p: Seq<u8>, n: Seq<char>)
    requires
        w.full == any_full(policy.modes_for(p, n)),
        w.last == widest(policy.modes_for(p, n)),
        string_set(w.tags@) == policy.tags_for(p, n),
    ensures
        w.empty() == window_empty(policy, p, n),
{
    if w.tags@.len() > 0 {
        assert(string_set(w.tags@).contains(w.tags@[0]@));
    } else {
        assert(string_set(w.tags@) =~= Set::<Seq<char>>::empty());
    }
}

fn last_occurrences_exec<'a>(s: &Vec<(&'a str, u64)>) -> (r: Vec<(&'a str, u64)>)
    ensures
        pairs_view(r@) == last_occurrences(pairs_view(s@)),
{
    let ghost sv = pairs_view(s@);
    let mut out: Vec<(&'a str, u64)> = Vec::new();
    let mut i: usize = s.len();
    assert(sv.skip(sv.len() as int) =~= Seq::<(Seq<char>, u64)>::empty());
    assert(pairs_view(out@) =~= Seq::<(Seq<char>, u64)>::empty());
    while i > 0
        invariant
            0 <= i <= s@.len(),
            sv == pairs_view(s@),
            pairs_view(out@) == last_occurrences(sv.skip(i as int)),
        decreases i,
    {
        let k = i - 1;
        let ghost t = sv.skip(k as int);
        assert(t.drop_first() =~= sv.skip(i as int));
        assert(t[0] == sv[k as int]);
        let mut later = false;
        let mut j: usize = i;
        while j < s.len()
            invariant
                i <= j <= s@.len(),
                k == i - 1,
                sv == pairs_view(s@),
                t == sv.skip(k as int),
                later == exists|m: int| 1 <= m < j - k && #[trigger] t[m].0 == t[0].0,
            decreases s@.len() - j,
        {
            assert(t[j - k] == sv[j as int]);
            assert(t[0] == sv[k as int]);
            assert(sv[j as int].0 == s@[j as int].0@);
            assert(sv[k as int].0 == s@[k as int].0@);
            if str_eq(s[j].0, s[k].0) {
                later = true;
                assert(t[(j - k) as int].0 == t[0].0);
            } else {
                assert(t[(j - k) as int].0 != t[0].0);
            }
            j = j + 1;
        }
        if !later {
            let ghost before = pairs_view(out@);
            out.insert(0, s[k]);
            assert(pairs_view(out@) =~= seq![t[0]] + before);
        }
        i = k;
    }
    assert(sv.skip(0) =~= sv);
    out
}

fn local_ts_exec(local: &[Release], tag: &str) -> (r: Option<u64>)
    ensures
        r == local_ts(local@, tag@),
{
    let mut i: usize = local.len();
    assert(local@.take(local@.len() as int) =~= local@);
    while i > 0
        invariant
            0 <= i <= local@.len(),
            local_ts(local@, tag@) == local_ts(local@.take(i as int), tag@),
        decreases i,
    {
        let ghost t = local@.take(i as int);
        assert(t.last() == local@[i - 1]);
        assert(t.drop_last() =~= local@.take(i - 1));
        if str_eq(local[i - 1].payload.tag.as_str(), tag) {
            return Some(local[i - 1].payload.timestamp);
        }
        i = i - 1;
    }
    None
}

/// From the remotely known releases of one image, those to fetch: inside the
/// policy window (over local and remote knowledge) and newer than what is held.
pub fn select_wanted(
    policy: &Policy,
    publisher: &PublisherId,
    name: &str,
    local: &[Release],
    remote: &[ReleaseSummary],
) -> (r: Vec<ReleaseSummary>)
    ensures
        r@ == wanted(*policy, publisher@, name@, local@, remote@),
{
    let w = policy.window(publisher, name);
    proof {
        lemma_window_empty(w, *policy, publisher@, name@);
    }
    if w.is_empty() {
        return Vec::new();
    }
    let mut lp: Vec<(&str, u64)> = Vec::new();
    let mut i: usize = 0;
    while i < local.len()
        invariant
            0 <= i <= local@.len(),
            lp@.len() == i,
            pairs_view(lp@) == release_pairs(local@).take(i as int),
        decreases local@.len() - i,
    {
        let tg = local[i].payload.tag.as_str();
        let ts = local[i].payload.timestamp;
        let ghost before = lp@;
        lp.push((tg, ts));
        assert(lp@ == before.push((tg, ts)));
        assert(pairs_view(lp@) =~= release_pairs(local@).take(i + 1)) by {
            assert forall|m: int| 0 <= m < i implies pairs_view(lp@)[m] == release_pairs(local@).take(i + 1)[m] by {
                assert(lp@[m] == before[m]);
                assert(pairs_view(before)[m] == release_pairs(local@).take(i as int)[m]);
            }
            assert(pairs_view(lp@)[i as int] == (tg@, ts));
        }
        i = i + 1;
    }
    assert(release_pairs(local@).take(local@.len() as int) =~= release_pairs(local@));
    let mut known = last_occurrences_exec(&lp);
    let ghost base = pairs_view(known@);
    let mut j: usize = 0;
    while j < remote.len()
        invariant
            0 <= j <= remote@.len(),
            pairs_view(known@) == base + summary_pairs(remote@).take(j as int),
        decreases remote@.len() - j,
    {
        let tg = remote[j].tag.as_str();
        let ts = remote[j].timestamp;
        let ghost before = known@;
        known.push((tg, ts));
        assert(known@ == before.push((tg, ts)));
        assert(pairs_view(known@) =~= pairs_view(before).push((tg@, ts)));
        assert(summary_pairs(remote@).take(j + 1) =~= summary_pairs(remote@).take(j as int).push((tg@, ts)));
        j = j + 1;
    }
    assert(summary_pairs(remote@).take(remote@.len() as int) =~= summary_pairs(remote@));
    let sel = w.select(&known);
    let ghost selset = string_set(sel@);
    let ghost keep = |s: ReleaseSummary|
        selset.contains(s.tag@) && match local_ts(local@, s.tag@) {
            Some(t) => s.timestamp > t,
            None => true,
        };
    let mut out: Vec<ReleaseSummary> = Vec::new();
    let mut k: usize = 0;
    assert(remote@.take(0) =~= Seq::<ReleaseSummary>::empty());
    while k < remote.len()
        invariant
            0 <= k <= remote@.len(),
            selset == string_set(sel@),
            keep == (|s: ReleaseSummary|
                selset.contains(s.tag@) && match local_ts(local@, s.tag@) {
                    Some(t) => s.timestamp > t,
                    None => true,
                }),
            out@ == kept(remote@.take(k as int), keep),
        decreases remote@.len() - k,
    {
        let s = &remote[k];
        assert(remote@.take(k + 1).drop_last() =~= remote@.take(k as int));
        assert(remote@.take(k + 1).last() == *s);
        let inside = contains_string(&sel, s.tag.as_str());
        let newer = match local_ts_exec(local, s.tag.as_str()) {
            Some(t) => s.timestamp > t,
            None => true,
        };
        if inside && newer {
            out.push(s.clone());
        }
        k = k + 1;
    }
    assert(remote@.take(remote@.len() as int) =~= remote@);
    out
}


// ---------------------------------------------------------------------------
// retention
// ---------------------------------------------------------------------------

/// `<hex>/<name>:<tag>` of a release.
pub open spec fn release_ref(r: Release) -> Seq<char> {
    reference_text(r.payload.publisher@, r.payload.name@, Some(r.payload.tag@))
}

/// `(tag, timestamp)` of the releases of image `(p, n)`, in order.
pub open spec fn image_pairs(v: Seq<Release>, p: Seq<u8>, n: Seq<char>) -> Seq<(Seq<char>, u64)>
    decreases v.len(),
{
    if v.len() == 0 {
        Seq::empty()
    } else if v.last().payload.publisher@ == p && v.last().payload.name@ == n {
        image_pairs(v.drop_last(), p, n).push((v.last().payload.tag@, v.last().payload.timestamp))
    } else {
        image_pairs(v.drop_last(), p, n)
    }
}

/// A release the node must keep: its own, or inside its image's window over
/// every release of that image held.
pub open spec fn retained(policy: Policy, me: Seq<u8>, all: Seq<Release>, r: Release) -> bool {
    let p = r.payload.publisher@;
    let n = r.payload.name@;
    p == me || (!window_empty(policy, p, n) && window_keeps(policy, p, n, image_pairs(all, p, n)).contains(
        r.payload.tag@,
    ))
}

/// The references of the retained releases.
pub open spec fn retained_refs(policy: Policy, me: Seq<u8>, all: Seq<Release>) -> Set<Seq<char>> {
    Set::new(
        |s: Seq<char>|
            exists|i: int|
                0 <= i < all.len() && retained(policy, me, all, #[trigger] all[i]) && release_ref(
                    all[i],
                ) == s,
    )
}

fn image_pairs_exec<'a>(all: &'a [Release], p: &PublisherId, n: &str) -> (r: Vec<(&'a str, u64)>)
    ensures
        pairs_view(r@) == image_pairs(all@, p@, n@),
{
    let mut out: Vec<(&'a str, u64)> = Vec::new();
    let mut i: usize = 0;
    assert(all@.take(0) =~= Seq::<Release>::empty());
    assert(pairs_view(out@) =~= Seq::<(Seq<char>, u64)>::empty());
    while i < all.len()
        invariant
            0 <= i <= all@.len(),
            pairs_view(out@) == image_pairs(all@.take(i as int), p@, n@),
        decreases all@.len() - i,
    {
        let r = &all[i];
        assert(all@.take(i + 1).drop_last() =~= all@.take(i as int));
        assert(all@.take(i + 1).last() == *r);
        if r.payload.publisher == *p && str_eq(r.payload.name.as_str(), n) {
            let tg = r.payload.tag.as_str();
            let ts = r.payload.timestamp;
            let ghost before = out@;
            out.push((tg, ts));
            assert(out@ == before.push((tg, ts)));
            assert(pairs_view(out@) =~= pairs_view(before).push((tg@, ts)));
        }
        i = i + 1;
    }
    assert(all@.take(all@.len() as int) =~= all@);
    out
}

/// Is `r` (one of `all`) retained?
fn is_retained(policy: &Policy, me: &PublisherId, all: &[Release], r: &Release) -> (b: bool)
    ensures
        b == retained(*policy, me@, all@, *r),
{
    if r.payload.publisher == *me {
        return true;
    }
    let w = policy.window(&r.payload.publisher, r.payload.name.as_str());
    proof {
        lemma_window_empty(w, *policy, r.payload.publisher@, r.payload.name@);
    }
    if w.is_empty() {
        return false;
    }
    let known = image_pairs_exec(all, &r.payload.publisher, r.payload.name.as_str());
    let sel = w.select(&known);
    contains_string(&sel, r.payload.tag.as_str())
}

/// Releases the node must keep: its own, pinned, or inside a policy window.
/// Everything else is cache, subject to the garbage collector's grace period.
pub fn retained_set(me: &PublisherId, policy: &Policy, releases: &[Release]) -> (r: Vec<String>)
    ensures
        distinct_strings(r@),
        string_set(r@) == retained_refs(*policy, me@, releases@),
{
    let mut out: Vec<String> = Vec::new();
    let mut i: usize = 0;
    assert(string_set(out@) =~= Set::<Seq<char>>::empty());
    while i < releases.len()
        invariant
            0 <= i <= releases@.len(),
            distinct_strings(out@),
            forall|s: Seq<char>| #[trigger] string_set(out@).contains(s) <==> exists|j: int|
                0 <= j < i && retained(*policy, me@, releases@, #[trigger] releases@[j])
                    && release_ref(releases@[j]) == s,
        decreases releases@.len() - i,
    {
        let r = &releases[i];
        if is_retained(policy, me, releases, r) {
            let rf = r.reference();
            insert_string(&mut out, rf.as_str());
            proof {
                assert forall|s: Seq<char>| #[trigger] string_set(out@).contains(s) <==> exists|j: int|
                    0 <= j < i + 1 && retained(*policy, me@, releases@, #[trigger] releases@[j])
                        && release_ref(releases@[j]) == s by {
                    if s == rf@ {
                        assert(releases@[i as int] == *r);
                    }
                }
            }
        }
        i = i + 1;
    }
    assert(string_set(out@) =~= retained_refs(*policy, me@, releases@));
    out
}

/// A window keeps its explicit tags whatever else is known.
proof fn lemma_select_has_tags(full: bool, last: nat, tags: Set<Seq<char>>, known: Seq<(Seq<char>, u64)>, t: Seq<char>)
    requires
        tags.contains(t),
    ensures
        window_select(full, last, tags, known).contains(t),
{
}

/// A pinned release is always retained.
pub proof fn lemma_pinned_retained(policy: Policy, me: Seq<u8>, all: Seq<Release>, r: Release)
    requires
        policy.pinned(r.payload.publisher@, r.payload.name@, r.payload.tag@),
    ensures
        retained(policy, me, all, r),
{
    let p = r.payload.publisher@;
    let n = r.payload.name@;
    assert(policy.tags_for(p, n).contains(r.payload.tag@));
    lemma_select_has_tags(
        any_full(policy.modes_for(p, n)),
        widest(policy.modes_for(p, n)),
        policy.tags_for(p, n),
        image_pairs(all, p, n),
        r.payload.tag@,
    );
}

/// The tags of the releases in `v` outside `sel`, in order.
pub open spec fn tags_outside(sel: Set<Seq<char>>, v: Seq<Release>) -> Seq<Seq<char>>
    decreases v.len(),
{
    if v.len() == 0 {
        Seq::empty()
    } else {
        let rest = tags_outside(sel, v.drop_last());
        if sel.contains(v.last().payload.tag@) {
            rest
        } else {
            rest.push(v.last().payload.tag@)
        }
    }
}

/// The tags of the local releases of one image that fell out of its window;
/// nothing for the node's own images or for images no rule covers.
pub open spec fn window_prunes(policy: Policy, me: Seq<u8>, p: Seq<u8>, n: Seq<char>, local: Seq<Release>) -> Seq<
    Seq<char>,
> {
    if p == me || window_empty(policy, p, n) {
        Seq::empty()
    } else {
        tags_outside(window_keeps(policy, p, n, release_pairs(local)), local)
    }
}

/// The texts of a vector of strings.
pub open spec fn texts_of(v: Seq<String>) -> Seq<Seq<char>> {
    Seq::new(v.len(), |i: int| v[i]@)
}

/// After an image changed: the tags of its local releases (`local`, every
/// release of the image held) that fell out of its window. Own images and
/// images without rules are left alone.
pub fn window_prune_tags(
    me: &PublisherId,
    policy: &Policy,
    publisher: &PublisherId,
    name: &str,
    local: &[Release],
) -> (r: Vec<String>)
    ensures
        texts_of(r@) == window_prunes(*policy, me@, publisher@, name@, local@),
{
    if *publisher == *me {
        let e: Vec<String> = Vec::new();
        assert(texts_of(e@) =~= Seq::<Seq<char>>::empty());
        return e;
    }
    let w = policy.window(publisher, name);
    proof {
        lemma_window_empty(w, *policy, publisher@, name@);
    }
    if w.is_empty() {
        let e: Vec<String> = Vec::new();
        assert(texts_of(e@) =~= Seq::<Seq<char>>::empty());
        return e;
    }
    let mut lp: Vec<(&str, u64)> = Vec::new();
    let mut i: usize = 0;
    while i < local.len()
        invariant
            0 <= i <= local@.len(),
            lp@.len() == i,
            pairs_view(lp@) == release_pairs(local@).take(i as int),
        decreases local@.len() - i,
    {
        let tg = local[i].payload.tag.as_str();
        let ts = local[i].payload.timestamp;
        let ghost before = lp@;
        lp.push((tg, ts));
        assert(lp@ == before.push((tg, ts)));
        assert(pairs_view(lp@) =~= pairs_view(before).push((tg@, ts)));
        assert(release_pairs(local@).take(i + 1) =~= release_pairs(local@).take(i as int).push((tg@, ts)));
        i = i + 1;
    }
    assert(release_pairs(local@).take(local@.len() as int) =~= release_pairs(local@));
    let sel = w.select(&lp);
    let ghost selset = string_set(sel@);
    let mut out: Vec<String> = Vec::new();
    let mut k: usize = 0;
    assert(local@.take(0) =~= Seq::<Release>::empty());
    assert(texts_of(out@) =~= Seq::<Seq<char>>::empty());
    while k < local.len()
        invariant
            0 <= k <= local@.len(),
            selset == string_set(sel@),
            texts_of(out@) == tags_outside(selset, local@.take(k as int)),
        decreases local@.len() - k,
    {
        assert(local@.take(k + 1).drop_last() =~= local@.take(k as int));
        assert(local@.take(k + 1).last() == local@[k as int]);
        if !contains_string(&sel, local[k].payload.tag.as_str()) {
            let ghost before = texts_of(out@);
            out.push(local[k].payload.tag.clone());
            assert(texts_of(out@) =~= before.push(local@[k as int].payload.tag@));
        }
        k = k + 1;
    }
    assert(local@.take(local@.len() as int) =~= local@);
    out
}

proof fn lemma_tags_outside_not(sel: Set<Seq<char>>, v: Seq<Release>, t: Seq<char>)
    requires
        sel.contains(t),
    ensures
        !tags_outside(sel, v).contains(t),
    decreases v.len(),
{
    if v.len() > 0 {
        lemma_tags_outside_not(sel, v.drop_last(), t);
        let rest = tags_outside(sel, v.drop_last());
        if !sel.contains(v.last().payload.tag@) {
            assert forall|i: int| 0 <= i < rest.len() + 1 implies rest.push(v.last().payload.tag@)[i] != t by {
                if i < rest.len() {
                    assert(rest.push(v.last().payload.tag@)[i] == rest[i]);
                }
            }
        }
    }
}

/// Window enforcement never drops a pinned release.
pub proof fn lemma_pinned_not_pruned(
    policy: Policy,
    me: Seq<u8>,
    p: Seq<u8>,
    n: Seq<char>,
    local: Seq<Release>,
    t: Seq<char>,
)
    requires
        policy.pinned(p, n, t),
    ensures
        !window_prunes(policy, me, p, n, local).contains(t),
{
    if !(p == me || window_empty(policy, p, n)) {
        assert(policy.tags_for(p, n).contains(t));
        lemma_select_has_tags(
            any_full(policy.modes_for(p, n)),
            widest(policy.modes_for(p, n)),
            policy.tags_for(p, n),
            release_pairs(local),
            t,
        );
        lemma_tags_outside_not(window_keeps(policy, p, n, release_pairs(local)), local, t);
    }
}

// ---------------------------------------------------------------------------
// garbage collection
// ---------------------------------------------------------------------------

/// The references garbage collection removes: those not retained, unless
/// they are younger than the grace period (and `force` is off). A release
/// whose age is unknown counts as old.
pub open spec fn gc_removed(
    keep: Set<Seq<char>>,
    refs: Seq<Seq<char>>,
    ages: Seq<Option<u64>>,
    grace: u64,
    force: bool,
) -> Seq<Seq<char>>
    decreases refs.len(),
{
    if refs.len() == 0 || ages.len() != refs.len() {
        Seq::empty()
    } else {
        let rest = gc_removed(keep, refs.drop_last(), ages.drop_last(), grace, force);
        let young = match ages.last() {
            Some(a) => a < grace,
            None => false,
        };
        if keep.contains(refs.last()) || (!force && young) {
            rest
        } else {
            rest.push(refs.last())
        }
    }
}

/// The releases garbage collection removes, given the retained references,
/// every release's reference and its age in seconds (if known).
pub fn gc_removals(
    keep: &[String],
    refs: &[String],
    ages: &[Option<u64>],
    grace: u64,
    force: bool,
) -> (r: Vec<String>)
    requires
        refs@.len() == ages@.len(),
    ensures
        texts_of(r@) == gc_removed(string_set(keep@), texts_of(refs@), ages@, grace, force),
{
    let mut out: Vec<String> = Vec::new();
    let mut i: usize = 0;
    let ghost ks = string_set(keep@);
    let ghost rs = texts_of(refs@);
    assert(rs.take(0) =~= Seq::<Seq<char>>::empty());
    assert(texts_of(out@) =~= Seq::<Seq<char>>::empty());
    while i < refs.len()
        invariant
            0 <= i <= refs@.len(),
            refs@.len() == ages@.len(),
            ks == string_set(keep@),
            rs == texts_of(refs@),
            texts_of(out@) == gc_removed(ks, rs.take(i as int), ages@.take(i as int), grace, force),
        decreases refs@.len() - i,
    {
        assert(rs.take(i + 1).drop_last() =~= rs.take(i as int));
        assert(ages@.take(i + 1).drop_last() =~= ages@.take(i as int));
        assert(rs.take(i + 1).last() == refs@[i as int]@);
        assert(ages@.take(i + 1).last() == ages@[i as int]);
        let young = match ages[i] {
            Some(a) => a < grace,
            None => false,
        };
        if !(contains_string(keep, refs[i].as_str()) || (!force && young)) {
            let ghost before = texts_of(out@);
            out.push(refs[i].clone());
            assert(texts_of(out@) =~= before.push(refs@[i as int]@));
        }
        i = i + 1;
    }
    assert(rs.take(rs.len() as int) =~= rs);
    assert(ages@.take(ages@.len() as int) =~= ages@);
    out
}

/// Garbage collection never removes a retained release.
pub proof fn lemma_gc_keeps_retained(
    keep: Set<Seq<char>>,
    refs: Seq<Seq<char>>,
    ages: Seq<Option<u64>>,
    grace: u64,
    force: bool,
    s: Seq<char>,
)
    requires
        keep.contains(s),
    ensures
        !gc_removed(keep, refs, ages, grace, force).contains(s),
    decreases refs.len(),
{
    if refs.len() > 0 && ages.len() == refs.len() {
        lemma_gc_keeps_retained(keep, refs.drop_last(), ages.drop_last(), grace, force, s);
        let rest = gc_removed(keep, refs.drop_last(), ages.drop_last(), grace, force);
        assert forall|i: int| 0 <= i < rest.len() + 1 && i < gc_removed(keep, refs, ages, grace, force).len() implies gc_removed(keep, refs, ages, grace, force)[i] != s by {
            if i < rest.len() {
                assert(rest.push(refs.last())[i] == rest[i]);
            }
        }
    }
}

// ---------------------------------------------------------------------------
// blob sweep
// ---------------------------------------------------------------------------

/// Release `r` references a blob with hash `h` (its manifest or another blob).
pub open spec fn holds_hash(r: Release, h: Seq<u8>) -> bool {
    r.payload.manifest.hash@ == h || exists|j: int|
        0 <= j < r.payload.blobs@.len() && #[trigger] r.payload.blobs@[j].hash@ == h
}

/// Release `r` is not ignored and references hash `h`.
pub open spec fn keeps_hash(r: Release, ignore: Set<Seq<char>>, h: Seq<u8>) -> bool {
    !ignore.contains(release_ref(r)) && holds_hash(r, h)
}

/// Some release outside `ignore` references a blob with hash `h`.
pub open spec fn hash_live(releases: Seq<Release>, ignore: Set<Seq<char>>, h: Seq<u8>) -> bool {
    exists|i: int| 0 <= i < releases.len() && #[trigger] keeps_hash(releases[i], ignore, h)
}

/// The pins `(digest, hash)` whose hash no remaining release references.
pub open spec fn orphans(
    releases: Seq<Release>,
    ignore: Set<Seq<char>>,
    pins: Seq<(Digest, Blake3)>,
) -> Seq<(Digest, Blake3)>
    decreases pins.len(),
{
    if pins.len() == 0 {
        Seq::empty()
    } else {
        let rest = orphans(releases, ignore, pins.drop_last());
        if hash_live(releases, ignore, pins.last().1@) {
            rest
        } else {
            rest.push(pins.last())
        }
    }
}

fn release_has_hash(r: &Release, h: &Blake3) -> (b: bool)
    ensures
        b == holds_hash(*r, h@),
{
    if r.payload.manifest.hash == *h {
        return true;
    }
    let mut j: usize = 0;
    while j < r.payload.blobs.len()
        invariant
            0 <= j <= r.payload.blobs@.len(),
            forall|m: int| 0 <= m < j ==> #[trigger] r.payload.blobs@[m].hash@ != h@,
        decreases r.payload.blobs@.len() - j,
    {
        if r.payload.blobs[j].hash == *h {
            return true;
        }
        j = j + 1;
    }
    false
}

fn is_live(releases: &[Release], ignore: &[String], h: &Blake3) -> (b: bool)
    ensures
        b == hash_live(releases@, string_set(ignore@), h@),
{
    let ghost ig = string_set(ignore@);
    let mut i: usize = 0;
    while i < releases.len()
        invariant
            0 <= i <= releases@.len(),
            ig == string_set(ignore@),
            forall|m: int| 0 <= m < i ==> !#[trigger] keeps_hash(releases@[m], ig, h@),
        decreases releases@.len() - i,
    {
        let r = &releases[i];
        let rf = r.reference();
        let live = !contains_string(ignore, rf.as_str()) && release_has_hash(r, h);
        assert(releases@[i as int] == *r);
        assert(live == keeps_hash(releases@[i as int], ig, h@));
        if live {
            return true;
        }
        i = i + 1;
    }
    false
}

/// The pinned blobs no remaining release (outside `ignore`) references: what
/// a sweep unpins.
pub fn orphan_pins(releases: &[Release], ignore: &[String], pins: &[(Digest, Blake3)]) -> (r: Vec<
    (Digest, Blake3),
>)
    ensures
        r@ == orphans(releases@, string_set(ignore@), pins@),
{
    let ghost ig = string_set(ignore@);
    let mut out: Vec<(Digest, Blake3)> = Vec::new();
    let mut i: usize = 0;
    assert(pins@.take(0) =~= Seq::<(Digest, Blake3)>::empty());
    while i < pins.len()
        invariant
            0 <= i <= pins@.len(),
            ig == string_set(ignore@),
            out@ == orphans(releases@, ig, pins@.take(i as int)),
        decreases pins@.len() - i,
    {
        assert(pins@.take(i + 1).drop_last() =~= pins@.take(i as int));
        assert(pins@.take(i + 1).last() == pins@[i as int]);
        if !is_live(releases, ignore, &pins[i].1) {
            let d = pins[i].0.clone();
            out.push((d, pins[i].1));
            assert(out@ =~= orphans(releases@, ig, pins@.take(i as int)).push(pins@[i as int]));
        }
        i = i + 1;
    }
    assert(pins@.take(pins@.len() as int) =~= pins@);
    out
}

/// A blob some remaining release references is never swept.
pub proof fn lemma_live_not_orphan(
    releases: Seq<Release>,
    ignore: Set<Seq<char>>,
    pins: Seq<(Digest, Blake3)>,
    k: int,
)
    requires
        0 <= k < orphans(releases, ignore, pins).len(),
    ensures
        !hash_live(releases, ignore, orphans(releases, ignore, pins)[k].1@),
    decreases pins.len(),
{
    if pins.len() > 0 {
        let rest = orphans(releases, ignore, pins.drop_last());
        if k < rest.len() {
            lemma_live_not_orphan(releases, ignore, pins.drop_last(), k);
            if !hash_live(releases, ignore, pins.last().1@) {
                assert(rest.push(pins.last())[k] == rest[k]);
            }
        }
    }
}

// ---------------------------------------------------------------------------
// gossip, topics, peers
// ---------------------------------------------------------------------------

/// Which topic a gossip receive loop serves.
#[derive(Debug, Clone, Copy)]
pub enum Scope {
    /// The global swarm topic (membership only).
    Swarm,
    /// One publisher's announcement topic.
    Publisher(PublisherId),
}

/// Does a receive loop on `scope` act on an announcement of a release by
/// `announced`? A publisher topic only carries that publisher's releases.
pub fn accepts_announcement(scope: &Scope, announced: &PublisherId) -> (b: bool)
    ensures
        b == match scope {
            Scope::Swarm => true,
            Scope::Publisher(p) => p@ == announced@,
        },
{
    match scope {
        Scope::Swarm => true,
        Scope::Publisher(p) => *p == *announced,
    }
}

/// What a gossip receive loop gets from its topic. `Received` carries the
/// peer that delivered the message and the announced release, `None` when
/// the message does not decode.
#[derive(Debug)]
pub enum GossipEvent {
    NeighborUp(PublisherId),
    NeighborDown(PublisherId),
    Lagged,
    Received { from: PublisherId, summary: Option<ReleaseSummary> },
}

/// What the receive loop does about one event.
#[derive(Debug)]
pub enum GossipAction {
    /// Record a new swarm neighbour, then sync inventories with it.
    NeighborUpThenSync(PublisherId),
    /// Note that the peer was seen, then sync inventories with it.
    SeenThenSync(PublisherId),
    /// Forget a swarm neighbour.
    NeighborDown(PublisherId),
    /// Handle the announcement of `summary` delivered by `from`.
    Announcement { summary: ReleaseSummary, from: PublisherId },
    /// Nothing to do (lagging, an undecodable message, a neighbour leaving a
    /// publisher topic, or an announcement on another publisher's topic).
    Ignore,
}

/// The action for `event` on a loop subscribed to `scope`.
pub open spec fn gossip_action(scope: Scope, event: GossipEvent) -> GossipAction {
    match event {
        GossipEvent::NeighborUp(id) => match scope {
            Scope::Swarm => GossipAction::NeighborUpThenSync(id),
            Scope::Publisher(_) => GossipAction::SeenThenSync(id),
        },
        GossipEvent::NeighborDown(id) => match scope {
            Scope::Swarm => GossipAction::NeighborDown(id),
            Scope::Publisher(_) => GossipAction::Ignore,
        },
        GossipEvent::Lagged => GossipAction::Ignore,
        GossipEvent::Received { from, summary } => match summary {
            None => GossipAction::Ignore,
            Some(s) => match scope {
                Scope::Publisher(p) => if p@ != s.publisher@ {
                    GossipAction::Ignore
                } else {
                    GossipAction::Announcement { summary: s, from }
                },
                Scope::Swarm => GossipAction::Announcement { summary: s, from },
            },
        },
    }
}

/// One step of a gossip receive loop: the action for `event` on `scope`.
pub fn gossip_step(scope: &Scope, event: GossipEvent) -> (a: GossipAction)
    ensures
        a == gossip_action(*scope, event),
{
    match event {
        GossipEvent::NeighborUp(id) => match scope {
            Scope::Swarm => GossipAction::NeighborUpThenSync(id),
            Scope::Publisher(_) => GossipAction::SeenThenSync(id),
        },
        GossipEvent::NeighborDown(id) => match scope {
            Scope::Swarm => GossipAction::NeighborDown(id),
            Scope::Publisher(_) => GossipAction::Ignore,
        },
        GossipEvent::Lagged => GossipAction::Ignore,
        GossipEvent::Received { from, summary } => match summary {
            None => GossipAction::Ignore,
            Some(s) => if accepts_announcement(scope, &s.publisher) {
                GossipAction::Announcement { summary: s, from }
            } else {
                GossipAction::Ignore
            },
        },
    }
}

/// After a removal: does the policy still want the image (so it will be
/// replicated again unless unseeded)? Never for the node's own images.
pub fn still_wanted(me: &PublisherId, policy: &Policy, publisher: &PublisherId, name: &str) -> (b: bool)
    ensures
        b == (publisher@ != me@ && policy.covered(publisher@, name@)),
{
    *publisher != *me && policy.covers(publisher, name)
}

/// Who to ask for an announced release: whoever delivered the announcement,
/// then the publisher itself.
pub fn announcement_providers(from: &PublisherId, publisher: &PublisherId) -> (v: Vec<PublisherId>)
    ensures
        v@.len() >= 1,
        v@[0] == *from,
        publisher@ != from@ ==> v@.len() == 2 && v@[1] == *publisher,
        publisher@ == from@ ==> v@.len() == 1,
{
    let mut v: Vec<PublisherId> = Vec::new();
    v.push(*from);
    if *publisher != *from {
        v.push(*publisher);
    }
    v
}

/// The publisher topics to leave (`stale`) and to join (`fresh`, in key
/// order): a node is on its own topic and on that of every publisher its
/// policy refers to.
pub fn topic_changes(current: &[PublisherId], policy: &Policy, me: &PublisherId) -> (r: (
    Vec<PublisherId>,
    Vec<PublisherId>,
))
    ensures
        forall|i: int| 0 <= i < r.0@.len() ==> key_set(current@).contains(#[trigger] r.0@[i]@)
            && !policy.publishers_spec().insert(me@).contains(r.0@[i]@),
        forall|i: int|
            0 <= i < current@.len() && !policy.publishers_spec().insert(me@).contains(
                #[trigger] current@[i]@,
            ) ==> key_set(r.0@).contains(current@[i]@),
        distinct_keys(r.1@),
        key_set(r.1@) == policy.publishers_spec().insert(me@).difference(key_set(current@)),
        sorted_by_key(r.1@, |p: PublisherId| hex_encode(p@)),
{
    let mut wanted = policy.publishers();
    insert_key(&mut wanted, *me);
    let ghost ws = policy.publishers_spec().insert(me@);
    assert(key_set(wanted@) == ws);
    let mut stale: Vec<PublisherId> = Vec::new();
    let mut i: usize = 0;
    while i < current.len()
        invariant
            0 <= i <= current@.len(),
            key_set(wanted@) == ws,
            ws == policy.publishers_spec().insert(me@),
            forall|j: int| 0 <= j < stale@.len() ==> key_set(current@).contains(#[trigger] stale@[j]@)
                && !ws.contains(stale@[j]@),
            forall|j: int|
                0 <= j < i && !ws.contains(#[trigger] current@[j]@) ==> key_set(stale@).contains(
                    current@[j]@,
                ),
        decreases current@.len() - i,
    {
        let c = current[i];
        if !contains_key(&wanted, &c) {
            let ghost before = stale@;
            stale.push(c);
            proof {
                assert(current@[i as int] == c);
                assert(key_set(current@).contains(c@));
                assert forall|j: int| 0 <= j < i + 1 && !ws.contains(#[trigger] current@[j]@) implies key_set(stale@).contains(current@[j]@) by {
                    if j < i {
                        let m = choose|m: int| 0 <= m < before.len() && #[trigger] before[m]@ == current@[j]@;
                        assert(stale@[m] == before[m]);
                    } else {
                        assert(stale@[before.len() as int] == c);
                    }
                }
            }
        }
        i = i + 1;
    }
    let mut fresh: Vec<PublisherId> = Vec::new();
    let mut k: usize = 0;
    assert(key_set(fresh@) =~= Set::<Seq<u8>>::empty());
    while k < wanted.len()
        invariant
            0 <= k <= wanted@.len(),
            key_set(wanted@) == ws,
            distinct_keys(fresh@),
            forall|t: Seq<u8>| #[trigger] key_set(fresh@).contains(t) <==> (exists|j: int|
                0 <= j < k && #[trigger] wanted@[j]@ == t) && !key_set(current@).contains(t),
        decreases wanted@.len() - k,
    {
        let w = wanted[k];
        if !contains_key(current, &w) {
            insert_key(&mut fresh, w);
        }
        proof {
            assert(wanted@[k as int] == w);
            assert forall|t: Seq<u8>| #[trigger] key_set(fresh@).contains(t) <==> (exists|j: int|
                0 <= j < k + 1 && #[trigger] wanted@[j]@ == t) && !key_set(current@).contains(t) by {
                if t == w@ {
                    assert(wanted@[k as int]@ == t);
                }
            }
        }
        k = k + 1;
    }
    assert(key_set(fresh@) =~= ws.difference(key_set(current@)));
    (stale, sort_keys(fresh))
}

/// Does `v` hold the key of `p`?
pub fn contains_key(v: &[PublisherId], p: &PublisherId) -> (b: bool)
    ensures
        b == key_set(v@).contains(p@),
{
    let mut i: usize = 0;
    while i < v.len()
        invariant
            0 <= i <= v@.len(),
            forall|j: int| 0 <= j < i ==> #[trigger] v@[j]@ != p@,
        decreases v@.len() - i,
    {
        if v[i] == *p {
            assert(v@[i as int]@ == p@);
            return true;
        }
        i = i + 1;
    }
    false
}


/// The keys of publisher ids, in order.
pub open spec fn keys_of(v: Seq<PublisherId>) -> Seq<Seq<u8>> {
    Seq::new(v.len(), |i: int| v[i]@)
}

/// `acc` followed by the keys of `xs` it does not hold yet, in order.
pub open spec fn add_new(acc: Seq<Seq<u8>>, xs: Seq<Seq<u8>>) -> Seq<Seq<u8>>
    decreases xs.len(),
{
    if xs.len() == 0 {
        acc
    } else {
        let a = add_new(acc, xs.drop_last());
        if a.contains(xs.last()) {
            a
        } else {
            a.push(xs.last())
        }
    }
}

/// Peers worth asking about a publisher's images: current neighbors, then
/// remembered peers, then the publisher itself, each once, never the node.
pub open spec fn candidates(me: Seq<u8>, neighbors: Seq<Seq<u8>>, known: Seq<Seq<u8>>, publisher: Seq<u8>) -> Seq<
    Seq<u8>,
> {
    kept(add_new(neighbors, known.push(publisher)), |k: Seq<u8>| k != me)
}

fn keys_contain(v: &Vec<PublisherId>, p: &PublisherId) -> (b: bool)
    ensures
        b == keys_of(v@).contains(p@),
{
    let mut i: usize = 0;
    while i < v.len()
        invariant
            0 <= i <= v@.len(),
            forall|j: int| 0 <= j < i ==> keys_of(v@)[j] != p@,
        decreases v@.len() - i,
    {
        if v[i] == *p {
            assert(keys_of(v@)[i as int] == p@);
            return true;
        }
        i = i + 1;
    }
    false
}

/// Peers worth asking about `publisher`'s images.
pub fn candidate_peers(
    me: &PublisherId,
    neighbors: &[PublisherId],
    known: &[PublisherId],
    publisher: &PublisherId,
) -> (r: Vec<PublisherId>)
    ensures
        keys_of(r@) == candidates(me@, keys_of(neighbors@), keys_of(known@), publisher@),
{
    let mut out: Vec<PublisherId> = Vec::new();
    let mut i: usize = 0;
    while i < neighbors.len()
        invariant
            0 <= i <= neighbors@.len(),
            out@.len() == i,
            keys_of(out@) == keys_of(neighbors@).take(i as int),
        decreases neighbors@.len() - i,
    {
        let x = neighbors[i];
        let ghost before = out@;
        out.push(x);
        assert(out@ == before.push(x));
        assert(keys_of(out@) =~= keys_of(before).push(x@));
        assert(keys_of(neighbors@).take(i + 1) =~= keys_of(neighbors@).take(i as int).push(x@));
        i = i + 1;
    }
    assert(keys_of(neighbors@).take(neighbors@.len() as int) =~= keys_of(neighbors@));
    let ghost nv = keys_of(neighbors@);
    let ghost xs = keys_of(known@).push(publisher@);
    let mut j: usize = 0;
    assert(xs.take(0) =~= Seq::<Seq<u8>>::empty());
    while j < known.len()
        invariant
            0 <= j <= known@.len(),
            xs == keys_of(known@).push(publisher@),
            keys_of(out@) == add_new(nv, xs.take(j as int)),
        decreases known@.len() - j,
    {
        assert(xs.take(j + 1).drop_last() =~= xs.take(j as int));
        assert(xs.take(j + 1).last() == known@[j as int]@);
        if !keys_contain(&out, &known[j]) {
            out.push(known[j]);
            assert(keys_of(out@) =~= add_new(nv, xs.take(j as int)).push(known@[j as int]@));
        }
        j = j + 1;
    }
    assert(xs.take(known@.len() as int + 1).drop_last() =~= xs.take(known@.len() as int));
    assert(xs.take(known@.len() as int + 1) =~= xs);
    if !keys_contain(&out, publisher) {
        out.push(*publisher);
        assert(keys_of(out@) =~= add_new(nv, xs.take(known@.len() as int)).push(publisher@));
    }
    let ghost all = keys_of(out@);
    let ghost keep = |k: Seq<u8>| k != me@;
    let mut res: Vec<PublisherId> = Vec::new();
    let mut m: usize = 0;
    assert(all.take(0) =~= Seq::<Seq<u8>>::empty());
    assert(keys_of(res@) =~= Seq::<Seq<u8>>::empty());
    while m < out.len()
        invariant
            0 <= m <= out@.len(),
            all == keys_of(out@),
            keep == (|k: Seq<u8>| k != me@),
            keys_of(res@) == kept(all.take(m as int), keep),
        decreases out@.len() - m,
    {
        assert(all.take(m + 1).drop_last() =~= all.take(m as int));
        assert(all.take(m + 1).last() == out@[m as int]@);
        if out[m] != *me {
            res.push(out[m]);
            assert(keys_of(res@) =~= kept(all.take(m as int), keep).push(out@[m as int]@));
        }
        m = m + 1;
    }
    assert(all.take(all.len() as int) =~= all);
    res
}

// ---------------------------------------------------------------------------
// referrers
// ---------------------------------------------------------------------------

/// `have` followed by the blobs of `extra` whose digest it does not hold yet.
pub open spec fn blobs_plus(have: Seq<BlobRef>, extra: Seq<BlobRef>) -> Seq<BlobRef>
    decreases extra.len(),
{
    if extra.len() == 0 {
        have
    } else {
        let a = blobs_plus(have, extra.drop_last());
        if exists|i: int| 0 <= i < a.len() && #[trigger] a[i].digest@ == extra.last().digest@ {
            a
        } else {
            a.push(extra.last())
        }
    }
}

/// Whether a release of ours gets referrer `digest` attached: it is ours, its
/// manifest is the subject, and it does not carry that referrer yet.
pub open spec fn attaches(rel: Release, me: Seq<u8>, subject: Seq<char>, digest: Seq<char>) -> bool {
    rel.payload.publisher@ == me && rel.payload.manifest.digest@ == subject && !exists|i: int|
        0 <= i < rel.payload.referrers@.len() && #[trigger] rel.payload.referrers@[i].digest@
            == digest
}

/// The payload to re-sign when a referrer (signature, SBOM, ...) is attached
/// to one of our releases whose manifest is `subject`: the referrer appended,
/// its blobs added, and a timestamp newer than the release's. `None` when the
/// release is not ours, has another manifest, or carries the referrer already.
pub fn attach_referrer_payload(
    rel: Release,
    me: &PublisherId,
    subject: &Digest,
    referrer: Referrer,
    blobs: &[BlobRef],
    now: u64,
) -> (r: Option<ReleasePayload>)
    requires
        rel.payload.timestamp < u64::MAX,
    ensures
        !attaches(rel, me@, subject@, referrer.digest@) ==> r is None,
        attaches(rel, me@, subject@, referrer.digest@) ==> r is Some && ({
            let p = r->0;
            &&& p.version == rel.payload.version
            &&& p.publisher == rel.payload.publisher
            &&& p.name == rel.payload.name
            &&& p.tag == rel.payload.tag
            &&& p.manifest == rel.payload.manifest
            &&& p.referrers@ == rel.payload.referrers@.push(referrer)
            &&& p.blobs@ == blobs_plus(rel.payload.blobs@, blobs@)
            &&& p.timestamp == if now > rel.payload.timestamp + 1 {
                now
            } else {
                (rel.payload.timestamp + 1) as u64
            }
        }),
{
    if rel.payload.publisher != *me || rel.payload.manifest.digest != *subject {
        return None;
    }
    let mut i: usize = 0;
    while i < rel.payload.referrers.len()
        invariant
            0 <= i <= rel.payload.referrers@.len(),
            forall|j: int| 0 <= j < i ==> #[trigger] rel.payload.referrers@[j].digest@ != referrer.digest@,
        decreases rel.payload.referrers@.len() - i,
    {
        if rel.payload.referrers[i].digest == referrer.digest {
            return None;
        }
        i = i + 1;
    }
    let ghost old_rel = rel;
    let mut payload = rel.payload;
    payload.referrers.push(referrer);
    let ghost have = payload.blobs@;
    let mut k: usize = 0;
    assert(blobs@.take(0) =~= Seq::<BlobRef>::empty());
    while k < blobs.len()
        invariant
            0 <= k <= blobs@.len(),
            payload.blobs@ == blobs_plus(have, blobs@.take(k as int)),
            payload.version == old_rel.payload.version,
            payload.publisher == old_rel.payload.publisher,
            payload.name == old_rel.payload.name,
            payload.tag == old_rel.payload.tag,
            payload.manifest == old_rel.payload.manifest,
            payload.timestamp == old_rel.payload.timestamp,
            payload.referrers@ == old_rel.payload.referrers@.push(referrer),
        decreases blobs@.len() - k,
    {
        assert(blobs@.take(k + 1).drop_last() =~= blobs@.take(k as int));
        assert(blobs@.take(k + 1).last() == blobs@[k as int]);
        let b = &blobs[k];
        let mut present = false;
        let mut j: usize = 0;
        while j < payload.blobs.len()
            invariant
                0 <= j <= payload.blobs@.len(),
                present == exists|m: int| 0 <= m < j && #[trigger] payload.blobs@[m].digest@ == b.digest@,
            decreases payload.blobs@.len() - j,
        {
            if payload.blobs[j].digest == b.digest {
                present = true;
            }
            j = j + 1;
        }
        if !present {
            payload.blobs.push(b.clone());
        }
        k = k + 1;
    }
    assert(blobs@.take(blobs@.len() as int) =~= blobs@);
    let next = payload.timestamp + 1;
    payload.timestamp = if now > next {
        now
    } else {
        next
    };
    Some(payload)
}

// ---------------------------------------------------------------------------
// inventories
// ---------------------------------------------------------------------------

/// The remote summaries of image `(p, n)`, in order.
pub open spec fn image_summaries(inv: Seq<ReleaseSummary>, p: Seq<u8>, n: Seq<char>) -> Seq<ReleaseSummary> {
    kept(inv, |s: ReleaseSummary| s.publisher@ == p && s.name@ == n)
}

/// The summaries of a peer's inventory that belong to image `(p, n)`.
pub fn summaries_of(inv: &[ReleaseSummary], p: &PublisherId, n: &str) -> (r: Vec<ReleaseSummary>)
    ensures
        r@ == image_summaries(inv@, p@, n@),
{
    let ghost keep = |s: ReleaseSummary| s.publisher@ == p@ && s.name@ == n@;
    let mut out: Vec<ReleaseSummary> = Vec::new();
    let mut i: usize = 0;
    assert(inv@.take(0) =~= Seq::<ReleaseSummary>::empty());
    while i < inv.len()
        invariant
            0 <= i <= inv@.len(),
            keep == (|s: ReleaseSummary| s.publisher@ == p@ && s.name@ == n@),
            out@ == kept(inv@.take(i as int), keep),
        decreases inv@.len() - i,
    {
        assert(inv@.take(i + 1).drop_last() =~= inv@.take(i as int));
        assert(inv@.take(i + 1).last() == inv@[i as int]);
        if inv[i].publisher == *p && str_eq(inv[i].name.as_str(), n) {
            out.push(inv[i].clone());
        }
        i = i + 1;
    }
    assert(inv@.take(inv@.len() as int) =~= inv@);
    out
}

/// Some summary of `inv` by another publisher than `me` is of image `(p, n)`.
pub open spec fn in_inventory(inv: Seq<ReleaseSummary>, me: Seq<u8>, p: Seq<u8>, n: Seq<char>) -> bool {
    exists|j: int| 0 <= j < inv.len() && #[trigger] summary_of(inv[j], me, p, n)
}

/// Summary `s` is by another publisher than `me` and of image `(p, n)`.
pub open spec fn summary_of(s: ReleaseSummary, me: Seq<u8>, p: Seq<u8>, n: Seq<char>) -> bool {
    s.publisher@ == p && s.name@ == n && s.publisher@ != me
}

/// The images `v` lists, as plain values.
pub open spec fn image_keys(v: Seq<(PublisherId, String)>) -> Seq<(Seq<u8>, Seq<char>)> {
    Seq::new(v.len(), |i: int| (v[i].0@, v[i].1@))
}

/// The text images are ordered by: the publisher's hex, `/`, the name. All
/// hex keys have one length, so this orders by publisher, then by name.
pub open spec fn image_text(k: (Seq<u8>, Seq<char>)) -> Seq<char> {
    hex_encode(k.0) + seq!['/'] + k.1
}

/// `v` strictly ascending by `image_text`.
pub open spec fn images_ascending(v: Seq<(Seq<u8>, Seq<char>)>) -> bool {
    forall|a: int, b: int|
        0 <= a < b < v.len() ==> text_le(image_text(#[trigger] v[a]), image_text(#[trigger] v[b]))
            && image_text(v[a]) != image_text(v[b])
}

proof fn lemma_image_text_injective(a: (Seq<u8>, Seq<char>), b: (Seq<u8>, Seq<char>))
    requires
        a.0.len() == 32,
        b.0.len() == 32,
        image_text(a) == image_text(b),
    ensures
        a == b,
{
    let t = image_text(a);
    assert(hex_encode(a.0) =~= t.subrange(0, 64));
    assert(hex_encode(b.0) =~= t.subrange(0, 64));
    lemma_hex_roundtrip(a.0);
    lemma_hex_roundtrip(b.0);
    assert(a.1 =~= t.subrange(65, t.len() as int));
    assert(b.1 =~= t.subrange(65, t.len() as int));
}

proof fn lemma_insert_ascending(v: Seq<(Seq<u8>, Seq<char>)>, k: (Seq<u8>, Seq<char>), pos: int)
    requires
        images_ascending(v),
        0 <= pos <= v.len(),
        forall|a: int| 0 <= a < pos ==> !text_le(image_text(k), image_text(#[trigger] v[a])),
        pos < v.len() ==> text_le(image_text(k), image_text(v[pos])),
        pos < v.len() ==> image_text(k) != image_text(v[pos]),
    ensures
        images_ascending(v.insert(pos, k)),
{
    let w = v.insert(pos, k);
    let t = image_text(k);
    lemma_text_le_refl(t);
    assert forall|a: int, b: int| 0 <= a < b < w.len() implies text_le(
        image_text(#[trigger] w[a]),
        image_text(#[trigger] w[b]),
    ) && image_text(w[a]) != image_text(w[b]) by {
        if b < pos {
            assert(w[a] == v[a] && w[b] == v[b]);
        } else if b == pos {
            assert(w[a] == v[a] && w[b] == k);
            lemma_text_le_total(t, image_text(v[a]));
        } else if a == pos {
            assert(w[a] == k && w[b] == v[b - 1]);
            if b - 1 > pos {
                lemma_text_le_trans(t, image_text(v[pos]), image_text(v[b - 1]));
                if t == image_text(v[b - 1]) {
                    lemma_text_le_antisym(image_text(v[pos]), image_text(v[b - 1]));
                }
            }
        } else if a < pos {
            assert(w[a] == v[a] && w[b] == v[b - 1]);
        } else {
            assert(w[a] == v[a - 1] && w[b] == v[b - 1]);
        }
    }
}

/// The images of a peer's inventory other than the node's own, each once,
/// ordered by publisher, then by name.
pub fn inventory_images(inv: &[ReleaseSummary], me: &PublisherId) -> (r: Vec<(PublisherId, String)>)
    ensures
        forall|i: int| 0 <= i < r@.len() ==> in_inventory(inv@, me@, #[trigger] image_keys(r@)[i].0, image_keys(r@)[i].1),
        forall|j: int|
            0 <= j < inv@.len() && inv@[j].publisher@ != me@ ==> image_keys(r@).contains(
                (#[trigger] inv@[j].publisher@, inv@[j].name@),
            ),
        image_keys(r@).no_duplicates(),
        images_ascending(image_keys(r@)),
{
    let mut out: Vec<(PublisherId, String)> = Vec::new();
    let mut i: usize = 0;
    assert(image_keys(out@) =~= Seq::<(Seq<u8>, Seq<char>)>::empty());
    while i < inv.len()
        invariant
            0 <= i <= inv@.len(),
            forall|x: int| 0 <= x < out@.len() ==> in_inventory(inv@, me@, #[trigger] image_keys(out@)[x].0, image_keys(out@)[x].1),
            forall|j: int|
                0 <= j < i && inv@[j].publisher@ != me@ ==> image_keys(out@).contains(
                    (#[trigger] inv@[j].publisher@, inv@[j].name@),
                ),
            images_ascending(image_keys(out@)),
        decreases inv@.len() - i,
    {
        let s = &inv[i];
        assert(inv@[i as int] == *s);
        if s.publisher != *me {
            let ghost key = (s.publisher@, s.name@);
            let ghost keys = image_keys(out@);
            let t = image_text_exec(&s.publisher, s.name.as_str());
            let mut pos: usize = 0;
            loop
                invariant
                    0 <= pos <= out@.len(),
                    keys == image_keys(out@),
                    t@ == image_text(key),
                    forall|a: int| 0 <= a < pos ==> !text_le(t@, image_text(#[trigger] keys[a])),
                ensures
                    0 <= pos <= out@.len(),
                    forall|a: int| 0 <= a < pos ==> !text_le(t@, image_text(#[trigger] keys[a])),
                    pos < out@.len() ==> text_le(t@, image_text(keys[pos as int])),
                decreases out@.len() - pos,
            {
                if pos >= out.len() {
                    break;
                }
                let u = image_text_exec(&out[pos].0, out[pos].1.as_str());
                assert(keys[pos as int] == (out@[pos as int].0@, out@[pos as int].1@));
                if text_le_exec(t.as_str(), u.as_str()) {
                    break;
                }
                pos = pos + 1;
            }
            let present = pos < out.len() && out[pos].0 == s.publisher && str_eq(
                out[pos].1.as_str(),
                s.name.as_str(),
            );
            if present {
                proof {
                    assert(keys[pos as int] == key);
                    assert forall|jj: int|
                        0 <= jj < i + 1 && inv@[jj].publisher@ != me@ implies image_keys(out@).contains(
                            (#[trigger] inv@[jj].publisher@, inv@[jj].name@),
                        ) by {
                        if jj == i {
                            assert(image_keys(out@)[pos as int] == key);
                        }
                    }
                }
            } else {
                proof {
                    if pos < out@.len() {
                        assert(keys[pos as int] == (out@[pos as int].0@, out@[pos as int].1@));
                        assert(keys[pos as int] != key);
                        if image_text(key) == image_text(keys[pos as int]) {
                            crate::identity::lemma_publisher_len(s.publisher);
                            crate::identity::lemma_publisher_len(out@[pos as int].0);
                            lemma_image_text_injective(key, keys[pos as int]);
                        }
                    }
                    lemma_insert_ascending(keys, key, pos as int);
                }
                out.insert(pos, (s.publisher, s.name.clone()));
                proof {
                    assert(image_keys(out@) =~= keys.insert(pos as int, key));
                    assert(summary_of(inv@[i as int], me@, s.publisher@, s.name@));
                    assert(in_inventory(inv@, me@, s.publisher@, s.name@));
                    assert forall|x: int| 0 <= x < out@.len() implies in_inventory(inv@, me@, #[trigger] image_keys(out@)[x].0, image_keys(out@)[x].1) by {
                        if x < pos {
                            assert(image_keys(out@)[x] == keys[x]);
                        } else if x > pos {
                            assert(image_keys(out@)[x] == keys[x - 1]);
                        }
                    }
                    assert forall|jj: int|
                        0 <= jj < i + 1 && inv@[jj].publisher@ != me@ implies image_keys(out@).contains(
                            (#[trigger] inv@[jj].publisher@, inv@[jj].name@),
                        ) by {
                        if jj < i {
                            let x = choose|x: int| 0 <= x < keys.len() && keys[x] == (inv@[jj].publisher@, inv@[jj].name@);
                            if x < pos {
                                assert(image_keys(out@)[x] == keys[x]);
                            } else {
                                assert(image_keys(out@)[x + 1] == keys[x]);
                            }
                        } else {
                            assert(image_keys(out@)[pos as int] == key);
                        }
                    }
                }
            }
        }
        i = i + 1;
    }
    proof {
        let ks = image_keys(out@);
        assert forall|a: int, b: int| 0 <= a < ks.len() && 0 <= b < ks.len() && a != b implies ks[a] != ks[b] by {
            if a < b {
                assert(image_text(ks[a]) != image_text(ks[b]));
            } else {
                assert(image_text(ks[b]) != image_text(ks[a]));
            }
        }
    }
    out
}

/// The text `image_text` gives image `(p, n)`.
fn image_text_exec(p: &PublisherId, n: &str) -> (s: String)
    ensures
        s@ == image_text((p@, n@)),
{
    let h = p.to_string();
    let mut v = chars_of(h.as_str());
    v.push('/');
    push_str(&mut v, n);
    string_of(&v)
}

// ---------------------------------------------------------------------------
// fetching
// ---------------------------------------------------------------------------

/// The peers a release's blobs are downloaded from: the providers, less this
/// node.
pub fn fetch_providers(providers: &[PublisherId], me: &PublisherId) -> (r: Vec<PublisherId>)
    ensures
        keys_of(r@) == kept(keys_of(providers@), |k: Seq<u8>| k != me@),
{
    let ghost keep = |k: Seq<u8>| k != me@;
    let mut out: Vec<PublisherId> = Vec::new();
    let mut i: usize = 0;
    assert(keys_of(providers@).take(0) =~= Seq::<Seq<u8>>::empty());
    assert(keys_of(out@) =~= Seq::<Seq<u8>>::empty());
    while i < providers.len()
        invariant
            0 <= i <= providers@.len(),
            keep == (|k: Seq<u8>| k != me@),
            keys_of(out@) == kept(keys_of(providers@).take(i as int), keep),
        decreases providers@.len() - i,
    {
        let p = providers[i];
        assert(keys_of(providers@).take(i + 1).drop_last() =~= keys_of(providers@).take(i as int));
        assert(keys_of(providers@).take(i + 1).last() == p@);
        if p != *me {
            let ghost before = out@;
            out.push(p);
            assert(keys_of(out@) =~= keys_of(before).push(p@));
        }
        i = i + 1;
    }
    assert(keys_of(providers@).take(providers@.len() as int) =~= keys_of(providers@));
    out
}

/// What replicating a release does with one of its blobs.
#[derive(Debug, Clone, Copy, PartialEq, Eq, Structural)]
pub enum BlobAction {
    /// Held and recorded: nothing to do.
    Keep,
    /// Held but not recorded: check it against the record, then record it.
    CheckAndRecord,
    /// Not held: download it from the providers, check and record it.
    Download,
    /// Not held and nobody to download it from: the replication fails.
    NoProvider,
}

pub fn blob_action(held: bool, recorded: bool, providers: usize) -> (a: BlobAction)
    ensures
        a == if held {
            if recorded {
                BlobAction::Keep
            } else {
                BlobAction::CheckAndRecord
            }
        } else if providers == 0 {
            BlobAction::NoProvider
        } else {
            BlobAction::Download
        },
{
    if held {
        if recorded {
            BlobAction::Keep
        } else {
            BlobAction::CheckAndRecord
        }
    } else if providers == 0 {
        BlobAction::NoProvider
    } else {
        BlobAction::Download
    }
}

/// Seconds after which an unfinished upload is dropped.
pub const UPLOAD_MAX_AGE: u64 = 86400;

/// An unfinished upload is stale once older than a day; one whose age is
/// unknown is kept.
pub fn upload_stale(age: Option<u64>) -> (b: bool)
    ensures
        b == (age matches Some(a) && a > UPLOAD_MAX_AGE),
{
    match age {
        Some(a) => a > UPLOAD_MAX_AGE,
        None => false,
    }
}

/// Own releases and pinned releases are never touched: garbage collection,
/// given the retained references (`retained_set`), never removes them, with
/// or without `force`, and window enforcement (`window_prune_tags`) never
/// prunes their tags.
pub proof fn lemma_own_and_pinned_untouched(
    policy: Policy,
    me: Seq<u8>,
    all: Seq<Release>,
    r: Release,
    refs: Seq<Seq<char>>,
    ages: Seq<Option<u64>>,
    grace: u64,
    force: bool,
    local: Seq<Release>,
)
    requires
        all.contains(r),
        r.payload.publisher@ == me || policy.pinned(r.payload.publisher@, r.payload.name@, r.payload.tag@),
    ensures
        !gc_removed(retained_refs(policy, me, all), refs, ages, grace, force).contains(release_ref(r)),
        !window_prunes(policy, me, r.payload.publisher@, r.payload.name@, local).contains(r.payload.tag@),
{
    let p = r.payload.publisher@;
    let n = r.payload.name@;
    if p != me {
        lemma_pinned_retained(policy, me, all, r);
        lemma_pinned_not_pruned(policy, me, p, n, local, r.payload.tag@);
    }
    assert(retained(policy, me, all, r));
    let i = choose|i: int| 0 <= i < all.len() && all[i] == r;
    assert(retained(policy, me, all, all[i]) && release_ref(all[i]) == release_ref(r));
    assert(retained_refs(policy, me, all).contains(release_ref(r)));
    lemma_gc_keeps_retained(retained_refs(policy, me, all), refs, ages, grace, force, release_ref(r));
}

/// With each tag held once, the local timestamp of a held tag is that of the
/// release holding it.
proof fn lemma_local_ts_held(local: Seq<Release>, j: int)
    requires
        0 <= j < local.len(),
        forall|a: int, b: int|
            0 <= a < b < local.len() ==> #[trigger] local[a].payload.tag@ != #[trigger] local[b].payload.tag@,
    ensures
        local_ts(local, local[j].payload.tag@) == Some(local[j].payload.timestamp),
    decreases local.len(),
{
    let l = local.len() - 1;
    if j < l {
        assert(local[j].payload.tag@ != local[l].payload.tag@);
        let t = local.drop_last();
        assert forall|a: int, b: int| 0 <= a < b < t.len() implies #[trigger] t[a].payload.tag@
            != #[trigger] t[b].payload.tag@ by {
            assert(t[a] == local[a] && t[b] == local[b]);
        }
        assert(t[j] == local[j]);
        lemma_local_ts_held(t, j);
    }
}

/// What `select_wanted` fetches is only ever announced releases strictly newer
/// than the one held of the same tag (each tag held once): a release already
/// held, or an older one, is never fetched again.
pub proof fn lemma_wanted_newer_than_held(
    policy: Policy,
    p: Seq<u8>,
    n: Seq<char>,
    local: Seq<Release>,
    remote: Seq<ReleaseSummary>,
)
    requires
        forall|a: int, b: int|
            0 <= a < b < local.len() ==> #[trigger] local[a].payload.tag@ != #[trigger] local[b].payload.tag@,
    ensures
        forall|i: int, j: int|
            0 <= i < wanted(policy, p, n, local, remote).len() && 0 <= j < local.len()
                && #[trigger] wanted(policy, p, n, local, remote)[i].tag@ == #[trigger] local[j].payload.tag@
                ==> wanted(policy, p, n, local, remote)[i].timestamp > local[j].payload.timestamp,
        forall|i: int|
            0 <= i < wanted(policy, p, n, local, remote).len() ==> remote.contains(
                #[trigger] wanted(policy, p, n, local, remote)[i],
            ),
{
    let w = wanted(policy, p, n, local, remote);
    if !window_empty(policy, p, n) {
        let known = last_occurrences(release_pairs(local)) + summary_pairs(remote);
        let sel = window_keeps(policy, p, n, known);
        let keep = |s: ReleaseSummary|
            sel.contains(s.tag@) && match local_ts(local, s.tag@) {
                Some(t) => s.timestamp > t,
                None => true,
            };
        assert(w == kept(remote, keep));
        crate::seqs::lemma_kept_all(remote, keep);
        assert forall|i: int, j: int|
            0 <= i < w.len() && 0 <= j < local.len() && #[trigger] w[i].tag@ == #[trigger] local[j].payload.tag@
            implies w[i].timestamp > local[j].payload.timestamp by {
            assert(keep(w[i]));
            lemma_local_ts_held(local, j);
        }
        lemma_kept_within(remote, keep);
    }
}

/// What `kept` keeps was there.
proof fn lemma_kept_within<T>(s: Seq<T>, keep: spec_fn(T) -> bool)
    ensures
        forall|i: int| 0 <= i < kept(s, keep).len() ==> s.contains(#[trigger] kept(s, keep)[i]),
    decreases s.len(),
{
    if s.len() > 0 {
        let t = s.drop_last();
        lemma_kept_within(t, keep);
        let kt = kept(t, keep);
        assert forall|i: int| 0 <= i < kept(s, keep).len() implies s.contains(#[trigger] kept(s, keep)[i]) by {
            if i < kt.len() {
                assert(kept(s, keep)[i] == kt[i]);
                assert(t.contains(kt[i]));
                let m = choose|m: int| 0 <= m < t.len() && t[m] == kt[i];
                assert(s[m] == t[m]);
            } else {
                assert(kept(s, keep)[i] == s.last());
                assert(s[s.len() - 1] == s.last());
            }
        }
    }
}

} // verus!
