//! The decisions of the command-line client: the retention mode its flags
//! give, the policy edits it makes itself when no daemon runs, and the
//! columns of the image listing.

use vstd::prelude::*;
use crate::api::ReleaseInfo;
use crate::config::{
    alias_lookup, alias_views, lemma_last_text, mode_from_text, mode_text, position_of_text, seed_rule_from_text, seed_views,
    seeds_after_add, Mode, Policy,
};
use crate::error::Error;
use crate::identity::PublisherId;
use crate::oci::{hybrid_reference, opt_view, reference_text, ImageRef};
use crate::order::{lemma_text_le_total, lemma_text_le_trans, text_le, text_le_exec};
use crate::release::{sizes_total, Release, ReleaseSummary};
use crate::seqs::first_where;
use crate::text::{
    chars_of, contains_seq, dec, dec_string, find, find_char, hex_encode, lemma_find, owned,
    push_str, str_eq, string_of, texts_view,
};
use crate::tui::{policy_label, policy_label_text};

verus! {

/// The mode chosen by `--full`, `--latest` and `--last N` (at most one is
/// given): `full`, else `last:N` read as a mode text (refused for 0, `latest`
/// for 1), else `latest`.
pub open spec fn mode_of_flags(full: bool, last: Option<u32>) -> Result<Mode, Error> {
    if full {
        Ok(Mode::Full)
    } else {
        match last {
            Some(n) => if n == 0 {
                Err(Error::ModeZero)
            } else if n == 1 {
                Ok(Mode::Latest)
            } else {
                Ok(Mode::Last(n))
            },
            None => Ok(Mode::Latest),
        }
    }
}

/// The retention flags of `seed` and `follow`: `--full`, `--latest` and
/// `--last N` (at most one is given).
#[derive(Debug, Clone, Copy)]
pub struct ModeArgs {
    pub full: bool,
    pub latest: bool,
    pub last: Option<u32>,
}

impl ModeArgs {
    /// The mode the flags ask for.
    pub fn mode(&self) -> (r: Result<Mode, Error>)
        ensures
            r == mode_of_flags(self.full, self.last),
    {
        if self.full {
            return Ok(Mode::Full);
        }
        match self.last {
            Some(n) => if n == 0 {
                Err(Error::ModeZero)
            } else if n == 1 {
                Ok(Mode::Latest)
            } else {
                Ok(Mode::Last(n))
            },
            None => Ok(Mode::Latest),
        }
    }
}

/// `--last N` means what the mode text `last:N` means.
pub proof fn lemma_flags_as_text(n: u32)
    ensures
        mode_of_flags(false, Some(n)) == mode_from_text(mode_text(Mode::Last(n))),
{
    lemma_last_text(n);
}

/// `this tag` for a tagged rule, `mode <mode>` otherwise: the canonical rule
/// text only has a `:` in front of a tag.
pub open spec fn tag_or_mode_text(reference: Seq<char>, mode: Mode) -> Seq<char> {
    if find(reference, ':') is Some {
        "this tag"@
    } else {
        "mode "@ + mode_text(mode)
    }
}

pub fn tag_or_mode(reference: &str, mode: Mode) -> (s: String)
    ensures
        s@ == tag_or_mode_text(reference@, mode),
{
    let v = chars_of(reference);
    if find_char(&v, ':').is_some() {
        proof {
            reveal_strlit("this tag");
        }
        owned("this tag")
    } else {
        let mut out = chars_of("mode ");
        let m = mode.to_string();
        push_str(&mut out, m.as_str());
        proof {
            reveal_strlit("mode ");
        }
        string_of(&out)
    }
}

pub fn yes_no(b: bool) -> (s: String)
    ensures
        s@ == if b {
            "yes"@
        } else {
            "no"@
        },
{
    if b {
        owned("yes")
    } else {
        owned("no")
    }
}

// ---------------------------------------------------------------------------
// offline policy edits
// ---------------------------------------------------------------------------

/// The seed rules after seeding the canonical text `c` in `mode`, as
/// `Policy::add_seed` leaves them: `Ok(changed)`, or the error of the rule.
pub open spec fn seed_outcome(old: Policy, new: Policy, c: Seq<char>, mode: Mode, changed: Result<
    bool,
    Error,
>) -> bool {
    match seed_rule_from_text(c, mode) {
        Err(e) => changed == Err::<bool, Error>(e) && seed_views(new.seed@) == seed_views(
            old.seed@,
        ),
        Ok(x) => changed is Ok && seeds_after_add(
            seed_views(old.seed@),
            reference_text(x.0, x.1, x.2),
            mode,
            x.2 is Some,
        ) == (seed_views(new.seed@), changed->Ok_0) && new.covered(x.0, x.1),
    }
}

/// Seeds `reference` (as the user wrote it: aliases and the node's own names
/// resolve) in the local policy; the node's own images are refused, as they
/// are always kept. Returns whether the policy changed and the canonical
/// rule.
pub fn seed_offline(policy: &mut Policy, me: &PublisherId, reference: &str, mode: Mode) -> (r:
    Result<(bool, String), Error>)
    ensures
        match hybrid_reference(reference@, alias_views(old(policy).alias@), me@) {
            Err(e) => r == Err::<(bool, String), Error>(e) && *final(policy) == *old(policy),
            Ok(x) => if x.0 == me@ {
                r == Err::<(bool, String), Error>(Error::OwnImage) && *final(policy) == *old(policy)
            } else {
                let c = reference_text(x.0, x.1, x.2);
                &&& seed_outcome(
                    *old(policy),
                    *final(policy),
                    c,
                    mode,
                    match r {
                        Ok((changed, _)) => Ok(changed),
                        Err(e) => Err(e),
                    },
                )
                &&& r matches Ok((_, t)) ==> t@ == c
            },
        },
        final(policy).follow == old(policy).follow,
        final(policy).pin == old(policy).pin,
        final(policy).alias == old(policy).alias,
{
    let r = match ImageRef::parse(reference, policy, me) {
        Ok(r) => r,
        Err(e) => return Err(e),
    };
    if r.publisher == *me {
        return Err(Error::OwnImage);
    }
    let text = r.to_string();
    match policy.add_seed(text.as_str(), mode) {
        Ok(changed) => Ok((changed, text)),
        Err(e) => Err(e),
    }
}

/// Pins `reference` (as the user wrote it) in the local policy; a reference
/// without a tag is refused. Returns whether the policy changed and the
/// canonical reference.
pub fn pin_offline(policy: &mut Policy, me: &PublisherId, reference: &str) -> (r: Result<
    (bool, String),
    Error,
>)
    ensures
        match hybrid_reference(reference@, alias_views(old(policy).alias@), me@) {
            Err(e) => r == Err::<(bool, String), Error>(e) && *final(policy) == *old(policy),
            Ok(x) => if x.2 is None {
                r == Err::<(bool, String), Error>(Error::PinWithoutTag) && *final(policy) == *old(
                    policy,
                )
            } else {
                let c = reference_text(x.0, x.1, x.2);
                &&& r matches Ok((_, t)) ==> t@ == c
                &&& match seed_rule_from_text(c, Mode::Full) {
                    Err(e) => r == Err::<(bool, String), Error>(e) && final(policy).pin == old(
                        policy,
                    ).pin,
                    Ok(y) => if y.2 is None {
                        r == Err::<(bool, String), Error>(Error::PinWithoutTag) && final(policy).pin
                            == old(policy).pin
                    } else {
                        let k = reference_text(y.0, y.1, y.2);
                        if texts_view(old(policy).pin@).contains(k) {
                            r matches Ok((false, _)) && final(policy).pin == old(policy).pin
                        } else {
                            r matches Ok((true, _)) && texts_view(final(policy).pin@) == texts_view(
                                old(policy).pin@,
                            ).push(k)
                        }
                    },
                }
            },
        },
        final(policy).seed == old(policy).seed,
        final(policy).follow == old(policy).follow,
        final(policy).alias == old(policy).alias,
{
    let r = match ImageRef::parse(reference, policy, me) {
        Ok(r) => r,
        Err(e) => return Err(e),
    };
    if r.tag.is_none() {
        return Err(Error::PinWithoutTag);
    }
    let text = r.to_string();
    match policy.add_pin(text.as_str()) {
        Ok(added) => Ok((added, text)),
        Err(e) => Err(e),
    }
}

// ---------------------------------------------------------------------------
// the image listing
// ---------------------------------------------------------------------------

/// A release as listed from the on-disk index when no daemon runs:
/// `complete` is whether every blob has an index entry.
pub fn release_info(r: &Release, complete: bool, me: &PublisherId) -> (i: ReleaseInfo)
    requires
        sizes_total(seq![r.payload.manifest] + r.payload.blobs@) <= u64::MAX,
    ensures
        i.complete == complete,
        i.size == sizes_total(seq![r.payload.manifest] + r.payload.blobs@),
        i.blobs == r.payload.blobs@.len() + 1,
        i.mine == (r.payload.publisher@ == me@),
        i.summary.publisher == r.payload.publisher,
        i.summary.name@ == r.payload.name@,
        i.summary.tag@ == r.payload.tag@,
        i.summary.manifest_digest@ == r.payload.manifest.digest@,
        i.summary.timestamp == r.payload.timestamp,
{
    let blobs = r.all_blobs().len();
    ReleaseInfo {
        complete,
        size: r.total_size(),
        blobs,
        mine: r.payload.publisher == *me,
        summary: ReleaseSummary::from(r),
    }
}

/// `Some(k)` is the alias shown for `target`: an alias that stands for it,
/// the greatest in text order if several do; `None` when none does.
pub open spec fn shows_alias(
    av: Seq<(Seq<char>, Seq<char>)>,
    target: Seq<char>,
    r: Option<Seq<char>>,
) -> bool {
    match r {
        Some(k) => alias_lookup(av, k) == Some(target) && forall|j: int|
            0 <= j < av.len() && alias_lookup(av, #[trigger] av[j].0) == Some(target) ==> text_le(
                av[j].0,
                k,
            ),
        None => forall|j: int| 0 <= j < av.len() ==> alias_lookup(av, #[trigger] av[j].0) != Some(target),
    }
}

/// The alias the listing shows for `target` (a publisher, or
/// `<publisher>/<name>`).
pub fn shown_alias(alias: &Vec<(String, String)>, target: &str) -> (r: Option<String>)
    ensures
        shows_alias(alias_views(alias@), target@, opt_view(r)),
{
    let ghost av = alias_views(alias@);
    let mut best: Option<String> = None;
    let mut i: usize = 0;
    while i < alias.len()
        invariant
            0 <= i <= alias@.len(),
            av == alias_views(alias@),
            match best {
                Some(b) => alias_lookup(av, b@) == Some(target@) && forall|j: int|
                    0 <= j < i && alias_lookup(av, #[trigger] av[j].0) == Some(target@) ==> text_le(
                        av[j].0,
                        b@,
                    ),
                None => forall|j: int| 0 <= j < i ==> alias_lookup(av, #[trigger] av[j].0) != Some(target@),
            },
        decreases alias@.len() - i,
    {
        let k = &alias[i].0;
        assert(av[i as int] == (alias@[i as int].0@, alias@[i as int].1@));
        match position_of_text(alias, k.as_str()) {
            Some(p) => {
                assert(av[p as int] == (alias@[p as int].0@, alias@[p as int].1@));
                assert(alias_lookup(av, k@) == Some(av[p as int].1));
                if str_eq(alias[p].1.as_str(), target) {
                    let replace = match &best {
                        None => true,
                        Some(b) => text_le_exec(b.as_str(), k.as_str()),
                    };
                    if replace {
                        proof {
                            match best {
                                Some(b) => {
                                    assert forall|j: int|
                                        0 <= j < i + 1 && alias_lookup(av, #[trigger] av[j].0)
                                            == Some(target@) implies text_le(av[j].0, k@) by {
                                        if j < i {
                                            lemma_text_le_trans(av[j].0, b@, k@);
                                        } else {
                                            crate::order::lemma_text_le_refl(k@);
                                        }
                                    }
                                },
                                None => {
                                    assert forall|j: int|
                                        0 <= j < i + 1 && alias_lookup(av, #[trigger] av[j].0)
                                            == Some(target@) implies text_le(av[j].0, k@) by {
                                        crate::order::lemma_text_le_refl(k@);
                                    }
                                },
                            }
                        }
                        best = Some(k.clone());
                    } else {
                        proof {
                            let b = best->Some_0;
                            lemma_text_le_total(b@, k@);
                        }
                    }
                } else {
                    assert(alias_lookup(av, av[i as int].0) != Some(target@));
                }
            },
            None => {
                assert(alias_lookup(av, av[i as int].0) is None);
            },
        }
        i = i + 1;
    }
    best
}

/// The columns of one row of the image listing, but the size (which the
/// caller renders in binary units).
#[derive(Debug, Clone)]
pub struct ListRow {
    pub publisher: String,
    pub image: String,
    pub tag: String,
    pub digest: String,
    pub blobs: String,
    pub state: String,
    pub policy: String,
}

/// The first `n` characters of `s` and an ellipsis.
pub open spec fn prefix_dots(s: Seq<char>, n: int) -> Seq<char> {
    s.take(n).push('…')
}

fn take_dots(s: &str, n: usize) -> (r: String)
    requires
        n <= s@.len(),
    ensures
        r@ == prefix_dots(s@, n as int),
{
    let v = chars_of(s);
    let mut out: Vec<char> = Vec::new();
    let mut i: usize = 0;
    while i < n
        invariant
            n <= v@.len(),
            0 <= i <= n,
            out@ == v@.take(i as int),
        decreases n - i,
    {
        out.push(v[i]);
        assert(out@ =~= v@.take(i + 1));
        i = i + 1;
    }
    out.push('…');
    string_of(&out)
}

/// The publisher column: `(me)` for the node's own releases, else the alias
/// shown for the publisher, else the first 12 characters of its hex.
pub open spec fn publisher_column(av: Seq<(Seq<char>, Seq<char>)>, r: ReleaseInfo, shown: Option<Seq<char>>) -> Seq<char> {
    if r.mine {
        "(me)"@
    } else {
        match shown {
            Some(a) => a,
            None => prefix_dots(hex_encode(r.summary.publisher@), 12),
        }
    }
}

/// One row of the image listing for `r` under `policy`: the publisher and
/// image shown by alias where one stands for them (`<alias> (<name>)` for an
/// image), the tag, the first 12 hex characters of the manifest digest, the
/// blob count, `complete` or `partial`, and the policy column.
pub fn list_row(policy: &Policy, r: &ReleaseInfo) -> (row: ListRow)
    requires
        r.summary.manifest_digest@.len() >= 19,
    ensures
        ({
            let av = alias_views(policy.alias@);
            let s = r.summary;
            let pubs = hex_encode(s.publisher@);
            &&& r.mine ==> row.publisher@ == "(me)"@
            &&& !r.mine ==> exists|shown: Option<Seq<char>>|
                shows_alias(av, pubs, shown) && row.publisher@ == publisher_column(av, *r, shown)
            &&& exists|shown: Option<Seq<char>>|
                shows_alias(av, pubs + "/"@ + s.name@, shown) && row.image@ == match shown {
                    Some(a) => a + " ("@ + s.name@ + ")"@,
                    None => s.name@,
                }
            &&& row.tag@ == s.tag@
            &&& row.digest@ == prefix_dots(s.manifest_digest@.subrange(7, s.manifest_digest@.len() as int), 12)
            &&& row.blobs@ == dec(r.blobs as nat)
            &&& row.state@ == if r.complete {
                "complete"@
            } else {
                "partial"@
            }
            &&& row.policy@ == policy_label_text(*policy, *r)
        }),
{
    let s = &r.summary;
    let pubs = s.publisher.to_string();
    let publisher = if r.mine {
        proof {
            reveal_strlit("(me)");
        }
        owned("(me)")
    } else {
        match shown_alias(&policy.alias, pubs.as_str()) {
            Some(a) => a,
            None => take_dots(pubs.as_str(), 12),
        }
    };
    let mut key = chars_of(pubs.as_str());
    push_str(&mut key, "/");
    push_str(&mut key, s.name.as_str());
    let key = string_of(&key);
    proof {
        reveal_strlit("/");
    }
    let image = match shown_alias(&policy.alias, key.as_str()) {
        Some(a) => {
            let mut v = chars_of(a.as_str());
            push_str(&mut v, " (");
            push_str(&mut v, s.name.as_str());
            push_str(&mut v, ")");
            string_of(&v)
        },
        None => s.name.clone(),
    };
    let hex = s.manifest_digest.hex();
    let digest = take_dots(hex.as_str(), 12);
    let state = if r.complete {
        proof {
            reveal_strlit("complete");
        }
        owned("complete")
    } else {
        proof {
            reveal_strlit("partial");
        }
        owned("partial")
    };
    ListRow {
        publisher,
        image,
        tag: s.tag.clone(),
        digest,
        blobs: dec_string(r.blobs as u64),
        state,
        policy: policy_label(policy, r),
    }
}

} // verus!
