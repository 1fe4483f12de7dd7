//! Seeding policy (`policy.toml`) and retention windows.
//!
//! * `seed`: image refs replicated and served to others (`<publisher>/<name>`
//!   kept per `mode`, or `<publisher>/<name>:<tag>`)
//! * `follow`: publishers whose every image is replicated, per `mode`
//! * `pin`: `<publisher>/<name>:<tag>` releases that are always kept
//! * `alias`: local names for publishers or images
//!
//! A `mode` (`latest`, `last:N`, `full`) says how much history a rule keeps;
//! the rules for one image combine into a [`Window`].

use vstd::prelude::*;
use crate::error::Error;
use crate::identity::{ed25519_point, lemma_publisher_eq, lower_hex_text, parse_publisher, publisher_from_text, PublisherId};
use vstd::utf8::encode_utf8;
use crate::oci::{explicit_reference, opt_view, reference_text, valid_name, validate_name, ImageRef};
use crate::seqs::{first_where, is_first_where, kept, lemma_first_where, lemma_first_where_is, lemma_kept_all};
use crate::order::{newest_first, pairs_view, sort_by_text_key, sort_newest_first, sort_text_set, sorted_by_key, text_le_fn};
use vstd::relations::sorted_by;
use crate::text::{
    chars_is, chars_of, dec, dec_string, distinct_strings, insert_string, insert_strings,
    lemma_parse_dec_u32, lemma_dec_digits, lemma_string_set_len, lemma_trim_noop, owned,
    parse_u32, parse_u32_chars, push_dec, push_str, slice_chars, starts_with, str_eq, string_of,
    string_set, trim, trim_chars, has_prefix, is_white, all_digits, find, find_char, lemma_find,
    hex_encode, is_lower_alnum, is_hex_digit, lower_alnum, hex_digit, hex_decode, trim_end_char,
    texts_view,
};
use crate::oci::valid_tag;

verus! {

/// Relay mode of the transport.
#[derive(Debug, Clone, Copy, PartialEq, Eq, Structural)]
pub enum RelayMode {
    Default,
    Disabled,
}

/// How many releases of an image to keep.
#[derive(Debug, Clone, Copy, PartialEq, Eq, Structural)]
pub enum Mode {
    /// Every tag, forever.
    Full,
    /// Only the most recently published release (the same as `last:1`).
    Latest,
    /// The N most recently published releases.
    Last(u32),
}

impl Default for Mode {
    fn default() -> (m: Mode)
        ensures
            m == Mode::Latest,
    {
        Mode::Latest
    }
}

/// The window size of a mode; `None` for unlimited.
pub open spec fn mode_window(m: Mode) -> Option<nat> {
    match m {
        Mode::Full => None,
        Mode::Latest => Some(1),
        Mode::Last(n) => Some(if n < 1 {
            1
        } else {
            n as nat
        }),
    }
}

/// The text of a mode: `full`, `latest` or `last:N`.
pub open spec fn mode_text(m: Mode) -> Seq<char> {
    match m {
        Mode::Full => "full"@,
        Mode::Latest => "latest"@,
        Mode::Last(n) => "last:"@ + dec(n as nat),
    }
}

/// How a mode is read: trimmed; `full` or `all`, `latest`, or `last:N` /
/// `last=N` with `N >= 1` (`last:1` is `latest`).
pub open spec fn mode_from_text(s: Seq<char>) -> Result<Mode, Error> {
    let t = trim(s);
    if t == "full"@ || t == "all"@ {
        Ok(Mode::Full)
    } else if t == "latest"@ {
        Ok(Mode::Latest)
    } else if starts_with(t, "last:"@) || starts_with(t, "last="@) {
        match parse_u32(t.subrange(5, t.len() as int)) {
            None => Err(Error::ModeNumber),
            Some(n) => if n == 0 {
                Err(Error::ModeZero)
            } else if n == 1 {
                Ok(Mode::Latest)
            } else {
                Ok(Mode::Last(n))
            },
        }
    } else {
        Err(Error::ModeSyntax)
    }
}

impl Mode {
    /// Window size; `None` for unlimited.
    pub fn window(&self) -> (w: Option<usize>)
        ensures
            match w {
                Some(n) => mode_window(*self) == Some(n as nat),
                None => mode_window(*self) is None,
            },
    {
        match self {
            Mode::Full => None,
            Mode::Latest => Some(1),
            Mode::Last(n) => Some(if *n < 1 {
                1
            } else {
                *n as usize
            }),
        }
    }

    /// `full`, `latest` or `last:N`.
    pub fn to_string(&self) -> (s: String)
        ensures
            s@ == mode_text(*self),
    {
        match self {
            Mode::Full => owned("full"),
            Mode::Latest => owned("latest"),
            Mode::Last(n) => {
                let mut v = chars_of("last:");
                push_dec(&mut v, *n as u64);
                string_of(&v)
            },
        }
    }

    /// Reads `full` / `all`, `latest`, or `last:N` / `last=N`.
    pub fn parse(s: &str) -> (r: Result<Mode, Error>)
        ensures
            r == mode_from_text(s@),
    {
        let v = chars_of(s);
        let t = trim_chars(&v);
        if chars_is(&t, "full") || chars_is(&t, "all") {
            return Ok(Mode::Full);
        }
        if chars_is(&t, "latest") {
            return Ok(Mode::Latest);
        }
        if !(has_prefix(&t, "last:") || has_prefix(&t, "last=")) {
            return Err(Error::ModeSyntax);
        }
        proof {
            reveal_strlit("last:");
            reveal_strlit("last=");
        }
        let num = slice_chars(&t, 5, t.len());
        match parse_u32_chars(&num) {
            None => Err(Error::ModeNumber),
            Some(n) => if n == 0 {
                Err(Error::ModeZero)
            } else if n == 1 {
                Ok(Mode::Latest)
            } else {
                Ok(Mode::Last(n))
            },
        }
    }
}

impl core::str::FromStr for Mode {
    type Err = Error;

    fn from_str(s: &str) -> (r: Result<Mode, Error>)
        ensures
            r == mode_from_text(s@),
    {
        Mode::parse(s)
    }
}

/// A mode reads back from its text, except `last:0` (refused) and `last:1`
/// (read as `latest`).
pub proof fn lemma_mode_roundtrip(m: Mode)
    requires
        m != Mode::Last(0),
        m != Mode::Last(1),
    ensures
        mode_from_text(mode_text(m)) == Ok::<Mode, Error>(m),
{
    reveal_strlit("full");
    reveal_strlit("all");
    reveal_strlit("latest");
    reveal_strlit("last:");
    reveal_strlit("last=");
    let s = mode_text(m);
    match m {
        Mode::Full => {
            lemma_trim_noop(s);
        },
        Mode::Latest => {
            lemma_trim_noop(s);
        },
        Mode::Last(n) => {
            lemma_dec_digits(n as nat);
            let d = dec(n as nat);
            assert(s.last() == d.last());
            assert(crate::text::is_digit(d[d.len() - 1]));
            lemma_trim_noop(s);
            assert(s[4] == ':');
            assert(s != "full"@ && s != "all"@ && s != "latest"@) by {
                if s.len() == 4 {
                    assert(s[0] != "full"@[0]);
                }
                if s.len() == 6 {
                    assert(s[4] != "latest"@[4]);
                }
            }
            assert(s.subrange(0, 5) =~= "last:"@);
            assert(s.subrange(5, s.len() as int) =~= d);
            lemma_parse_dec_u32(n);
        },
    }
}

/// A mode text never reads as `last:0` or `last:1`: `Mode::parse` gives
/// `Last(n)` only for `n >= 2`, and every such mode reads back from its text.
pub proof fn lemma_mode_reading(s: Seq<char>, m: Mode)
    ensures
        (mode_from_text(s) matches Ok(Mode::Last(n)) ==> n >= 2),
        (m != Mode::Last(0) && m != Mode::Last(1)) ==> mode_from_text(mode_text(m)) == Ok::<
            Mode,
            Error,
        >(m),
{
    if m != Mode::Last(0) && m != Mode::Last(1) {
        lemma_mode_roundtrip(m);
    }
}

/// How the text `last:N` reads: refused for 0, `latest` for 1, `last:N`
/// otherwise.
pub proof fn lemma_last_text(n: u32)
    ensures
        mode_from_text(mode_text(Mode::Last(n))) == if n == 0 {
            Err::<Mode, Error>(Error::ModeZero)
        } else if n == 1 {
            Ok::<Mode, Error>(Mode::Latest)
        } else {
            Ok::<Mode, Error>(Mode::Last(n))
        },
{
    reveal_strlit("full");
    reveal_strlit("all");
    reveal_strlit("latest");
    reveal_strlit("last:");
    reveal_strlit("last=");
    let s = mode_text(Mode::Last(n));
    lemma_dec_digits(n as nat);
    let d = dec(n as nat);
    assert(s.last() == d.last());
    assert(crate::text::is_digit(d[d.len() - 1]));
    lemma_trim_noop(s);
    assert(s[4] == ':');
    assert(s != "full"@ && s != "all"@ && s != "latest"@) by {
        if s.len() == 4 {
            assert(s[0] != "full"@[0]);
        }
        if s.len() == 6 {
            assert(s[4] != "latest"@[4]);
        }
    }
    assert(s.subrange(0, 5) =~= "last:"@);
    assert(s.subrange(5, s.len() as int) =~= d);
    lemma_parse_dec_u32(n);
}

// ---------------------------------------------------------------------------
// windows
// ---------------------------------------------------------------------------

/// The tags of `s` in order, each once, where it first occurs.
pub open spec fn distinct_heads(s: Seq<(Seq<char>, u64)>) -> Seq<Seq<char>>
    decreases s.len(),
{
    if s.len() == 0 {
        Seq::empty()
    } else if distinct_heads(s.drop_last()).contains(s.last().0) {
        distinct_heads(s.drop_last())
    } else {
        distinct_heads(s.drop_last()).push(s.last().0)
    }
}

/// Every tag that occurs in `known`.
pub open spec fn known_tags(known: Seq<(Seq<char>, u64)>) -> Set<Seq<char>> {
    Set::new(|t: Seq<char>| exists|i: int| 0 <= i < known.len() && #[trigger] known[i].0 == t)
}

/// The tags a window keeps out of `known`: its explicit tags, plus every known
/// tag when it is full, or else the newest `last` distinct tags: each tag
/// ranked by its newest release, equal timestamps ordered by greater tag.
pub open spec fn window_select(
    full: bool,
    last: nat,
    tags: Set<Seq<char>>,
    known: Seq<(Seq<char>, u64)>,
) -> Set<Seq<char>> {
    if full {
        tags + known_tags(known)
    } else if last > 0 {
        let h = distinct_heads(newest_first(known));
        tags + h.take(
            if last < h.len() {
                last as int
            } else {
                h.len() as int
            },
        ).to_set()
    } else {
        tags
    }
}

/// The short text of a window: `full`, `latest`, `last:N` and/or `K tag(s)`,
/// joined by `+`; `-` for an empty window.
pub open spec fn window_text(full: bool, last: nat, ntags: nat) -> Seq<char> {
    let head = if full {
        Some("full"@)
    } else if last == 1 {
        Some("latest"@)
    } else if last > 1 {
        Some("last:"@ + dec(last))
    } else {
        None
    };
    let tail = if ntags > 0 {
        Some(dec(ntags) + " tag(s)"@)
    } else {
        None
    };
    match (head, tail) {
        (Some(h), Some(t)) => h + "+"@ + t,
        (Some(h), None) => h,
        (None, Some(t)) => t,
        (None, None) => "-"@,
    }
}

/// Effective retention for one image, combining every matching rule.
#[derive(Debug, Clone)]
pub struct Window {
    /// Keep everything.
    pub full: bool,
    /// Keep the N most recent releases (0 = no window rule).
    pub last: usize,
    /// Specific tags to keep (seed rules with a tag, pins).
    pub tags: Vec<String>,
}

/// The text views of a vector of string slices.
pub open spec fn strs_view(v: Seq<&str>) -> Seq<Seq<char>> {
    Seq::new(v.len(), |i: int| v[i]@)
}

fn distinct_heads_exec<'a>(sorted: &[(&'a str, u64)]) -> (r: Vec<&'a str>)
    ensures
        strs_view(r@) == distinct_heads(pairs_view(sorted@)),
{
    let mut out: Vec<&'a str> = Vec::new();
    let mut i: usize = 0;
    assert(pairs_view(sorted@).take(0) =~= Seq::<(Seq<char>, u64)>::empty());
    assert(strs_view(out@) =~= Seq::<Seq<char>>::empty());
    while i < sorted.len()
        invariant
            0 <= i <= sorted@.len(),
            strs_view(out@) == distinct_heads(pairs_view(sorted@).take(i as int)),
        decreases sorted@.len() - i,
    {
        let ghost p = pairs_view(sorted@);
        let ghost q = p.take(i + 1);
        assert(q.drop_last() =~= p.take(i as int));
        assert(q.last() == p[i as int]);
        let t = sorted[i].0;
        let mut seen = false;
        let mut j: usize = 0;
        while j < out.len()
            invariant
                0 <= j <= out@.len(),
                seen == exists|k: int| 0 <= k < j && #[trigger] strs_view(out@)[k] == t@,
            decreases out@.len() - j,
        {
            if str_eq(out[j], t) {
                assert(strs_view(out@)[j as int] == t@);
                seen = true;
            } else {
                assert(strs_view(out@)[j as int] != t@);
                assert((exists|k: int| 0 <= k < j + 1 && #[trigger] strs_view(out@)[k] == t@) == (
                exists|k: int| 0 <= k < j && #[trigger] strs_view(out@)[k] == t@)) by {
                    if exists|k: int| 0 <= k < j + 1 && #[trigger] strs_view(out@)[k] == t@ {
                        let k = choose|k: int| 0 <= k < j + 1 && #[trigger] strs_view(out@)[k] == t@;
                        assert(k < j);
                    }
                }
            }
            j = j + 1;
        }
        assert(seen == strs_view(out@).contains(t@)) by {
            if strs_view(out@).contains(t@) {
                let k = choose|k: int| 0 <= k < strs_view(out@).len() && strs_view(out@)[k] == t@;
                assert(strs_view(out@)[k] == t@);
            }
        }
        assert(p[i as int].0 == t@);
        if !seen {
            let ghost before = out@;
            out.push(t);
            assert(strs_view(out@) =~= strs_view(before).push(t@));
        }
        i = i + 1;
    }
    assert(pairs_view(sorted@).take(sorted@.len() as int) =~= pairs_view(sorted@));
    out
}

impl Default for Window {
    fn default() -> (w: Window)
        ensures
            !w.full,
            w.last == 0,
            w.tags@.len() == 0,
    {
        Window { full: false, last: 0, tags: Vec::new() }
    }
}

impl Window {
    /// No rule keeps anything.
    pub open spec fn empty(&self) -> bool {
        !self.full && self.last == 0 && self.tags@.len() == 0
    }

    pub fn is_empty(&self) -> (r: bool)
        ensures
            r == self.empty(),
    {
        !self.full && self.last == 0 && self.tags.len() == 0
    }

    /// Widens the window by one rule's mode.
    fn absorb(&mut self, mode: Mode)
        ensures
            final(self).tags == old(self).tags,
            match mode_window(mode) {
                None => final(self).full && final(self).last == old(self).last,
                Some(n) => final(self).full == old(self).full && final(self).last == if n
                    > old(self).last {
                    n
                } else {
                    old(self).last as nat
                },
            },
    {
        match mode.window() {
            None => {
                self.full = true;
            },
            Some(n) => {
                if n > self.last {
                    self.last = n;
                }
            },
        }
    }

    /// Given every known release of the image as `(tag, timestamp)`, the tags
    /// inside the window, each once, in lexicographic order. Which releases
    /// are the newest goes by timestamp; releases published in the same
    /// second are ordered by tag, greater tag first.
    pub fn select(&self, known: &[(&str, u64)]) -> (r: Vec<String>)
        ensures
            distinct_strings(r@),
            sorted_by(texts_view(r@), text_le_fn()),
            string_set(r@) == window_select(
                self.full,
                self.last as nat,
                string_set(self.tags@),
                pairs_view(known@),
            ),
    {
        let mut out: Vec<String> = Vec::new();
        assert(string_set(out@) =~= Set::<Seq<char>>::empty());
        insert_strings(&mut out, &self.tags);
        assert(string_set(out@) =~= string_set(self.tags@));
        if self.full {
            let ghost base = string_set(out@);
            let mut i: usize = 0;
            while i < known.len()
                invariant
                    0 <= i <= known@.len(),
                    distinct_strings(out@),
                    string_set(out@) == base + known_tags(pairs_view(known@).take(i as int)),
                decreases known@.len() - i,
            {
                insert_string(&mut out, known[i].0);
                proof {
                    let p = pairs_view(known@);
                    assert(known_tags(p.take(i + 1)) =~= known_tags(p.take(i as int)).insert(
                        known@[i as int].0@,
                    )) by {
                        assert(p.take(i + 1)[i as int].0 == known@[i as int].0@);
                        assert forall|t: Seq<char>| #[trigger] known_tags(p.take(i + 1)).contains(
                            t,
                        ) implies known_tags(p.take(i as int)).insert(
                            known@[i as int].0@,
                        ).contains(t) by {
                            let j = choose|j: int|
                                0 <= j < p.take(i + 1).len() && #[trigger] p.take(i + 1)[j].0
                                    == t;
                            if j < i {
                                assert(p.take(i as int)[j].0 == t);
                            }
                        }
                        assert forall|t: Seq<char>| #[trigger] known_tags(
                            p.take(i as int),
                        ).contains(t) implies known_tags(p.take(i + 1)).contains(t) by {
                            let j = choose|j: int|
                                0 <= j < p.take(i as int).len() && #[trigger] p.take(
                                    i as int,
                                )[j].0 == t;
                            assert(p.take(i + 1)[j].0 == t);
                        }
                    }
                    assert(string_set(out@) =~= base + known_tags(p.take(i + 1)));
                }
                i = i + 1;
            }
            assert(pairs_view(known@).take(known@.len() as int) =~= pairs_view(known@));
        } else if self.last > 0 {
            let sorted = sort_newest_first(known);
            let heads = distinct_heads_exec(&sorted);
            let n = if self.last < heads.len() {
                self.last
            } else {
                heads.len()
            };
            let ghost h = distinct_heads(newest_first(pairs_view(known@)));
            let ghost base = string_set(out@);
            let mut i: usize = 0;
            assert(h.take(0).to_set() =~= Set::<Seq<char>>::empty());
            assert(base + h.take(0).to_set() =~= base);
            while i < n
                invariant
                    0 <= i <= n <= heads@.len(),
                    strs_view(heads@) == h,
                    distinct_strings(out@),
                    string_set(out@) == base + h.take(i as int).to_set(),
                decreases n - i,
            {
                insert_string(&mut out, heads[i]);
                proof {
                    assert(h[i as int] == heads@[i as int]@);
                    assert(h.take(i + 1) =~= h.take(i as int).push(h[i as int]));
                    h.take(i as int).lemma_push_to_set_commute(h[i as int]);
                    assert(h.take(i + 1).to_set() =~= h.take(i as int).to_set().insert(
                        h[i as int],
                    ));
                    assert(string_set(out@) =~= base + h.take(i + 1).to_set());
                }
                i = i + 1;
            }
        }
        sort_text_set(out)
    }

    /// Short human form: `full`, `last:3`, `latest`, `2 tag(s)`, `-`.
    pub fn describe(&self) -> (s: String)
        ensures
            s@ == window_text(self.full, self.last as nat, string_set(self.tags@).len()),
    {
        let mut distinct: Vec<String> = Vec::new();
        assert(string_set(distinct@) =~= Set::<Seq<char>>::empty());
        insert_strings(&mut distinct, &self.tags);
        proof {
            lemma_string_set_len(distinct@);
            assert(string_set(distinct@) =~= string_set(self.tags@));
        }
        let ntags = distinct.len();
        let mut v: Vec<char> = Vec::new();
        let mut any = false;
        if self.full {
            push_str(&mut v, "full");
            any = true;
        } else if self.last == 1 {
            push_str(&mut v, "latest");
            any = true;
        } else if self.last > 1 {
            push_str(&mut v, "last:");
            push_dec(&mut v, self.last as u64);
            any = true;
        }
        let ghost head = v@;
        if ntags > 0 {
            if any {
                push_str(&mut v, "+");
            }
            push_dec(&mut v, ntags as u64);
            push_str(&mut v, " tag(s)");
        }
        if !any && ntags == 0 {
            push_str(&mut v, "-");
        }
        proof {
            assert(v@ =~= window_text(self.full, self.last as nat, ntags as nat));
        }
        string_of(&v)
    }
}


// ---------------------------------------------------------------------------
// policy
// ---------------------------------------------------------------------------

/// The mode a policy entry leaves out when written (`latest`).
pub fn is_default_mode(m: &Mode) -> (r: bool)
    ensures
        r == (*m == Mode::Latest),
{
    *m == Mode::Latest
}

/// A `[[seed]]` entry as written in the policy file.
#[derive(Debug, Clone)]
pub struct SeedEntry {
    pub reference: String,
    pub mode: Mode,
}

/// A `[[follow]]` entry as written in the policy file.
#[derive(Debug, Clone)]
pub struct FollowEntry {
    pub publisher: String,
    pub mode: Mode,
}

/// The seeding policy.
#[derive(Debug, Clone)]
pub struct Policy {
    /// Images to replicate.
    pub seed: Vec<SeedEntry>,
    /// Publishers whose every image is replicated.
    pub follow: Vec<FollowEntry>,
    /// `<publisher>/<name>:<tag>` releases that are always kept and fetched.
    pub pin: Vec<String>,
    /// alias -> publisher (hex) or publisher/name; the first entry of an alias
    /// is the one that counts.
    pub alias: Vec<(String, String)>,
}

impl Default for Policy {
    fn default() -> (p: Policy)
        ensures
            p.seed@.len() == 0,
            p.follow@.len() == 0,
            p.pin@.len() == 0,
            p.alias@.len() == 0,
    {
        Policy { seed: Vec::new(), follow: Vec::new(), pin: Vec::new(), alias: Vec::new() }
    }
}

/// One parsed seed rule.
#[derive(Debug, Clone)]
pub struct SeedRule {
    pub publisher: PublisherId,
    pub name: String,
    /// `Some`: exactly this tag; `None`: the image, kept per `mode`.
    pub tag: Option<String>,
    pub mode: Mode,
}

/// A rule as plain values: publisher key, name, tag, mode.
pub open spec fn rule_view(r: SeedRule) -> (Seq<u8>, Seq<char>, Option<Seq<char>>, Mode) {
    (r.publisher@, r.name@, opt_view(r.tag), r.mode)
}

pub open spec fn rules_view(v: Seq<SeedRule>) -> Seq<(Seq<u8>, Seq<char>, Option<Seq<char>>, Mode)> {
    Seq::new(v.len(), |i: int| rule_view(v[i]))
}

/// How a seed rule text is read.
pub open spec fn seed_rule_from_text(s: Seq<char>, mode: Mode) -> Result<
    (Seq<u8>, Seq<char>, Option<Seq<char>>, Mode),
    Error,
> {
    match explicit_reference(s) {
        Ok((p, n, t)) => Ok((p, n, t, mode)),
        Err(e) => Err(e),
    }
}

/// Seed entries as `(reference, mode)`.
pub open spec fn seed_views(es: Seq<SeedEntry>) -> Seq<(Seq<char>, Mode)> {
    Seq::new(es.len(), |i: int| (es[i].reference@, es[i].mode))
}

/// Follow entries as `(publisher text, mode)`.
pub open spec fn follow_views(es: Seq<FollowEntry>) -> Seq<(Seq<char>, Mode)> {
    Seq::new(es.len(), |i: int| (es[i].publisher@, es[i].mode))
}

/// Alias entries as `(alias, target)`.
pub open spec fn alias_views(v: Seq<(String, String)>) -> Seq<(Seq<char>, Seq<char>)> {
    Seq::new(v.len(), |i: int| (v[i].0@, v[i].1@))
}

/// The rules of the seed entries that parse, in order.
pub open spec fn parsed_seeds(es: Seq<(Seq<char>, Mode)>) -> Seq<(Seq<u8>, Seq<char>, Option<Seq<char>>, Mode)>
    decreases es.len(),
{
    if es.len() == 0 {
        Seq::empty()
    } else {
        let rest = parsed_seeds(es.drop_last());
        match seed_rule_from_text(es.last().0, es.last().1) {
            Ok(r) => rest.push(r),
            Err(_) => rest,
        }
    }
}

/// The `(publisher, mode)` of the follow entries that parse, in order.
pub open spec fn parsed_follows(es: Seq<(Seq<char>, Mode)>) -> Seq<(Seq<u8>, Mode)>
    decreases es.len(),
{
    if es.len() == 0 {
        Seq::empty()
    } else {
        let rest = parsed_follows(es.drop_last());
        match publisher_from_text(es.last().0) {
            Ok(p) => rest.push((p, es.last().1)),
            Err(_) => rest,
        }
    }
}

/// The rules of the pins that parse and carry a tag, in order.
pub open spec fn parsed_pins(ps: Seq<Seq<char>>) -> Seq<(Seq<u8>, Seq<char>, Option<Seq<char>>, Mode)>
    decreases ps.len(),
{
    if ps.len() == 0 {
        Seq::empty()
    } else {
        let rest = parsed_pins(ps.drop_last());
        match seed_rule_from_text(ps.last(), Mode::Full) {
            Ok(r) => if r.2 is Some {
                rest.push(r)
            } else {
                rest
            },
            Err(_) => rest,
        }
    }
}

/// The mode of the first follow of `p`.
pub open spec fn first_follow_mode(fs: Seq<(Seq<u8>, Mode)>, p: Seq<u8>) -> Option<Mode>
    decreases fs.len(),
{
    if fs.len() == 0 {
        None
    } else if fs[0].0 == p {
        Some(fs[0].1)
    } else {
        first_follow_mode(fs.drop_first(), p)
    }
}

/// The modes of the untagged rules for image `(p, n)`, in order.
pub open spec fn untagged_modes(
    rs: Seq<(Seq<u8>, Seq<char>, Option<Seq<char>>, Mode)>,
    p: Seq<u8>,
    n: Seq<char>,
) -> Seq<Mode>
    decreases rs.len(),
{
    if rs.len() == 0 {
        Seq::empty()
    } else {
        let rest = untagged_modes(rs.drop_last(), p, n);
        let r = rs.last();
        if r.0 == p && r.1 == n && r.2 is None {
            rest.push(r.3)
        } else {
            rest
        }
    }
}

/// The tags the rules for image `(p, n)` name.
pub open spec fn rule_tags(
    rs: Seq<(Seq<u8>, Seq<char>, Option<Seq<char>>, Mode)>,
    p: Seq<u8>,
    n: Seq<char>,
) -> Set<Seq<char>> {
    Set::new(
        |t: Seq<char>|
            exists|i: int|
                0 <= i < rs.len() && #[trigger] rs[i].0 == p && rs[i].1 == n && rs[i].2 == Some(t),
    )
}

/// Some mode keeps everything.
pub open spec fn any_full(ms: Seq<Mode>) -> bool {
    exists|i: int| 0 <= i < ms.len() && #[trigger] mode_window(ms[i]) is None
}

/// The largest window among the modes (0 when none has one).
pub open spec fn widest(ms: Seq<Mode>) -> nat
    decreases ms.len(),
{
    if ms.len() == 0 {
        0
    } else {
        let rest = widest(ms.drop_last());
        match mode_window(ms.last()) {
            Some(k) => if k > rest {
                k
            } else {
                rest
            },
            None => rest,
        }
    }
}

impl Policy {
    /// The parsed seed rules.
    pub open spec fn seed_rules_spec(&self) -> Seq<(Seq<u8>, Seq<char>, Option<Seq<char>>, Mode)> {
        parsed_seeds(seed_views(self.seed@))
    }

    /// The parsed follows.
    pub open spec fn follows_spec(&self) -> Seq<(Seq<u8>, Mode)> {
        parsed_follows(follow_views(self.follow@))
    }

    /// The parsed pins.
    pub open spec fn pins_spec(&self) -> Seq<(Seq<u8>, Seq<char>, Option<Seq<char>>, Mode)> {
        parsed_pins(texts_view(self.pin@))
    }

    /// The modes that apply to image `(p, n)`: the publisher's follow, then every
    /// untagged seed rule of the image.
    pub open spec fn modes_for(&self, p: Seq<u8>, n: Seq<char>) -> Seq<Mode> {
        let f = match first_follow_mode(self.follows_spec(), p) {
            Some(m) => seq![m],
            None => Seq::empty(),
        };
        f + untagged_modes(self.seed_rules_spec(), p, n)
    }

    /// The tags kept for image `(p, n)`: tagged seed rules and pins.
    pub open spec fn tags_for(&self, p: Seq<u8>, n: Seq<char>) -> Set<Seq<char>> {
        rule_tags(self.seed_rules_spec(), p, n) + rule_tags(self.pins_spec(), p, n)
    }

    /// Some rule keeps releases of image `(p, n)`.
    pub open spec fn covered(&self, p: Seq<u8>, n: Seq<char>) -> bool {
        any_full(self.modes_for(p, n)) || widest(self.modes_for(p, n)) > 0 || !self.tags_for(
            p,
            n,
        ).is_empty()
    }

    /// Is `p/n:t` pinned?
    pub open spec fn pinned(&self, p: Seq<u8>, n: Seq<char>, t: Seq<char>) -> bool {
        rule_tags(self.pins_spec(), p, n).contains(t)
    }

    /// The seed rules that parse; invalid entries are skipped.
    pub fn seed_rules(&self) -> (r: Vec<SeedRule>)
        ensures
            rules_view(r@) == self.seed_rules_spec(),
    {
        let mut out: Vec<SeedRule> = Vec::new();
        let mut i: usize = 0;
        let ghost ev = seed_views(self.seed@);
        assert(ev.take(0) =~= Seq::<(Seq<char>, Mode)>::empty());
        assert(rules_view(out@) =~= Seq::empty());
        while i < self.seed.len()
            invariant
                0 <= i <= self.seed@.len(),
                ev == seed_views(self.seed@),
                rules_view(out@) == parsed_seeds(ev.take(i as int)),
            decreases self.seed@.len() - i,
        {
            let e = &self.seed[i];
            assert(ev.take(i + 1).drop_last() =~= ev.take(i as int));
            assert(ev.take(i + 1).last() == (e.reference@, e.mode));
            match parse_seed_rule(e.reference.as_str(), e.mode) {
                Ok(r) => {
                    let ghost before = out@;
                    out.push(r);
                    assert(rules_view(out@) =~= rules_view(before).push(rule_view(r)));
                },
                Err(_) => {},
            }
            i = i + 1;
        }
        assert(ev.take(ev.len() as int) =~= ev);
        out
    }

    /// The follows that parse, as `(publisher, mode)`.
    pub fn follows(&self) -> (r: Vec<(PublisherId, Mode)>)
        ensures
            follows_view(r@) == self.follows_spec(),
    {
        let mut out: Vec<(PublisherId, Mode)> = Vec::new();
        let mut i: usize = 0;
        let ghost ev = follow_views(self.follow@);
        assert(ev.take(0) =~= Seq::<(Seq<char>, Mode)>::empty());
        assert(follows_view(out@) =~= Seq::empty());
        while i < self.follow.len()
            invariant
                0 <= i <= self.follow@.len(),
                ev == follow_views(self.follow@),
                follows_view(out@) == parsed_follows(ev.take(i as int)),
            decreases self.follow@.len() - i,
        {
            let e = &self.follow[i];
            assert(ev.take(i + 1).drop_last() =~= ev.take(i as int));
            assert(ev.take(i + 1).last() == (e.publisher@, e.mode));
            match parse_publisher(e.publisher.as_str()) {
                Ok(p) => {
                    let ghost before = out@;
                    out.push((p, e.mode));
                    assert(follows_view(out@) =~= follows_view(before).push((p@, e.mode)));
                },
                Err(_) => {},
            }
            i = i + 1;
        }
        assert(ev.take(ev.len() as int) =~= ev);
        out
    }

    /// The mode of the first follow of `publisher`.
    pub fn follow_mode(&self, publisher: &PublisherId) -> (r: Option<Mode>)
        ensures
            r == first_follow_mode(self.follows_spec(), publisher@),
    {
        let fs = self.follows();
        let mut i: usize = 0;
        assert(follows_view(fs@).skip(0) =~= follows_view(fs@));
        while i < fs.len()
            invariant
                0 <= i <= fs@.len(),
                follows_view(fs@) == self.follows_spec(),
                first_follow_mode(self.follows_spec(), publisher@) == first_follow_mode(
                    follows_view(fs@).skip(i as int),
                    publisher@,
                ),
            decreases fs@.len() - i,
        {
            let ghost rest = follows_view(fs@).skip(i as int);
            assert(rest[0] == (fs@[i as int].0@, fs@[i as int].1));
            if fs[i].0 == *publisher {
                return Some(fs[i].1);
            }
            assert(rest.drop_first() =~= follows_view(fs@).skip(i + 1));
            i = i + 1;
        }
        None
    }

    /// The pins that parse and carry a tag (as rules with mode `full`).
    pub fn pins(&self) -> (r: Vec<SeedRule>)
        ensures
            rules_view(r@) == self.pins_spec(),
    {
        let mut out: Vec<SeedRule> = Vec::new();
        let mut i: usize = 0;
        let ghost ev = texts_view(self.pin@);
        assert(ev.take(0) =~= Seq::<Seq<char>>::empty());
        assert(rules_view(out@) =~= Seq::empty());
        while i < self.pin.len()
            invariant
                0 <= i <= self.pin@.len(),
                ev == texts_view(self.pin@),
                rules_view(out@) == parsed_pins(ev.take(i as int)),
            decreases self.pin@.len() - i,
        {
            let s = &self.pin[i];
            assert(ev.take(i + 1).drop_last() =~= ev.take(i as int));
            assert(ev.take(i + 1).last() == s@);
            match parse_seed_rule(s.as_str(), Mode::Full) {
                Ok(r) => {
                    if r.tag.is_some() {
                        let ghost before = out@;
                        out.push(r);
                        assert(rules_view(out@) =~= rules_view(before).push(rule_view(r)));
                    }
                },
                Err(_) => {},
            }
            i = i + 1;
        }
        assert(ev.take(ev.len() as int) =~= ev);
        out
    }

    /// Is `publisher/name:tag` pinned?
    pub fn is_pinned(&self, publisher: &PublisherId, name: &str, tag: &str) -> (r: bool)
        ensures
            r == self.pinned(publisher@, name@, tag@),
    {
        let ps = self.pins();
        let mut i: usize = 0;
        while i < ps.len()
            invariant
                0 <= i <= ps@.len(),
                rules_view(ps@) == self.pins_spec(),
                forall|j: int|
                    0 <= j < i ==> !(#[trigger] rules_view(ps@)[j].0 == publisher@ && rules_view(
                        ps@,
                    )[j].1 == name@ && rules_view(ps@)[j].2 == Some(tag@)),
            decreases ps@.len() - i,
        {
            let r = &ps[i];
            assert(rules_view(ps@)[i as int] == rule_view(*r));
            let same_tag = match &r.tag {
                Some(t) => str_eq(t.as_str(), tag),
                None => false,
            };
            if r.publisher == *publisher && str_eq(r.name.as_str(), name) && same_tag {
                assert(r.publisher@ == publisher@);
                assert(opt_view(r.tag) == Some(tag@));
                let ghost q = rules_view(ps@);
                assert(q[i as int].0 == publisher@ && q[i as int].1 == name@ && q[i as int].2
                    == Some(tag@));
                assert(rule_tags(self.pins_spec(), publisher@, name@).contains(tag@));
                return true;
            }
            i = i + 1;
        }
        false
    }

    /// Effective retention window for an image from every matching rule.
    pub fn window(&self, publisher: &PublisherId, name: &str) -> (w: Window)
        ensures
            w.full == any_full(self.modes_for(publisher@, name@)),
            w.last == widest(self.modes_for(publisher@, name@)),
            distinct_strings(w.tags@),
            string_set(w.tags@) == self.tags_for(publisher@, name@),
    {
        let mut w = Window::default();
        let ghost p = publisher@;
        let ghost n = name@;
        let ghost fm: Seq<Mode> = match first_follow_mode(self.follows_spec(), p) {
            Some(m) => seq![m],
            None => Seq::empty(),
        };
        assert(string_set(w.tags@) =~= Set::<Seq<char>>::empty());
        match self.follow_mode(publisher) {
            Some(m) => {
                w.absorb(m);
                assert(fm == seq![m]);
                assert(fm.drop_last() =~= Seq::<Mode>::empty());
                assert(widest(fm.drop_last()) == 0);
                assert(fm.last() == m);
                proof {
                    lemma_any_full_push(Seq::<Mode>::empty(), m);
                    assert(Seq::<Mode>::empty().push(m) =~= fm);
                }
            },
            None => {
                assert(fm =~= Seq::<Mode>::empty());
            },
        }
        assert(w.full == any_full(fm));
        assert(w.last == widest(fm));
        let rules = self.seed_rules();
        let ghost rs = rules_view(rules@);
        let mut i: usize = 0;
        assert(rs.take(0) =~= Seq::<(Seq<u8>, Seq<char>, Option<Seq<char>>, Mode)>::empty());
        assert(fm + untagged_modes(rs.take(0), p, n) =~= fm);
        assert(rule_tags(rs.take(0), p, n) =~= Set::<Seq<char>>::empty());
        while i < rules.len()
            invariant
                0 <= i <= rules@.len(),
                rs == rules_view(rules@),
                p == publisher@,
                n == name@,
                w.full == any_full(fm + untagged_modes(rs.take(i as int), p, n)),
                w.last == widest(fm + untagged_modes(rs.take(i as int), p, n)),
                distinct_strings(w.tags@),
                string_set(w.tags@) == rule_tags(rs.take(i as int), p, n),
            decreases rules@.len() - i,
        {
            let r = &rules[i];
            let ghost pre = rs.take(i as int);
            let ghost post = rs.take(i + 1);
            let ghost before = fm + untagged_modes(pre, p, n);
            assert(post.drop_last() =~= pre);
            assert(post.last() == rule_view(*r));
            if r.publisher == *publisher && str_eq(r.name.as_str(), name) {
                match &r.tag {
                    Some(t) => {
                        insert_string(&mut w.tags, t.as_str());
                        assert(fm + untagged_modes(post, p, n) =~= before);
                        assert(rule_tags(post, p, n) =~= rule_tags(pre, p, n).insert(t@)) by {
                            lemma_rule_tags_push(pre, rule_view(*r), p, n);
                            assert(post =~= pre.push(rule_view(*r)));
                        }
                    },
                    None => {
                        let ghost old_full = w.full;
                        w.absorb(r.mode);
                        let ghost after = fm + untagged_modes(post, p, n);
                        assert(after =~= before.push(r.mode));
                        assert(after.drop_last() =~= before);
                        proof { lemma_any_full_push(before, r.mode); }
                        assert(rule_tags(post, p, n) =~= rule_tags(pre, p, n)) by {
                            lemma_rule_tags_push(pre, rule_view(*r), p, n);
                            assert(post =~= pre.push(rule_view(*r)));
                        }
                    },
                }
            } else {
                assert(fm + untagged_modes(post, p, n) =~= before);
                assert(rule_tags(post, p, n) =~= rule_tags(pre, p, n)) by {
                    lemma_rule_tags_push(pre, rule_view(*r), p, n);
                    assert(post =~= pre.push(rule_view(*r)));
                }
            }
            i = i + 1;
        }
        assert(rs.take(rules@.len() as int) =~= rs);
        let pins = self.pins();
        let ghost ps = rules_view(pins@);
        let ghost seed_tags = rule_tags(rs, p, n);
        let mut j: usize = 0;
        assert(ps.take(0) =~= Seq::<(Seq<u8>, Seq<char>, Option<Seq<char>>, Mode)>::empty());
        assert(seed_tags + rule_tags(ps.take(0), p, n) =~= seed_tags);
        while j < pins.len()
            invariant
                0 <= j <= pins@.len(),
                ps == rules_view(pins@),
                p == publisher@,
                n == name@,
                w.full == any_full(fm + untagged_modes(rs, p, n)),
                w.last == widest(fm + untagged_modes(rs, p, n)),
                distinct_strings(w.tags@),
                string_set(w.tags@) == seed_tags + rule_tags(ps.take(j as int), p, n),
            decreases pins@.len() - j,
        {
            let r = &pins[j];
            let ghost pre = ps.take(j as int);
            let ghost post = ps.take(j + 1);
            assert(post =~= pre.push(rule_view(*r)));
            proof {
                lemma_rule_tags_push(pre, rule_view(*r), p, n);
            }
            if r.publisher == *publisher && str_eq(r.name.as_str(), name) {
                match &r.tag {
                    Some(t) => {
                        insert_string(&mut w.tags, t.as_str());
                        assert(string_set(w.tags@) =~= seed_tags + rule_tags(post, p, n));
                    },
                    None => {
                        assert(string_set(w.tags@) =~= seed_tags + rule_tags(post, p, n));
                    },
                }
            } else {
                assert(string_set(w.tags@) =~= seed_tags + rule_tags(post, p, n));
            }
            j = j + 1;
        }
        assert(ps.take(pins@.len() as int) =~= ps);
        assert(self.modes_for(p, n) == fm + untagged_modes(rs, p, n));
        w
    }

    /// Is there any rule at all for this image?
    pub fn covers(&self, publisher: &PublisherId, name: &str) -> (r: bool)
        ensures
            r == self.covered(publisher@, name@),
    {
        let w = self.window(publisher, name);
        proof {
            if w.tags@.len() > 0 {
                assert(string_set(w.tags@).contains(w.tags@[0]@));
            } else {
                assert(string_set(w.tags@) =~= Set::<Seq<char>>::empty());
            }
        }
        !w.is_empty()
    }
}

/// The `(publisher, mode)` views of follows.
pub open spec fn follows_view(v: Seq<(PublisherId, Mode)>) -> Seq<(Seq<u8>, Mode)> {
    Seq::new(v.len(), |i: int| (v[i].0@, v[i].1))
}

proof fn lemma_rule_tags_push(
    rs: Seq<(Seq<u8>, Seq<char>, Option<Seq<char>>, Mode)>,
    r: (Seq<u8>, Seq<char>, Option<Seq<char>>, Mode),
    p: Seq<u8>,
    n: Seq<char>,
)
    ensures
        rule_tags(rs.push(r), p, n) == (if r.0 == p && r.1 == n && r.2 is Some {
            rule_tags(rs, p, n).insert(r.2->0)
        } else {
            rule_tags(rs, p, n)
        }),
{
    let q = rs.push(r);
    let want = if r.0 == p && r.1 == n && r.2 is Some {
        rule_tags(rs, p, n).insert(r.2->0)
    } else {
        rule_tags(rs, p, n)
    };
    assert forall|t: Seq<char>| #[trigger] rule_tags(q, p, n).contains(t) == want.contains(t) by {
        if rule_tags(rs, p, n).contains(t) {
            let i = choose|i: int|
                0 <= i < rs.len() && #[trigger] rs[i].0 == p && rs[i].1 == n && rs[i].2 == Some(t);
            assert(q[i] == rs[i]);
        }
        if rule_tags(q, p, n).contains(t) {
            let i = choose|i: int|
                0 <= i < q.len() && #[trigger] q[i].0 == p && q[i].1 == n && q[i].2 == Some(t);
            if i < rs.len() {
                assert(q[i] == rs[i]);
            }
        }
        if r.0 == p && r.1 == n && r.2 == Some(t) {
            assert(q[rs.len() as int] == r);
        }
    }
    assert(rule_tags(q, p, n) =~= want);
}

proof fn lemma_any_full_push(ms: Seq<Mode>, m: Mode)
    ensures
        any_full(ms.push(m)) == (any_full(ms) || mode_window(m) is None),
{
    let q = ms.push(m);
    if any_full(ms) {
        let i = choose|i: int| 0 <= i < ms.len() && #[trigger] mode_window(ms[i]) is None;
        assert(q[i] == ms[i]);
    }
    if mode_window(m) is None {
        assert(q[ms.len() as int] == m);
    }
    if any_full(q) {
        let i = choose|i: int| 0 <= i < q.len() && #[trigger] mode_window(q[i]) is None;
        if i < ms.len() {
            assert(q[i] == ms[i]);
        }
    }
}

/// Reads a seed rule `<publisher>/<name>[:<tag>]` with the given mode.
pub fn parse_seed_rule(s: &str, mode: Mode) -> (r: Result<SeedRule, Error>)
    ensures
        match r {
            Ok(x) => seed_rule_from_text(s@, mode) == Ok::<
                (Seq<u8>, Seq<char>, Option<Seq<char>>, Mode),
                Error,
            >(rule_view(x)),
            Err(e) => seed_rule_from_text(s@, mode) == Err::<
                (Seq<u8>, Seq<char>, Option<Seq<char>>, Mode),
                Error,
            >(e),
        },
{
    match ImageRef::parse_explicit(s) {
        Ok(r) => Ok(SeedRule { publisher: r.publisher, name: r.name, tag: r.tag, mode }),
        Err(e) => Err(e),
    }
}

/// The canonical text of a rule: `<hex>/<name>[:<tag>]`.
pub fn seed_rule_to_string(r: &SeedRule) -> (s: String)
    ensures
        s@ == reference_text(r.publisher@, r.name@, opt_view(r.tag)),
{
    let x = ImageRef { publisher: r.publisher, name: r.name.clone(), tag: r.tag.clone() };
    x.to_string()
}


// ---------------------------------------------------------------------------
// aliases
// ---------------------------------------------------------------------------

/// What an alias stands for.
#[derive(Debug, Clone)]
pub enum AliasTarget {
    Publisher(PublisherId),
    Image { publisher: PublisherId, name: String },
}

/// An alias target as plain values: the publisher, and the image name if any.
pub open spec fn target_view(t: AliasTarget) -> (Seq<u8>, Option<Seq<char>>) {
    match t {
        AliasTarget::Publisher(p) => (p@, None),
        AliasTarget::Image { publisher, name } => (publisher@, Some(name@)),
    }
}

/// How an alias target is read: a publisher, or `<publisher>/<name>`.
pub open spec fn alias_target_from_text(s: Seq<char>) -> Result<(Seq<u8>, Option<Seq<char>>), Error> {
    match publisher_from_text(s) {
        Ok(p) => Ok((p, None)),
        Err(_) => match find(s, '/') {
            None => Err(Error::AliasTarget),
            Some(i) => match publisher_from_text(s.subrange(0, i)) {
                Err(e) => Err(e),
                Ok(p) => if valid_name(s.subrange(i + 1, s.len() as int)) {
                    Ok((p, Some(s.subrange(i + 1, s.len() as int))))
                } else {
                    Err(Error::InvalidName)
                },
            },
        },
    }
}

/// The canonical text an alias is stored with: publisher hex, and `/name`.
pub open spec fn alias_target_text(t: (Seq<u8>, Option<Seq<char>>)) -> Seq<char> {
    match t.1 {
        Some(n) => hex_encode(t.0) + seq!['/'] + n,
        None => hex_encode(t.0),
    }
}

/// `[a-z0-9._-]`
pub open spec fn alias_char(c: char) -> bool {
    is_lower_alnum(c) || c == '.' || c == '_' || c == '-'
}

/// An alias: non-empty, lowercase `[a-z0-9._-]`, and not 64 hex digits (which
/// would read as a key).
pub open spec fn valid_alias(a: Seq<char>) -> bool {
    &&& a.len() > 0
    &&& !(a.len() == 64 && forall|i: int| 0 <= i < a.len() ==> is_hex_digit(#[trigger] a[i]))
    &&& forall|i: int| 0 <= i < a.len() ==> alias_char(#[trigger] a[i])
}

/// The target of the first entry for `a`.
/// Is this alias entry the one of alias `a`?
pub open spec fn key_is(a: Seq<char>) -> spec_fn((Seq<char>, Seq<char>)) -> bool {
    |e: (Seq<char>, Seq<char>)| e.0 == a
}

/// No alias is set twice (the aliases are a map).
pub open spec fn alias_keys_distinct(av: Seq<(Seq<char>, Seq<char>)>) -> bool {
    forall|i: int, j: int| 0 <= i < j < av.len() ==> #[trigger] av[i].0 != #[trigger] av[j].0
}

/// Every alias entry whose alias is not `a`.
pub open spec fn key_other_than(a: Seq<char>) -> spec_fn((Seq<char>, Seq<char>)) -> bool {
    |e: (Seq<char>, Seq<char>)| e.0 != a
}

/// Keeping some entries keeps only entries there were, and so keeps the
/// aliases distinct.
proof fn lemma_kept_aliases(s: Seq<(Seq<char>, Seq<char>)>, keep: spec_fn((Seq<char>, Seq<char>)) -> bool)
    ensures
        forall|x: (Seq<char>, Seq<char>)| #[trigger] kept(s, keep).contains(x) ==> s.contains(x),
        alias_keys_distinct(s) ==> alias_keys_distinct(kept(s, keep)),
    decreases s.len(),
{
    if s.len() > 0 {
        let t = s.drop_last();
        lemma_kept_aliases(t, keep);
        let kt = kept(t, keep);
        let ks = kept(s, keep);
        assert forall|x: (Seq<char>, Seq<char>)| #[trigger] ks.contains(x) implies s.contains(x) by {
            let i = choose|i: int| 0 <= i < ks.len() && ks[i] == x;
            if i < kt.len() {
                assert(ks[i] == kt[i]);
                assert(kt.contains(x));
                let j = choose|j: int| 0 <= j < t.len() && t[j] == x;
                assert(s[j] == x);
            } else {
                assert(x == s.last());
                assert(s[s.len() - 1] == x);
            }
        }
        if alias_keys_distinct(s) {
            assert(alias_keys_distinct(t)) by {
                assert forall|i: int, j: int| 0 <= i < j < t.len() implies #[trigger] t[i].0 != #[trigger] t[j].0 by {
                    assert(t[i] == s[i] && t[j] == s[j]);
                }
            }
            assert forall|i: int, j: int| 0 <= i < j < ks.len() implies #[trigger] ks[i].0 != #[trigger] ks[j].0 by {
                if keep(s.last()) && j == ks.len() - 1 {
                    assert(ks[j] == s.last());
                    assert(ks[i] == kt[i]);
                    assert(kt.contains(kt[i]));
                    let m = choose|m: int| 0 <= m < t.len() && t[m] == kt[i];
                    assert(s[m] == t[m]);
                    assert(s[s.len() - 1] == s.last());
                } else {
                    assert(ks[i] == kt[i] && ks[j] == kt[j]);
                }
            }
        }
    }
}

pub open spec fn alias_lookup(av: Seq<(Seq<char>, Seq<char>)>, a: Seq<char>) -> Option<Seq<char>> {
    match first_where(av, key_is(a)) {
        Some(i) => Some(av[i].1),
        None => None,
    }
}

fn validate_alias(alias: &str) -> (r: Result<(), Error>)
    ensures
        r is Ok <==> valid_alias(alias@),
        r is Err ==> r == Err::<(), Error>(Error::InvalidAlias),
{
    let v = chars_of(alias);
    if v.len() == 0 {
        return Err(Error::InvalidAlias);
    }
    let mut all_hex = true;
    let mut i: usize = 0;
    while i < v.len()
        invariant
            v@ == alias@,
            0 <= i <= v@.len(),
            all_hex == forall|j: int| 0 <= j < i ==> is_hex_digit(#[trigger] v@[j]),
            forall|j: int| 0 <= j < i ==> alias_char(#[trigger] v@[j]),
        decreases v@.len() - i,
    {
        let c = v[i];
        if !(lower_alnum(c) || c == '.' || c == '_' || c == '-') {
            assert(!alias_char(v@[i as int]));
            return Err(Error::InvalidAlias);
        }
        if !hex_digit(c) {
            all_hex = false;
        }
        i = i + 1;
    }
    if v.len() == 64 && all_hex {
        return Err(Error::InvalidAlias);
    }
    Ok(())
}

/// Reads an alias target: `<publisher>` or `<publisher>/<name>`.
fn parse_alias_target(target: &str) -> (r: Result<AliasTarget, Error>)
    ensures
        match r {
            Ok(t) => alias_target_from_text(target@) == Ok::<(Seq<u8>, Option<Seq<char>>), Error>(
                target_view(t),
            ),
            Err(e) => alias_target_from_text(target@) == Err::<
                (Seq<u8>, Option<Seq<char>>),
                Error,
            >(e),
        },
{
    match parse_publisher(target) {
        Ok(p) => {
            return Ok(AliasTarget::Publisher(p));
        },
        Err(_) => {},
    }
    let v = chars_of(target);
    match find_char(&v, '/') {
        None => Err(Error::AliasTarget),
        Some(i) => {
            proof {
                lemma_find(v@, '/');
            }
            let n = v.len();
            let pubs = slice_chars(&v, 0, i);
            let name = slice_chars(&v, i + 1, n);
            let ps = string_of(&pubs);
            let publisher = match parse_publisher(ps.as_str()) {
                Ok(p) => p,
                Err(e) => return Err(e),
            };
            let ns = string_of(&name);
            match validate_name(ns.as_str()) {
                Ok(()) => Ok(AliasTarget::Image { publisher, name: ns }),
                Err(e) => Err(e),
            }
        },
    }
}

fn alias_target_to_string(t: &AliasTarget) -> (s: String)
    ensures
        s@ == alias_target_text(target_view(*t)),
{
    match t {
        AliasTarget::Publisher(p) => p.to_string(),
        AliasTarget::Image { publisher, name } => {
            let h = publisher.to_string();
            let mut v = chars_of(h.as_str());
            v.push('/');
            push_str(&mut v, name.as_str());
            string_of(&v)
        },
    }
}

/// Index of the first element whose text is `t`.
pub(crate) fn position_of_text(v: &Vec<(String, String)>, t: &str) -> (r: Option<usize>)
    ensures
        match r {
            Some(i) => i < v@.len() && first_where(alias_views(v@), key_is(t@)) == Some(
                i as int,
            ),
            None => first_where(alias_views(v@), key_is(t@)) is None,
        },
{
    let ghost pred = key_is(t@);
    let ghost av = alias_views(v@);
    let mut i: usize = 0;
    while i < v.len()
        invariant
            0 <= i <= v@.len(),
            av == alias_views(v@),
            pred == key_is(t@),
            forall|j: int| 0 <= j < i ==> !pred(#[trigger] av[j]),
        decreases v@.len() - i,
    {
        assert(av[i as int] == (v@[i as int].0@, v@[i as int].1@));
        if str_eq(v[i].0.as_str(), t) {
            proof {
                lemma_first_where_is(av, pred, Some(i as int));
            }
            return Some(i);
        }
        i = i + 1;
    }
    proof {
        lemma_first_where_is(av, pred, None);
    }
    None
}


/// The seed entries after `add_seed` of canonical rule `c`: an existing entry
/// for `c` gets the new mode (unless the rule has a tag, or the mode is the
/// same), otherwise the rule is appended. The flag says whether anything changed.
/// Entries whose rule text is `c`.
pub open spec fn rule_is(c: Seq<char>) -> spec_fn((Seq<char>, Mode)) -> bool {
    |e: (Seq<char>, Mode)| e.0 == c
}

pub open spec fn seeds_after_add(
    ev: Seq<(Seq<char>, Mode)>,
    c: Seq<char>,
    mode: Mode,
    tagged: bool,
) -> (Seq<(Seq<char>, Mode)>, bool) {
    match first_where(ev, rule_is(c)) {
        Some(i) => if ev[i].1 == mode || tagged {
            (ev, false)
        } else {
            (ev.update(i, (c, mode)), true)
        },
        None => (ev.push((c, mode)), true),
    }
}

/// Does seed entry `e` fall under the removal of `(p, n, t)`?
pub open spec fn seed_removed_by(
    e: (Seq<char>, Mode),
    p: Seq<u8>,
    n: Seq<char>,
    t: Option<Seq<char>>,
) -> bool {
    match seed_rule_from_text(e.0, e.1) {
        Ok(r) => r.0 == p && r.1 == n && (t is None || r.2 == t),
        Err(_) => false,
    }
}

/// The seed entries that stay when the rules for `(p, n, t)` are removed.
pub open spec fn not_removed_by(p: Seq<u8>, n: Seq<char>, t: Option<Seq<char>>) -> spec_fn(
    (Seq<char>, Mode),
) -> bool {
    |e: (Seq<char>, Mode)| !seed_removed_by(e, p, n, t)
}

/// The follow entries after `add_follow(p, mode)`.
pub open spec fn follows_after_add(ev: Seq<(Seq<char>, Mode)>, p: Seq<u8>, mode: Mode) -> (
    Seq<(Seq<char>, Mode)>,
    bool,
) {
    match first_where(ev, |e: (Seq<char>, Mode)| publisher_from_text(e.0) == Ok::<Seq<u8>, Error>(p)) {
        Some(i) => if ev[i].1 == mode {
            (ev, false)
        } else {
            (ev.update(i, (ev[i].0, mode)), true)
        },
        None => (ev.push((hex_encode(p), mode)), true),
    }
}

fn copy_seed(e: &SeedEntry) -> (r: SeedEntry)
    ensures
        r.reference@ == e.reference@,
        r.mode == e.mode,
{
    SeedEntry { reference: e.reference.clone(), mode: e.mode }
}

fn copy_follow(e: &FollowEntry) -> (r: FollowEntry)
    ensures
        r.publisher@ == e.publisher@,
        r.mode == e.mode,
{
    FollowEntry { publisher: e.publisher.clone(), mode: e.mode }
}

impl Policy {
    /// Every publisher the policy refers to (follows, seeds, pins).
    pub open spec fn publishers_spec(&self) -> Set<Seq<u8>> {
        Set::new(
            |k: Seq<u8>|
                (exists|i: int|
                    0 <= i < self.follows_spec().len() && #[trigger] self.follows_spec()[i].0 == k)
                    || (exists|i: int|
                    0 <= i < self.seed_rules_spec().len() && #[trigger] self.seed_rules_spec()[i].0
                        == k) || (exists|i: int|
                    0 <= i < self.pins_spec().len() && #[trigger] self.pins_spec()[i].0 == k),
        )
    }

    /// The publishers whose announcement topics a node subscribes to: every one
    /// the policy follows, seeds or pins, each once, in key order.
    pub fn publishers(&self) -> (r: Vec<PublisherId>)
        ensures
            distinct_keys(r@),
            key_set(r@) == self.publishers_spec(),
            sorted_by_key(r@, |p: PublisherId| hex_encode(p@)),
    {
        let mut out: Vec<PublisherId> = Vec::new();
        let fs = self.follows();
        let rules = self.seed_rules();
        let pins = self.pins();
        let ghost fv = follows_view(fs@);
        let ghost rv = rules_view(rules@);
        let ghost pv = rules_view(pins@);
        let mut i: usize = 0;
        assert(key_set(out@) =~= Set::<Seq<u8>>::empty());
        while i < fs.len()
            invariant
                0 <= i <= fs@.len(),
                fv == follows_view(fs@),
                distinct_keys(out@),
                forall|k: Seq<u8>| #[trigger] key_set(out@).contains(k) <==> exists|j: int|
                    0 <= j < i && #[trigger] fv[j].0 == k,
            decreases fs@.len() - i,
        {
            insert_key(&mut out, fs[i].0);
            proof {
                assert(fv[i as int].0 == fs@[i as int].0@);
                assert forall|k: Seq<u8>| #[trigger] key_set(out@).contains(k) <==> exists|j: int|
                    0 <= j < i + 1 && #[trigger] fv[j].0 == k by {
                    if k == fv[i as int].0 {
                        assert(fv[i as int].0 == k);
                    }
                }
            }
            i = i + 1;
        }
        let mut j: usize = 0;
        while j < rules.len()
            invariant
                0 <= j <= rules@.len(),
                fv == follows_view(fs@),
                rv == rules_view(rules@),
                distinct_keys(out@),
                forall|k: Seq<u8>| #[trigger] key_set(out@).contains(k) <==> (exists|a: int|
                    0 <= a < fv.len() && #[trigger] fv[a].0 == k) || exists|b: int|
                    0 <= b < j && #[trigger] rv[b].0 == k,
            decreases rules@.len() - j,
        {
            insert_key(&mut out, rules[j].publisher);
            proof {
                assert(rv[j as int].0 == rules@[j as int].publisher@);
                assert forall|k: Seq<u8>| #[trigger] key_set(out@).contains(k) <==> (exists|a: int|
                    0 <= a < fv.len() && #[trigger] fv[a].0 == k) || exists|b: int|
                    0 <= b < j + 1 && #[trigger] rv[b].0 == k by {
                    if k == rv[j as int].0 {
                        assert(rv[j as int].0 == k);
                    }
                }
            }
            j = j + 1;
        }
        let mut m: usize = 0;
        while m < pins.len()
            invariant
                0 <= m <= pins@.len(),
                fv == follows_view(fs@),
                rv == rules_view(rules@),
                pv == rules_view(pins@),
                distinct_keys(out@),
                forall|k: Seq<u8>| #[trigger] key_set(out@).contains(k) <==> (exists|a: int|
                    0 <= a < fv.len() && #[trigger] fv[a].0 == k) || (exists|b: int|
                    0 <= b < rv.len() && #[trigger] rv[b].0 == k) || exists|c: int|
                    0 <= c < m && #[trigger] pv[c].0 == k,
            decreases pins@.len() - m,
        {
            insert_key(&mut out, pins[m].publisher);
            proof {
                assert(pv[m as int].0 == pins@[m as int].publisher@);
                assert forall|k: Seq<u8>| #[trigger] key_set(out@).contains(k) <==> (exists|a: int|
                    0 <= a < fv.len() && #[trigger] fv[a].0 == k) || (exists|b: int|
                    0 <= b < rv.len() && #[trigger] rv[b].0 == k) || exists|c: int|
                    0 <= c < m + 1 && #[trigger] pv[c].0 == k by {
                    if k == pv[m as int].0 {
                        assert(pv[m as int].0 == k);
                    }
                }
            }
            m = m + 1;
        }
        assert(key_set(out@) =~= self.publishers_spec());
        sort_keys(out)
    }

    /// What alias `alias` stands for, if it is set and its target reads.
    pub fn resolve_alias(&self, alias: &str) -> (r: Option<AliasTarget>)
        ensures
            match alias_lookup(alias_views(self.alias@), alias@) {
                None => r is None,
                Some(t) => match alias_target_from_text(t) {
                    Ok(x) => r is Some && target_view(r->0) == x,
                    Err(_) => r is None,
                },
            },
    {
        match position_of_text(&self.alias, alias) {
            None => None,
            Some(i) => {
                assert(alias_views(self.alias@)[i as int].1 == self.alias@[i as int].1@);
                match parse_alias_target(self.alias[i].1.as_str()) {
                    Ok(t) => Some(t),
                    Err(_) => None,
                }
            },
        }
    }

    /// Sets `alias` to `target` (stored in canonical form).
    pub fn set_alias(&mut self, alias: &str, target: &str) -> (r: Result<(), Error>)
        ensures
            match r {
                Ok(()) => valid_alias(alias@) && match alias_target_from_text(target@) {
                    Ok(t) => alias_lookup(alias_views(final(self).alias@), alias@) == Some(
                        alias_target_text(t),
                    ),
                    Err(_) => false,
                } && forall|k: Seq<char>|
                    k != alias@ ==> #[trigger] alias_lookup(alias_views(final(self).alias@), k)
                        == alias_lookup(alias_views(old(self).alias@), k)
                    && crate::oci::alias_resolution(alias_views(final(self).alias@), alias@)
                    == Some(alias_target_from_text(target@)->Ok_0),
                Err(e) => *final(self) == *old(self) && if !valid_alias(alias@) {
                    e == Error::InvalidAlias
                } else {
                    alias_target_from_text(target@) == Err::<(Seq<u8>, Option<Seq<char>>), Error>(e)
                },
            },
            alias_keys_distinct(alias_views(old(self).alias@)) ==> alias_keys_distinct(
                alias_views(final(self).alias@),
            ),
            final(self).seed == old(self).seed,
            final(self).follow == old(self).follow,
            final(self).pin == old(self).pin,
    {
        match validate_alias(alias) {
            Ok(()) => {},
            Err(e) => return Err(e),
        }
        let t = match parse_alias_target(target) {
            Ok(t) => t,
            Err(e) => return Err(e),
        };
        let canonical = alias_target_to_string(&t);
        proof {
            lemma_alias_target_roundtrip(target@);
        }
        let ghost old_av = alias_views(self.alias@);
        let ghost pred = key_is(alias@);
        match position_of_text(&self.alias, alias) {
            Some(i) => {
                proof {
                    lemma_first_where(old_av, pred);
                }
                let key = self.alias[i].0.clone();
                self.alias.set(i, (key, canonical));
                proof {
                    let av = alias_views(self.alias@);
                    lemma_first_where(old_av, pred);
                    assert(av =~= old_av.update(i as int, (alias@, canonical@)));
                    lemma_first_where_is(av, pred, Some(i as int));
                    assert forall|a: int, b: int| 0 <= a < b < av.len() implies #[trigger] av[a].0
                        == old_av[a].0 && #[trigger] av[b].0 == old_av[b].0 by {}
                    assert forall|k: Seq<char>| k != alias@ implies #[trigger] alias_lookup(av, k)
                        == alias_lookup(old_av, k) by {
                        let q = key_is(k);
                        lemma_first_where(old_av, q);
                        let f = first_where(old_av, q);
                        assert forall|j: int| 0 <= j < av.len() implies q(#[trigger] av[j]) == q(
                            old_av[j],
                        ) by {}
                        lemma_first_where_is(av, q, f);
                        if f is Some {
                            assert(f->0 != i);
                        }
                    }
                }
            },
            None => {
                let key = owned(alias);
                self.alias.push((key, canonical));
                proof {
                    let av = alias_views(self.alias@);
                    assert(av =~= old_av.push((alias@, canonical@)));
                    lemma_first_where(old_av, pred);
                    lemma_first_where_is(av, pred, Some(old_av.len() as int));
                    if alias_keys_distinct(old_av) {
                        assert forall|a: int, b: int| 0 <= a < b < av.len() implies #[trigger] av[a].0
                            != #[trigger] av[b].0 by {
                            if b == old_av.len() {
                                assert(!pred(old_av[a]));
                            } else {
                                assert(av[a] == old_av[a] && av[b] == old_av[b]);
                            }
                        }
                    }
                    assert forall|k: Seq<char>| k != alias@ implies #[trigger] alias_lookup(av, k)
                        == alias_lookup(old_av, k) by {
                        let q = key_is(k);
                        lemma_first_where(old_av, q);
                        let f = first_where(old_av, q);
                        assert forall|j: int| 0 <= j < old_av.len() implies q(#[trigger] av[j]) == q(
                            old_av[j],
                        ) by {}
                        lemma_first_where_is(av, q, f);
                    }
                }
            },
        }
        Ok(())
    }

    /// Removes every entry of `alias`; `true` if there was one.
    pub fn remove_alias(&mut self, alias: &str) -> (r: bool)
        ensures
            alias_views(final(self).alias@) == kept(alias_views(old(self).alias@), key_other_than(alias@)),
            r == (alias_lookup(alias_views(old(self).alias@), alias@) is Some),
            alias_keys_distinct(alias_views(old(self).alias@)) ==> alias_keys_distinct(
                alias_views(final(self).alias@),
            ),
            final(self).seed == old(self).seed,
            final(self).follow == old(self).follow,
            final(self).pin == old(self).pin,
    {
        let ghost keep = key_other_than(alias@);
        let ghost av = alias_views(self.alias@);
        let mut out: Vec<(String, String)> = Vec::new();
        let mut i: usize = 0;
        let mut found = false;
        assert(av.take(0) =~= Seq::<(Seq<char>, Seq<char>)>::empty());
        assert(alias_views(out@) =~= Seq::<(Seq<char>, Seq<char>)>::empty());
        while i < self.alias.len()
            invariant
                0 <= i <= self.alias@.len(),
                av == alias_views(self.alias@),
                keep == key_other_than(alias@),
                alias_views(out@) == kept(av.take(i as int), keep),
                found == exists|j: int| 0 <= j < i && #[trigger] av[j].0 == alias@,
            decreases self.alias@.len() - i,
        {
            let ghost e = av[i as int];
            assert(e == (self.alias@[i as int].0@, self.alias@[i as int].1@));
            assert(av.take(i + 1).drop_last() =~= av.take(i as int));
            assert(av.take(i + 1).last() == e);
            if str_eq(self.alias[i].0.as_str(), alias) {
                found = true;
                assert(av[i as int].0 == alias@);
            } else {
                let ghost before = alias_views(out@);
                out.push((self.alias[i].0.clone(), self.alias[i].1.clone()));
                assert(alias_views(out@) =~= before.push(e));
                assert((exists|j: int| 0 <= j < i + 1 && #[trigger] av[j].0 == alias@) == (exists|j: int| 0 <= j < i && #[trigger] av[j].0 == alias@)) by {
                    if exists|j: int| 0 <= j < i + 1 && #[trigger] av[j].0 == alias@ {
                        let j = choose|j: int| 0 <= j < i + 1 && #[trigger] av[j].0 == alias@;
                        assert(j < i);
                    }
                }
            }
            i = i + 1;
        }
        assert(av.take(av.len() as int) =~= av);
        proof {
            let pred = key_is(alias@);
            lemma_first_where(av, pred);
            if found {
                let j = choose|j: int| 0 <= j < av.len() && #[trigger] av[j].0 == alias@;
                assert(pred(av[j]));
            }
            assert(av.take(av.len() as int) =~= av);
            lemma_kept_aliases(av, keep);
        }
        self.alias = out;
        found
    }

    /// Adds or updates a seed rule. `Ok(true)` if the policy changed.
    pub fn add_seed(&mut self, rule: &str, mode: Mode) -> (r: Result<bool, Error>)
        ensures
            match r {
                Err(e) => seed_rule_from_text(rule@, mode) == Err::<
                    (Seq<u8>, Seq<char>, Option<Seq<char>>, Mode),
                    Error,
                >(e) && seed_views(final(self).seed@) == seed_views(old(self).seed@),
                Ok(changed) => match seed_rule_from_text(rule@, mode) {
                    Ok(x) => seeds_after_add(
                        seed_views(old(self).seed@),
                        reference_text(x.0, x.1, x.2),
                        mode,
                        x.2 is Some,
                    ) == (seed_views(final(self).seed@), changed),
                    Err(_) => false,
                },
            },
            r is Ok ==> (seed_rule_from_text(rule@, mode) matches Ok(x) ==> final(self).covered(
                x.0,
                x.1,
            )),
            final(self).follow == old(self).follow,
            final(self).pin == old(self).pin,
            final(self).alias == old(self).alias,
    {
        let parsed = match parse_seed_rule(rule, mode) {
            Ok(x) => x,
            Err(e) => return Err(e),
        };
        let canonical = seed_rule_to_string(&parsed);
        let ghost ev = seed_views(self.seed@);
        let ghost pred = rule_is(canonical@);
        let mut i: usize = 0;
        while i < self.seed.len()
            invariant
                0 <= i <= self.seed@.len(),
                *self == *old(self),
                ev == seed_views(self.seed@),
                seed_rule_from_text(rule@, mode) == Ok::<
                    (Seq<u8>, Seq<char>, Option<Seq<char>>, Mode),
                    Error,
                >(rule_view(parsed)),
                canonical@ == reference_text(parsed.publisher@, parsed.name@, opt_view(parsed.tag)),
                pred == rule_is(canonical@),
                forall|j: int| 0 <= j < i ==> !pred(#[trigger] ev[j]),
            decreases self.seed@.len() - i,
        {
            assert(ev[i as int] == (self.seed@[i as int].reference@, self.seed@[i as int].mode));
            if str_eq(self.seed[i].reference.as_str(), canonical.as_str()) {
                proof {
                    lemma_first_where_is(ev, pred, Some(i as int));
                }
                if self.seed[i].mode == mode || parsed.tag.is_some() {
                    proof {
                        lemma_canonical_seed_covers(*self, i as int, rule@, mode);
                    }
                    return Ok(false);
                }
                let reference = self.seed[i].reference.clone();
                self.seed.set(i, SeedEntry { reference, mode });
                assert(seed_views(self.seed@) =~= ev.update(i as int, (canonical@, mode)));
                proof {
                    lemma_canonical_seed_covers(*self, i as int, rule@, mode);
                }
                return Ok(true);
            }
            i = i + 1;
        }
        proof {
            lemma_first_where_is(ev, pred, None);
        }
        self.seed.push(SeedEntry { reference: canonical, mode });
        assert(seed_views(self.seed@) =~= ev.push((canonical@, mode)));
        proof {
            lemma_canonical_seed_covers(*self, ev.len() as int, rule@, mode);
        }
        Ok(true)
    }

    /// Removes a seed rule; without a tag, every rule for that image.
    /// `Ok(true)` if the policy changed.
    pub fn remove_seed(&mut self, rule: &str) -> (r: Result<bool, Error>)
        ensures
            match r {
                Err(e) => seed_rule_from_text(rule@, Mode::Full) == Err::<
                    (Seq<u8>, Seq<char>, Option<Seq<char>>, Mode),
                    Error,
                >(e) && final(self).seed == old(self).seed,
                Ok(changed) => match seed_rule_from_text(rule@, Mode::Full) {
                    Ok(x) => seed_views(final(self).seed@) == kept(
                        seed_views(old(self).seed@),
                        not_removed_by(x.0, x.1, x.2),
                    ) && changed == (final(self).seed@.len() != old(self).seed@.len()),
                    Err(_) => false,
                },
            },
            final(self).follow == old(self).follow,
            final(self).pin == old(self).pin,
            final(self).alias == old(self).alias,
    {
        let parsed = match parse_seed_rule(rule, Mode::Full) {
            Ok(x) => x,
            Err(e) => return Err(e),
        };
        let ghost x = rule_view(parsed);
        let ghost keep = not_removed_by(x.0, x.1, x.2);
        let ghost ev = seed_views(self.seed@);
        let mut out: Vec<SeedEntry> = Vec::new();
        let mut i: usize = 0;
        assert(ev.take(0) =~= Seq::<(Seq<char>, Mode)>::empty());
        assert(seed_views(out@) =~= Seq::<(Seq<char>, Mode)>::empty());
        while i < self.seed.len()
            invariant
                0 <= i <= self.seed@.len(),
                *self == *old(self),
                ev == seed_views(self.seed@),
                x == rule_view(parsed),
                seed_rule_from_text(rule@, Mode::Full) == Ok::<
                    (Seq<u8>, Seq<char>, Option<Seq<char>>, Mode),
                    Error,
                >(x),
                keep == not_removed_by(x.0, x.1, x.2),
                seed_views(out@) == kept(ev.take(i as int), keep),
            decreases self.seed@.len() - i,
        {
            let e = &self.seed[i];
            assert(ev.take(i + 1).drop_last() =~= ev.take(i as int));
            assert(ev.take(i + 1).last() == (e.reference@, e.mode));
            let drop = match parse_seed_rule(e.reference.as_str(), e.mode) {
                Ok(r) => r.publisher == parsed.publisher && str_eq(
                    r.name.as_str(),
                    parsed.name.as_str(),
                ) && match (&parsed.tag, &r.tag) {
                    (None, _) => true,
                    (Some(a), Some(b)) => str_eq(a.as_str(), b.as_str()),
                    (Some(_), None) => false,
                },
                Err(_) => false,
            };
            if !drop {
                let ghost before = seed_views(out@);
                out.push(copy_seed(e));
                assert(seed_views(out@) =~= before.push((e.reference@, e.mode)));
            }
            i = i + 1;
        }
        assert(ev.take(ev.len() as int) =~= ev);
        proof {
            lemma_kept_all(ev, keep);
        }
        let changed = out.len() != self.seed.len();
        self.seed = out;
        Ok(changed)
    }

    /// Adds or updates a follow; `true` if the policy changed.
    pub fn add_follow(&mut self, publisher: &PublisherId, mode: Mode) -> (r: bool)
        ensures
            follows_after_add(follow_views(old(self).follow@), publisher@, mode) == (
                follow_views(final(self).follow@),
                r,
            ),
            first_follow_mode(final(self).follows_spec(), publisher@) == Some(mode),
            final(self).seed == old(self).seed,
            final(self).pin == old(self).pin,
            final(self).alias == old(self).alias,
    {
        let ghost ev = follow_views(self.follow@);
        let ghost pred = |e: (Seq<char>, Mode)| publisher_from_text(e.0) == Ok::<Seq<u8>, Error>(
            publisher@,
        );
        let _ = publisher.point();
        let mut i: usize = 0;
        while i < self.follow.len()
            invariant
                0 <= i <= self.follow@.len(),
                *self == *old(self),
                ev == follow_views(self.follow@),
                pred == (|e: (Seq<char>, Mode)| publisher_from_text(e.0) == Ok::<Seq<u8>, Error>(
                    publisher@,
                )),
                forall|j: int| 0 <= j < i ==> !pred(#[trigger] ev[j]),
            decreases self.follow@.len() - i,
        {
            assert(ev[i as int] == (self.follow@[i as int].publisher@, self.follow@[i as int].mode));
            let same = match parse_publisher(self.follow[i].publisher.as_str()) {
                Ok(p) => p == *publisher,
                Err(_) => false,
            };
            if same {
                proof {
                    lemma_first_where_is(ev, pred, Some(i as int));
                }
                proof {
                    lemma_first_follow_entry(ev, publisher@);
                }
                if self.follow[i].mode == mode {
                    return false;
                }
                let text = self.follow[i].publisher.clone();
                self.follow.set(i, FollowEntry { publisher: text, mode });
                let ghost nv = follow_views(self.follow@);
                assert(nv =~= ev.update(i as int, (ev[i as int].0, mode)));
                proof {
                    assert forall|j: int| 0 <= j < i implies !pred(#[trigger] nv[j]) by {
                        assert(nv[j] == ev[j]);
                    }
                    lemma_first_where_is(nv, pred, Some(i as int));
                    lemma_first_follow_entry(nv, publisher@);
                }
                return true;
            }
            i = i + 1;
        }
        proof {
            lemma_first_where_is(ev, pred, None);
        }
        let text = publisher.to_string();
        self.follow.push(FollowEntry { publisher: text, mode });
        let ghost nv = follow_views(self.follow@);
        assert(nv =~= ev.push((hex_encode(publisher@), mode)));
        proof {
            crate::identity::lemma_hex_publisher_roundtrip(publisher@);
            assert forall|j: int| 0 <= j < ev.len() implies !pred(#[trigger] nv[j]) by {
                assert(nv[j] == ev[j]);
            }
            lemma_first_where_is(nv, pred, Some(ev.len() as int));
            lemma_first_follow_entry(nv, publisher@);
        }
        true
    }

    /// Drops every follow of `publisher`; `true` if there was one.
    pub fn remove_follow(&mut self, publisher: &PublisherId) -> (r: bool)
        ensures
            follow_views(final(self).follow@) == kept(
                follow_views(old(self).follow@),
                |e: (Seq<char>, Mode)| publisher_from_text(e.0) != Ok::<Seq<u8>, Error>(publisher@),
            ),
            r == (final(self).follow@.len() != old(self).follow@.len()),
            first_follow_mode(final(self).follows_spec(), publisher@) is None,
            final(self).seed == old(self).seed,
            final(self).pin == old(self).pin,
            final(self).alias == old(self).alias,
    {
        let ghost keep = |e: (Seq<char>, Mode)| publisher_from_text(e.0) != Ok::<Seq<u8>, Error>(
            publisher@,
        );
        let ghost ev = follow_views(self.follow@);
        let mut out: Vec<FollowEntry> = Vec::new();
        let mut i: usize = 0;
        assert(ev.take(0) =~= Seq::<(Seq<char>, Mode)>::empty());
        assert(follow_views(out@) =~= Seq::<(Seq<char>, Mode)>::empty());
        while i < self.follow.len()
            invariant
                0 <= i <= self.follow@.len(),
                *self == *old(self),
                ev == follow_views(self.follow@),
                keep == (|e: (Seq<char>, Mode)| publisher_from_text(e.0) != Ok::<Seq<u8>, Error>(
                    publisher@,
                )),
                follow_views(out@) == kept(ev.take(i as int), keep),
            decreases self.follow@.len() - i,
        {
            let e = &self.follow[i];
            assert(ev.take(i + 1).drop_last() =~= ev.take(i as int));
            assert(ev.take(i + 1).last() == (e.publisher@, e.mode));
            let same = match parse_publisher(e.publisher.as_str()) {
                Ok(p) => p == *publisher,
                Err(_) => false,
            };
            if !same {
                let ghost before = follow_views(out@);
                out.push(copy_follow(e));
                assert(follow_views(out@) =~= before.push((e.publisher@, e.mode)));
            }
            i = i + 1;
        }
        assert(ev.take(ev.len() as int) =~= ev);
        let changed = out.len() != self.follow.len();
        self.follow = out;
        proof {
            let nv = follow_views(self.follow@);
            let pred = |e: (Seq<char>, Mode)| publisher_from_text(e.0) == Ok::<Seq<u8>, Error>(
                publisher@,
            );
            lemma_kept_all(ev, keep);
            assert forall|j: int| 0 <= j < nv.len() implies !pred(#[trigger] nv[j]) by {
                assert(keep(nv[j]));
            }
            lemma_first_where_is(nv, pred, None);
            lemma_first_follow_entry(nv, publisher@);
        }
        changed
    }

    /// Pins `<publisher>/<name>:<tag>`. `Ok(true)` if the policy changed.
    pub fn add_pin(&mut self, reference: &str) -> (r: Result<bool, Error>)
        ensures
            match seed_rule_from_text(reference@, Mode::Full) {
                Err(e) => r == Err::<bool, Error>(e) && final(self).pin == old(self).pin,
                Ok(x) => if x.2 is None {
                    r == Err::<bool, Error>(Error::PinWithoutTag) && final(self).pin == old(
                        self,
                    ).pin
                } else {
                    let c = reference_text(x.0, x.1, x.2);
                    if texts_view(old(self).pin@).contains(c) {
                        r == Ok::<bool, Error>(false) && final(self).pin == old(self).pin
                    } else {
                        r == Ok::<bool, Error>(true) && texts_view(final(self).pin@) == texts_view(
                            old(self).pin@,
                        ).push(c)
                    }
                },
            },
            r is Ok ==> (seed_rule_from_text(reference@, Mode::Full) matches Ok(x)
                ==> final(self).pinned(x.0, x.1, x.2->0)),
            final(self).seed == old(self).seed,
            final(self).follow == old(self).follow,
            final(self).alias == old(self).alias,
    {
        let parsed = match parse_seed_rule(reference, Mode::Full) {
            Ok(x) => x,
            Err(e) => return Err(e),
        };
        if parsed.tag.is_none() {
            return Err(Error::PinWithoutTag);
        }
        let canonical = seed_rule_to_string(&parsed);
        let mut i: usize = 0;
        while i < self.pin.len()
            invariant
                0 <= i <= self.pin@.len(),
                *self == *old(self),
                seed_rule_from_text(reference@, Mode::Full) == Ok::<
                    (Seq<u8>, Seq<char>, Option<Seq<char>>, Mode),
                    Error,
                >(rule_view(parsed)),
                parsed.tag is Some,
                canonical@ == reference_text(parsed.publisher@, parsed.name@, opt_view(parsed.tag)),
                forall|j: int| 0 <= j < i ==> #[trigger] self.pin@[j]@ != canonical@,
            decreases self.pin@.len() - i,
        {
            if str_eq(self.pin[i].as_str(), canonical.as_str()) {
                assert(texts_view(self.pin@)[i as int] == canonical@);
                proof {
                    lemma_canonical_pin_pins(texts_view(self.pin@), i as int, reference@);
                }
                return Ok(false);
            }
            i = i + 1;
        }
        assert(!texts_view(self.pin@).contains(canonical@)) by {
            if texts_view(self.pin@).contains(canonical@) {
                let j = choose|j: int| 0 <= j < texts_view(self.pin@).len() && texts_view(self.pin@)[j] == canonical@;
                assert(self.pin@[j]@ == canonical@);
            }
        }
        let ghost before = texts_view(self.pin@);
        self.pin.push(canonical);
        assert(texts_view(self.pin@) =~= before.push(canonical@));
        proof {
            lemma_canonical_pin_pins(texts_view(self.pin@), before.len() as int, reference@);
        }
        Ok(true)
    }

    /// Unpins `<publisher>/<name>:<tag>`. `Ok(true)` if the policy changed.
    pub fn remove_pin(&mut self, reference: &str) -> (r: Result<bool, Error>)
        ensures
            match seed_rule_from_text(reference@, Mode::Full) {
                Err(e) => r == Err::<bool, Error>(e) && final(self).pin == old(self).pin,
                Ok(x) => {
                    let c = reference_text(x.0, x.1, x.2);
                    &&& texts_view(final(self).pin@) == kept(texts_view(old(self).pin@), other_than(c))
                    &&& r == Ok::<bool, Error>(final(self).pin@.len() != old(self).pin@.len())
                },
            },
            final(self).seed == old(self).seed,
            final(self).follow == old(self).follow,
            final(self).alias == old(self).alias,
    {
        let parsed = match parse_seed_rule(reference, Mode::Full) {
            Ok(x) => x,
            Err(e) => return Err(e),
        };
        let canonical = seed_rule_to_string(&parsed);
        let ghost x = rule_view(parsed);
        let ghost keep = other_than(reference_text(x.0, x.1, x.2));
        let ghost ev = texts_view(self.pin@);
        let mut out: Vec<String> = Vec::new();
        let mut i: usize = 0;
        assert(ev.take(0) =~= Seq::<Seq<char>>::empty());
        assert(texts_view(out@) =~= Seq::<Seq<char>>::empty());
        while i < self.pin.len()
            invariant
                0 <= i <= self.pin@.len(),
                *self == *old(self),
                seed_rule_from_text(reference@, Mode::Full) == Ok::<
                    (Seq<u8>, Seq<char>, Option<Seq<char>>, Mode),
                    Error,
                >(rule_view(parsed)),
                x == rule_view(parsed),
                canonical@ == reference_text(x.0, x.1, x.2),
                ev == texts_view(self.pin@),
                keep == other_than(reference_text(x.0, x.1, x.2)),
                texts_view(out@) == kept(ev.take(i as int), keep),
            decreases self.pin@.len() - i,
        {
            assert(ev.take(i + 1).drop_last() =~= ev.take(i as int));
            assert(ev.take(i + 1).last() == self.pin@[i as int]@);
            if !str_eq(self.pin[i].as_str(), canonical.as_str()) {
                let ghost before = texts_view(out@);
                out.push(self.pin[i].clone());
                assert(texts_view(out@) =~= before.push(self.pin@[i as int]@));
            }
            i = i + 1;
        }
        assert(ev.take(ev.len() as int) =~= ev);
        let changed = out.len() != self.pin.len();
        self.pin = out;
        Ok(changed)
    }
}

/// The keys of publisher ids, as a set.
pub open spec fn key_set(v: Seq<PublisherId>) -> Set<Seq<u8>> {
    Set::new(|k: Seq<u8>| exists|i: int| 0 <= i < v.len() && #[trigger] v[i]@ == k)
}

/// No key occurs twice.
pub open spec fn distinct_keys(v: Seq<PublisherId>) -> bool {
    forall|i: int, j: int| 0 <= i < j < v.len() ==> #[trigger] v[i]@ != #[trigger] v[j]@
}

/// The keys `v` in the order of their hex text, which for keys of one
/// length is the order of their bytes.
pub fn sort_keys(v: Vec<PublisherId>) -> (r: Vec<PublisherId>)
    requires
        distinct_keys(v@),
    ensures
        distinct_keys(r@),
        key_set(r@) == key_set(v@),
        sorted_by_key(r@, |p: PublisherId| hex_encode(p@)),
{
    let ghost vv = v@;
    let key = |p: &PublisherId| -> (s: String)
        ensures
            s@ == hex_encode(p@),
        { p.to_string() };
    let r = sort_by_text_key(v, key, Ghost(|p: PublisherId| hex_encode(p@)));
    proof {
        broadcast use vstd::seq_lib::group_to_multiset_ensures;

        let rv = r@;
        assert forall|x: PublisherId| #[trigger] rv.contains(x) == vv.contains(x) by {
            assert(rv.to_multiset().count(x) == vv.to_multiset().count(x));
        }
        assert forall|k: Seq<u8>| #[trigger] key_set(rv).contains(k) == key_set(vv).contains(k) by {
            if key_set(rv).contains(k) {
                let i = choose|i: int| 0 <= i < rv.len() && #[trigger] rv[i]@ == k;
                assert(rv.contains(rv[i]));
                assert(vv.contains(rv[i]));
                let j = choose|j: int| 0 <= j < vv.len() && vv[j] == rv[i];
                assert(vv[j]@ == k);
            }
            if key_set(vv).contains(k) {
                let i = choose|i: int| 0 <= i < vv.len() && #[trigger] vv[i]@ == k;
                assert(vv.contains(vv[i]));
                assert(rv.contains(vv[i]));
                let j = choose|j: int| 0 <= j < rv.len() && rv[j] == vv[i];
                assert(rv[j]@ == k);
            }
        }
        assert(key_set(rv) =~= key_set(vv));
        assert(vv.no_duplicates()) by {
            assert forall|i: int, j: int| 0 <= i < vv.len() && 0 <= j < vv.len() && i != j implies vv[i] != vv[j] by {
                if i < j {
                    assert(vv[i]@ != vv[j]@);
                } else {
                    assert(vv[j]@ != vv[i]@);
                }
            }
        }
        vv.lemma_multiset_has_no_duplicates();
        assert forall|x: PublisherId| rv.to_multiset().contains(x) implies rv.to_multiset().count(x) == 1 by {
            assert(vv.to_multiset().count(x) == rv.to_multiset().count(x));
        }
        rv.lemma_multiset_has_no_duplicates_conv();
        assert forall|i: int, j: int| 0 <= i < j < rv.len() implies #[trigger] rv[i]@ != #[trigger] rv[j]@ by {
            if rv[i]@ == rv[j]@ {
                lemma_publisher_eq(rv[i], rv[j]);
            }
        }
    }
    r
}

/// Adds `p` to `out` unless its key is already there.
pub fn insert_key(out: &mut Vec<PublisherId>, p: PublisherId)
    requires
        distinct_keys(old(out)@),
    ensures
        distinct_keys(final(out)@),
        key_set(final(out)@) == key_set(old(out)@).insert(p@),
{
    let mut i: usize = 0;
    while i < out.len()
        invariant
            0 <= i <= out@.len(),
            distinct_keys(out@),
            forall|j: int| 0 <= j < i ==> #[trigger] out@[j]@ != p@,
        decreases out@.len() - i,
    {
        if out[i] == p {
            assert(key_set(out@).insert(p@) =~= key_set(out@)) by {
                assert(out@[i as int]@ == p@);
            }
            return ;
        }
        i = i + 1;
    }
    let ghost before = out@;
    out.push(p);
    proof {
        assert forall|k: Seq<u8>| #[trigger] key_set(out@).contains(k) == key_set(before).insert(
            p@,
        ).contains(k) by {
            if key_set(before).contains(k) {
                let i = choose|i: int| 0 <= i < before.len() && #[trigger] before[i]@ == k;
                assert(out@[i]@ == k);
            }
            if k == p@ {
                assert(out@[before.len() as int]@ == k);
            }
        }
        assert(key_set(out@) =~= key_set(before).insert(p@));
    }
}


// ---------------------------------------------------------------------------
// what the policy edits guarantee
// ---------------------------------------------------------------------------

/// Every key a publisher text reads as is 32 bytes and a curve point.
pub proof fn lemma_publisher_text_valid(s: Seq<char>)
    ensures
        publisher_from_text(s) matches Ok(b) ==> b.len() == 32 && ed25519_point(b),
{
    let t = trim(s);
    if !starts_with(t, "did:key:"@) {
        if encode_utf8(t).len() == 64 && lower_hex_text(t) {
            assert(hex_decode(t)->0.len() == 32);
        }
    }
}

/// A reference that reads has a valid publisher, name and tag.
pub proof fn lemma_explicit_valid(s: Seq<char>)
    ensures
        explicit_reference(s) matches Ok((p, n, t)) ==> p.len() == 32 && ed25519_point(p)
            && valid_name(n) && (t matches Some(x) ==> valid_tag(x)),
{
    let t = trim_end_char(trim(s), '/');
    match find(t, '/') {
        Some(i) => {
            lemma_publisher_text_valid(t.subrange(0, i));
        },
        None => {},
    }
}

/// The canonical text of a rule that reads is read back as the same rule.
pub proof fn lemma_rule_text_roundtrip(s: Seq<char>, m: Mode, m2: Mode)
    requires
        seed_rule_from_text(s, m) is Ok,
    ensures
        ({
            let x = seed_rule_from_text(s, m)->Ok_0;
            seed_rule_from_text(reference_text(x.0, x.1, x.2), m2) == Ok::<
                (Seq<u8>, Seq<char>, Option<Seq<char>>, Mode),
                Error,
            >((x.0, x.1, x.2, m2))
        }),
{
    lemma_explicit_valid(s);
    let x = seed_rule_from_text(s, m)->Ok_0;
    crate::oci::lemma_reference_roundtrip(x.0, x.1, x.2);
}

/// A pin text that reads with a tag is among the parsed pins.
proof fn lemma_parsed_pins_has(ps: Seq<Seq<char>>, i: int)
    requires
        0 <= i < ps.len(),
        seed_rule_from_text(ps[i], Mode::Full) matches Ok(r) && r.2 is Some,
    ensures
        parsed_pins(ps).contains(seed_rule_from_text(ps[i], Mode::Full)->Ok_0),
    decreases ps.len(),
{
    let r = seed_rule_from_text(ps[i], Mode::Full)->Ok_0;
    if i == ps.len() - 1 {
        assert(parsed_pins(ps) == parsed_pins(ps.drop_last()).push(r));
        assert(parsed_pins(ps)[parsed_pins(ps).len() - 1] == r);
    } else {
        assert(ps.drop_last()[i] == ps[i]);
        lemma_parsed_pins_has(ps.drop_last(), i);
        let q = parsed_pins(ps.drop_last());
        let j = choose|j: int| 0 <= j < q.len() && q[j] == r;
        lemma_parsed_prefix(ps);
        assert(parsed_pins(ps)[j] == r);
    }
}

proof fn lemma_parsed_prefix(ps: Seq<Seq<char>>)
    requires
        ps.len() > 0,
    ensures
        parsed_pins(ps.drop_last()).len() <= parsed_pins(ps).len(),
        forall|j: int|
            0 <= j < parsed_pins(ps.drop_last()).len() ==> #[trigger] parsed_pins(ps)[j]
                == parsed_pins(ps.drop_last())[j],
{
}

/// A seed entry that reads is among the parsed seed rules.
proof fn lemma_parsed_seeds_has(ev: Seq<(Seq<char>, Mode)>, i: int)
    requires
        0 <= i < ev.len(),
        seed_rule_from_text(ev[i].0, ev[i].1) is Ok,
    ensures
        parsed_seeds(ev).contains(seed_rule_from_text(ev[i].0, ev[i].1)->Ok_0),
    decreases ev.len(),
{
    let r = seed_rule_from_text(ev[i].0, ev[i].1)->Ok_0;
    if i == ev.len() - 1 {
        assert(parsed_seeds(ev)[parsed_seeds(ev).len() - 1] == r);
    } else {
        assert(ev.drop_last()[i] == ev[i]);
        lemma_parsed_seeds_has(ev.drop_last(), i);
        let q = parsed_seeds(ev.drop_last());
        let j = choose|j: int| 0 <= j < q.len() && q[j] == r;
        assert(parsed_seeds(ev)[j] == r);
    }
}

/// A rule `(p, n, None, m)` puts `m` among the untagged modes of `(p, n)`.
proof fn lemma_untagged_has(rs: Seq<(Seq<u8>, Seq<char>, Option<Seq<char>>, Mode)>, j: int)
    requires
        0 <= j < rs.len(),
        rs[j].2 is None,
    ensures
        untagged_modes(rs, rs[j].0, rs[j].1).contains(rs[j].3),
    decreases rs.len(),
{
    let p = rs[j].0;
    let n = rs[j].1;
    if j == rs.len() - 1 {
        let u = untagged_modes(rs, p, n);
        assert(u[u.len() - 1] == rs[j].3);
    } else {
        assert(rs.drop_last()[j] == rs[j]);
        lemma_untagged_has(rs.drop_last(), j);
        let q = untagged_modes(rs.drop_last(), p, n);
        let k = choose|k: int| 0 <= k < q.len() && q[k] == rs[j].3;
        assert(untagged_modes(rs, p, n)[k] == rs[j].3);
    }
}

/// A mode among `ms` makes the window full or at least as wide as its own.
proof fn lemma_widest_has(ms: Seq<Mode>, m: Mode)
    requires
        ms.contains(m),
    ensures
        any_full(ms) || widest(ms) >= 1,
    decreases ms.len(),
{
    let k = choose|k: int| 0 <= k < ms.len() && ms[k] == m;
    if mode_window(m) is None {
        assert(mode_window(ms[k]) is None);
    } else if k == ms.len() - 1 {
    } else {
        assert(ms.drop_last()[k] == m);
        lemma_widest_has(ms.drop_last(), m);
        if any_full(ms.drop_last()) {
            let i = choose|i: int| 0 <= i < ms.drop_last().len() && #[trigger] mode_window(ms.drop_last()[i]) is None;
            assert(mode_window(ms[i]) is None);
        }
    }
}


/// A pin list holding the canonical text of a tagged rule pins that release.
proof fn lemma_canonical_pin_pins(ps: Seq<Seq<char>>, i: int, s: Seq<char>)
    requires
        0 <= i < ps.len(),
        seed_rule_from_text(s, Mode::Full) matches Ok(x) && x.2 is Some && ps[i]
            == reference_text(x.0, x.1, x.2),
    ensures
        ({
            let x = seed_rule_from_text(s, Mode::Full)->Ok_0;
            rule_tags(parsed_pins(ps), x.0, x.1).contains(x.2->0)
        }),
{
    let x = seed_rule_from_text(s, Mode::Full)->Ok_0;
    lemma_rule_text_roundtrip(s, Mode::Full, Mode::Full);
    lemma_parsed_pins_has(ps, i);
    let q = parsed_pins(ps);
    let j = choose|j: int| 0 <= j < q.len() && q[j] == (x.0, x.1, x.2, Mode::Full);
    assert(q[j].0 == x.0 && q[j].1 == x.1 && q[j].2 == Some(x.2->0));
}

/// A seed list holding the canonical text of a rule covers that image.
proof fn lemma_canonical_seed_covers(pol: Policy, i: int, s: Seq<char>, m: Mode)
    requires
        0 <= i < pol.seed@.len(),
        seed_rule_from_text(s, m) matches Ok(x) && seed_views(pol.seed@)[i].0 == reference_text(
            x.0,
            x.1,
            x.2,
        ),
    ensures
        ({
            let x = seed_rule_from_text(s, m)->Ok_0;
            pol.covered(x.0, x.1)
        }),
{
    let x = seed_rule_from_text(s, m)->Ok_0;
    let ev = seed_views(pol.seed@);
    let mi = ev[i].1;
    lemma_rule_text_roundtrip(s, m, mi);
    lemma_parsed_seeds_has(ev, i);
    let q = parsed_seeds(ev);
    let j = choose|j: int| 0 <= j < q.len() && q[j] == (x.0, x.1, x.2, mi);
    match x.2 {
        Some(t) => {
            assert(q[j].0 == x.0 && q[j].1 == x.1 && q[j].2 == Some(t));
            assert(pol.tags_for(x.0, x.1).contains(t));
        },
        None => {
            lemma_untagged_has(q, j);
            let u = untagged_modes(q, x.0, x.1);
            let f = match first_follow_mode(pol.follows_spec(), x.0) {
                Some(mm) => seq![mm],
                None => Seq::<Mode>::empty(),
            };
            let k = choose|k: int| 0 <= k < u.len() && u[k] == mi;
            assert((f + u)[f.len() + k] == mi);
            lemma_widest_has(f + u, mi);
        },
    }
}


proof fn lemma_first_follow_push(s: Seq<(Seq<u8>, Mode)>, x: (Seq<u8>, Mode), p: Seq<u8>)
    ensures
        first_follow_mode(s.push(x), p) == match first_follow_mode(s, p) {
            Some(m) => Some(m),
            None => if x.0 == p {
                Some(x.1)
            } else {
                None
            },
        },
    decreases s.len(),
{
    let q = s.push(x);
    if s.len() > 0 {
        assert(q[0] == s[0]);
        assert(q.drop_first() =~= s.drop_first().push(x));
        lemma_first_follow_push(s.drop_first(), x, p);
        if s[0].0 != p {
            assert(first_follow_mode(q, p) == first_follow_mode(q.drop_first(), p));
            assert(first_follow_mode(s, p) == first_follow_mode(s.drop_first(), p));
        }
    } else {
        assert(q[0] == x);
        assert(q.drop_first() =~= Seq::<(Seq<u8>, Mode)>::empty());
        assert(first_follow_mode(Seq::<(Seq<u8>, Mode)>::empty(), p) is None);
        assert(first_follow_mode(s, p) is None);
    }
}

/// The first follow of `p` is the first entry whose text reads as `p`.
proof fn lemma_first_follow_entry(ev: Seq<(Seq<char>, Mode)>, p: Seq<u8>)
    ensures
        first_follow_mode(parsed_follows(ev), p) == match first_where(
            ev,
            |e: (Seq<char>, Mode)| publisher_from_text(e.0) == Ok::<Seq<u8>, Error>(p),
        ) {
            Some(i) => Some(ev[i].1),
            None => None,
        },
    decreases ev.len(),
{
    let pred = |e: (Seq<char>, Mode)| publisher_from_text(e.0) == Ok::<Seq<u8>, Error>(p);
    if ev.len() > 0 {
        let w = ev.drop_last();
        lemma_first_follow_entry(w, p);
        lemma_first_where(w, pred);
        let fw = first_where(w, pred);
        match fw {
            Some(i) => {
                assert forall|j: int| 0 <= j < i implies !pred(#[trigger] ev[j]) by {
                    assert(ev[j] == w[j]);
                }
                assert(ev[i] == w[i]);
                lemma_first_where_is(ev, pred, Some(i));
            },
            None => {
                assert forall|j: int| 0 <= j < w.len() implies !pred(#[trigger] ev[j]) by {
                    assert(ev[j] == w[j]);
                }
                if pred(ev.last()) {
                    lemma_first_where_is(ev, pred, Some(ev.len() - 1));
                } else {
                    lemma_first_where_is(ev, pred, None);
                }
            },
        }
        match publisher_from_text(ev.last().0) {
            Ok(k) => {
                lemma_first_follow_push(parsed_follows(w), (k, ev.last().1), p);
            },
            Err(_) => {},
        }
    }
}

/// The canonical text of an alias target reads back as that target.
proof fn lemma_alias_target_roundtrip(s: Seq<char>)
    requires
        alias_target_from_text(s) is Ok,
    ensures
        alias_target_from_text(alias_target_text(alias_target_from_text(s)->Ok_0)) == Ok::<
            (Seq<u8>, Option<Seq<char>>),
            Error,
        >(alias_target_from_text(s)->Ok_0),
{
    let t = alias_target_from_text(s)->Ok_0;
    lemma_publisher_text_valid(s);
    match publisher_from_text(s) {
        Ok(p) => {
            crate::identity::lemma_hex_publisher_roundtrip(p);
        },
        Err(_) => {
            let i = find(s, '/')->0;
            crate::text::lemma_find(s, '/');
            lemma_publisher_text_valid(s.subrange(0, i));
            let p = t.0;
            let n = t.1->0;
            crate::identity::lemma_hex_publisher_roundtrip(p);
            let h = hex_encode(p);
            let text = h + seq!['/'] + n;
            assert(alias_target_text(t) == text);
            assert forall|j: int| 0 <= j < 64 implies #[trigger] text[j] != '/' && !is_white(text[j]) && '\0' <= text[j] <= '\u{7f}' by {
                assert(text[j] == h[j]);
                assert(crate::text::is_lower_hex(h[j]));
            }
            assert(text[64] == '/');
            assert(crate::oci::name_char(n[n.len() - 1]) || n[n.len() - 1] == '/');
            assert(text.last() == n.last());
            crate::text::lemma_trim_noop(text);
            reveal_strlit("did:key:");
            assert(!starts_with(text, "did:key:"@)) by {
                if starts_with(text, "did:key:"@) {
                    assert(text.subrange(0, 8)[1] == "did:key:"@[1]);
                    assert(crate::text::is_lower_hex(h[1]));
                }
            }
            assert(!crate::text::is_alnum(text[64]));
            assert(!(forall|j: int| 0 <= j < text.len() ==> crate::text::is_alnum(#[trigger] text[j])));
            if encode_utf8(text).len() == 64 {
                assert(!lower_hex_text(text)) by {
                    if lower_hex_text(text) {
                        assert(crate::text::is_lower_hex(text[64]));
                    }
                }
            }
            assert(publisher_from_text(text) is Err);
            crate::text::lemma_find_is(text, '/', Some(64));
            assert(text.subrange(0, 64) =~= h);
            assert(text.subrange(65, text.len() as int) =~= n);
        },
    }
}


/// Seeding the same rule twice: the second time changes nothing and reports
/// no change.
pub proof fn lemma_seed_add_twice(ev: Seq<(Seq<char>, Mode)>, c: Seq<char>, mode: Mode, tagged: bool)
    ensures
        ({
            let s1 = seeds_after_add(ev, c, mode, tagged).0;
            seeds_after_add(s1, c, mode, tagged) == (s1, false)
        }),
{
    let pred = rule_is(c);
    lemma_first_where(ev, pred);
    let s1 = seeds_after_add(ev, c, mode, tagged).0;
    match first_where(ev, pred) {
        Some(i) => {
            if !(ev[i].1 == mode || tagged) {
                assert(s1 == ev.update(i, (c, mode)));
                assert forall|j: int| 0 <= j < i implies !pred(#[trigger] s1[j]) by {
                    assert(s1[j] == ev[j]);
                }
                lemma_first_where_is(s1, pred, Some(i));
            }
        },
        None => {
            assert(s1 == ev.push((c, mode)));
            assert forall|j: int| 0 <= j < ev.len() implies !pred(#[trigger] s1[j]) by {
                assert(s1[j] == ev[j]);
            }
            lemma_first_where_is(s1, pred, Some(ev.len() as int));
        },
    }
}

/// Following the same publisher in the same mode twice: the second time
/// changes nothing and reports no change.
pub proof fn lemma_follow_add_twice(ev: Seq<(Seq<char>, Mode)>, p: Seq<u8>, mode: Mode)
    requires
        p.len() == 32,
        crate::identity::ed25519_point(p),
    ensures
        ({
            let s1 = follows_after_add(ev, p, mode).0;
            follows_after_add(s1, p, mode) == (s1, false)
        }),
{
    let pred = |e: (Seq<char>, Mode)| publisher_from_text(e.0) == Ok::<Seq<u8>, Error>(p);
    lemma_first_where(ev, pred);
    let s1 = follows_after_add(ev, p, mode).0;
    match first_where(ev, pred) {
        Some(i) => {
            if ev[i].1 != mode {
                assert(s1 == ev.update(i, (ev[i].0, mode)));
                assert forall|j: int| 0 <= j < i implies !pred(#[trigger] s1[j]) by {
                    assert(s1[j] == ev[j]);
                }
                assert(pred(s1[i]));
                lemma_first_where_is(s1, pred, Some(i));
            }
        },
        None => {
            assert(s1 == ev.push((hex_encode(p), mode)));
            assert forall|j: int| 0 <= j < ev.len() implies !pred(#[trigger] s1[j]) by {
                assert(s1[j] == ev[j]);
            }
            crate::identity::lemma_hex_publisher_roundtrip(p);
            assert(pred(s1[ev.len() as int]));
            lemma_first_where_is(s1, pred, Some(ev.len() as int));
        },
    }
}

/// A `last:N` window keeps at most `N` tags besides its explicit ones.
pub proof fn lemma_window_bound(last: nat, tags: Set<Seq<char>>, known: Seq<(Seq<char>, u64)>)
    requires
        tags.finite(),
        last > 0,
    ensures
        window_select(false, last, tags, known).finite(),
        window_select(false, last, tags, known).len() <= tags.len() + last,
{
    let h = distinct_heads(crate::order::newest_first(known));
    let k = if last < h.len() {
        last as int
    } else {
        h.len() as int
    };
    let t = h.take(k);
    t.lemma_cardinality_of_set();
    vstd::seq_lib::seq_to_set_is_finite(t);
    vstd::set_lib::lemma_len_union(tags, t.to_set());
    assert(window_select(false, last, tags, known) == tags + t.to_set());
}


/// The largest window among `ms`: at least every window of a mode other
/// than `full`, reached by one of them, and 0 exactly when every mode is
/// `full`. Some mode keeps everything exactly when one of them is `full`.
pub proof fn lemma_widest_is_max(ms: Seq<Mode>)
    ensures
        any_full(ms) <==> ms.contains(Mode::Full),
        forall|i: int|
            0 <= i < ms.len() && ms[i] != Mode::Full ==> mode_window(#[trigger] ms[i]) is Some && 1
                <= mode_window(ms[i])->0 <= widest(ms),
        widest(ms) == 0 <==> forall|i: int| 0 <= i < ms.len() ==> #[trigger] ms[i] == Mode::Full,
        widest(ms) > 0 ==> exists|i: int|
            0 <= i < ms.len() && ms[i] != Mode::Full && mode_window(#[trigger] ms[i]) == Some(
                widest(ms),
            ),
    decreases ms.len(),
{
    assert forall|i: int| 0 <= i < ms.len() implies (mode_window(#[trigger] ms[i]) is None <==> ms[i]
        == Mode::Full) by {}
    if ms.len() == 0 {
    } else {
        let t = ms.drop_last();
        lemma_widest_is_max(t);
        assert forall|i: int| 0 <= i < t.len() implies #[trigger] t[i] == ms[i] by {}
        let l = ms.len() - 1;
        assert(ms[l] == ms.last());
        assert(widest(t) <= widest(ms));
        assert forall|i: int| 0 <= i < ms.len() && ms[i] != Mode::Full implies mode_window(
            #[trigger] ms[i],
        ) is Some && 1 <= mode_window(ms[i])->0 <= widest(ms) by {
            if i < l {
                assert(ms[i] == t[i]);
            }
        }
        if ms.contains(Mode::Full) {
            let j = choose|j: int| 0 <= j < ms.len() && ms[j] == Mode::Full;
            assert(mode_window(ms[j]) is None);
        }
        if any_full(ms) {
            let j = choose|j: int| 0 <= j < ms.len() && #[trigger] mode_window(ms[j]) is None;
            assert(ms[j] == Mode::Full);
        }
        if t.contains(Mode::Full) {
            let j = choose|j: int| 0 <= j < t.len() && t[j] == Mode::Full;
            assert(ms[j] == Mode::Full);
        }
        if widest(ms) > 0 && widest(ms) != widest(t) {
            assert(ms[l] != Mode::Full && mode_window(ms[l]) == Some(widest(ms)));
        }
        if widest(ms) > 0 && widest(ms) == widest(t) {
            let j = choose|j: int|
                0 <= j < t.len() && t[j] != Mode::Full && mode_window(#[trigger] t[j]) == Some(widest(t));
            assert(ms[j] == t[j]);
        }
        if widest(ms) == 0 {
            assert forall|i: int| 0 <= i < ms.len() implies #[trigger] ms[i] == Mode::Full by {
                if i < l {
                    assert(ms[i] == t[i]);
                }
            }
        }
        if forall|i: int| 0 <= i < ms.len() ==> #[trigger] ms[i] == Mode::Full {
            assert forall|i: int| 0 <= i < t.len() implies #[trigger] t[i] == Mode::Full by {
                assert(ms[i] == Mode::Full);
            }
            assert(ms[l] == Mode::Full);
        }
    }
}

/// The window of image `(p, n)` in set form (`Policy::window`): everything is
/// kept exactly when the first follow of `p` or an untagged seed rule of
/// `(p, n)` is `full`; the window size is the widest of the other modes (0
/// when there is none); the fixed tags are those of the tagged seed rules and
/// the pins of `(p, n)`.
pub proof fn lemma_window_set_form(policy: Policy, p: Seq<u8>, n: Seq<char>)
    ensures
        ({
            let ms = policy.modes_for(p, n);
            &&& any_full(ms) <==> ms.contains(Mode::Full)
            &&& forall|i: int|
                0 <= i < ms.len() && ms[i] != Mode::Full ==> mode_window(#[trigger] ms[i]) is Some
                    && mode_window(ms[i])->0 <= widest(ms)
            &&& widest(ms) == 0 <==> forall|i: int| 0 <= i < ms.len() ==> #[trigger] ms[i] == Mode::Full
            &&& widest(ms) > 0 ==> exists|i: int|
                0 <= i < ms.len() && ms[i] != Mode::Full && mode_window(#[trigger] ms[i]) == Some(
                    widest(ms),
                )
            &&& forall|t: Seq<char>| #[trigger] policy.tags_for(p, n).contains(t) <==> (exists|i: int|
                0 <= i < policy.seed_rules_spec().len() && #[trigger] policy.seed_rules_spec()[i].0 == p
                    && policy.seed_rules_spec()[i].1 == n && policy.seed_rules_spec()[i].2 == Some(t))
                || (exists|i: int|
                0 <= i < policy.pins_spec().len() && #[trigger] policy.pins_spec()[i].0 == p
                    && policy.pins_spec()[i].1 == n && policy.pins_spec()[i].2 == Some(t))
        }),
{
    lemma_widest_is_max(policy.modes_for(p, n));
}

proof fn lemma_first_follow_exists(fs: Seq<(Seq<u8>, Mode)>, p: Seq<u8>)
    ensures
        first_follow_mode(fs, p) is Some <==> exists|i: int| 0 <= i < fs.len() && #[trigger] fs[i].0 == p,
    decreases fs.len(),
{
    if fs.len() > 0 {
        let t = fs.drop_first();
        lemma_first_follow_exists(t, p);
        if exists|i: int| 0 <= i < t.len() && #[trigger] t[i].0 == p {
            let i = choose|i: int| 0 <= i < t.len() && #[trigger] t[i].0 == p;
            assert(fs[i + 1].0 == p);
        }
        if exists|i: int| 0 <= i < fs.len() && #[trigger] fs[i].0 == p {
            let i = choose|i: int| 0 <= i < fs.len() && #[trigger] fs[i].0 == p;
            if i > 0 {
                assert(t[i - 1].0 == p);
            }
        }
    }
}

proof fn lemma_untagged_exists(rs: Seq<(Seq<u8>, Seq<char>, Option<Seq<char>>, Mode)>, p: Seq<u8>, n: Seq<char>)
    ensures
        untagged_modes(rs, p, n).len() > 0 <==> exists|i: int|
            0 <= i < rs.len() && #[trigger] rs[i].0 == p && rs[i].1 == n && rs[i].2 is None,
    decreases rs.len(),
{
    if rs.len() > 0 {
        let t = rs.drop_last();
        lemma_untagged_exists(t, p, n);
        if exists|i: int| 0 <= i < t.len() && #[trigger] t[i].0 == p && t[i].1 == n && t[i].2 is None {
            let i = choose|i: int| 0 <= i < t.len() && #[trigger] t[i].0 == p && t[i].1 == n && t[i].2 is None;
            assert(rs[i] == t[i]);
        }
        if exists|i: int| 0 <= i < rs.len() && #[trigger] rs[i].0 == p && rs[i].1 == n && rs[i].2 is None {
            let i = choose|i: int| 0 <= i < rs.len() && #[trigger] rs[i].0 == p && rs[i].1 == n && rs[i].2 is None;
            if i < t.len() {
                assert(t[i] == rs[i]);
            }
        }
    }
}

proof fn lemma_pins_tagged(ps: Seq<Seq<char>>)
    ensures
        forall|i: int| 0 <= i < parsed_pins(ps).len() ==> (#[trigger] parsed_pins(ps)[i]).2 is Some,
    decreases ps.len(),
{
    if ps.len() > 0 {
        lemma_pins_tagged(ps.drop_last());
        let rest = parsed_pins(ps.drop_last());
        assert forall|i: int| 0 <= i < parsed_pins(ps).len() implies (#[trigger] parsed_pins(ps)[i]).2 is Some by {
            if i < rest.len() {
                assert(parsed_pins(ps)[i] == rest[i]);
            }
        }
    }
}

/// An image is covered (`Policy::covers`) exactly when its publisher is
/// followed, or a seed rule or a pin names it.
pub proof fn lemma_covers_rules(policy: Policy, p: Seq<u8>, n: Seq<char>)
    ensures
        policy.covered(p, n) <==> (exists|i: int|
            0 <= i < policy.follows_spec().len() && #[trigger] policy.follows_spec()[i].0 == p) || (
        exists|i: int|
            0 <= i < policy.seed_rules_spec().len() && #[trigger] policy.seed_rules_spec()[i].0 == p
                && policy.seed_rules_spec()[i].1 == n) || (exists|i: int|
            0 <= i < policy.pins_spec().len() && #[trigger] policy.pins_spec()[i].0 == p
                && policy.pins_spec()[i].1 == n),
{
    let fs = policy.follows_spec();
    let rs = policy.seed_rules_spec();
    let ps = policy.pins_spec();
    let ms = policy.modes_for(p, n);
    lemma_widest_is_max(ms);
    lemma_first_follow_exists(fs, p);
    lemma_untagged_exists(rs, p, n);
    lemma_pins_tagged(texts_view(policy.pin@));
    let f: Seq<Mode> = match first_follow_mode(fs, p) {
        Some(m) => seq![m],
        None => Seq::empty(),
    };
    assert(ms == f + untagged_modes(rs, p, n));
    // a non-empty list of modes keeps something
    if ms.len() > 0 {
        if !any_full(ms) {
            assert(ms[0] != Mode::Full);
        }
    }
    if any_full(ms) || widest(ms) > 0 {
        assert(ms.len() > 0);
    }
    let tags = policy.tags_for(p, n);
    if exists|i: int| 0 <= i < rs.len() && #[trigger] rs[i].0 == p && rs[i].1 == n {
        let i = choose|i: int| 0 <= i < rs.len() && #[trigger] rs[i].0 == p && rs[i].1 == n;
        if rs[i].2 is Some {
            assert(rule_tags(rs, p, n).contains(rs[i].2->0));
            assert(tags.contains(rs[i].2->0));
        } else {
            assert(untagged_modes(rs, p, n).len() > 0);
        }
    }
    if exists|i: int| 0 <= i < ps.len() && #[trigger] ps[i].0 == p && ps[i].1 == n {
        let i = choose|i: int| 0 <= i < ps.len() && #[trigger] ps[i].0 == p && ps[i].1 == n;
        assert(ps[i].2 is Some);
        assert(rule_tags(ps, p, n).contains(ps[i].2->0));
        assert(tags.contains(ps[i].2->0));
    }
    if !tags.is_empty() {
        let t = tags.choose();
        assert(tags.contains(t));
        if rule_tags(rs, p, n).contains(t) {
            let i = choose|i: int| 0 <= i < rs.len() && #[trigger] rs[i].0 == p && rs[i].1 == n && rs[i].2 == Some(t);
            assert(rs[i].0 == p && rs[i].1 == n);
        } else {
            let i = choose|i: int| 0 <= i < ps.len() && #[trigger] ps[i].0 == p && ps[i].1 == n && ps[i].2 == Some(t);
            assert(ps[i].0 == p && ps[i].1 == n);
        }
    }
    if untagged_modes(rs, p, n).len() > 0 {
        let i = choose|i: int| 0 <= i < rs.len() && #[trigger] rs[i].0 == p && rs[i].1 == n && rs[i].2 is None;
        assert(rs[i].0 == p && rs[i].1 == n);
    }
}

/// Seeding the same rule in the same mode twice (`Policy::add_seed`): the
/// second call reports no change and leaves the seeds as the first left them.
pub proof fn lemma_add_seed_twice(ev: Seq<(Seq<char>, Mode)>, rule: Seq<char>, mode: Mode)
    requires
        seed_rule_from_text(rule, mode) is Ok,
    ensures
        ({
            let x = seed_rule_from_text(rule, mode)->Ok_0;
            let c = reference_text(x.0, x.1, x.2);
            let s1 = seeds_after_add(ev, c, mode, x.2 is Some).0;
            seeds_after_add(s1, c, mode, x.2 is Some) == (s1, false)
        }),
{
    let x = seed_rule_from_text(rule, mode)->Ok_0;
    lemma_seed_add_twice(ev, reference_text(x.0, x.1, x.2), mode, x.2 is Some);
}

/// Dropping texts none of which is dropped changes nothing.
proof fn lemma_kept_unchanged(s: Seq<Seq<char>>, keep: spec_fn(Seq<char>) -> bool)
    requires
        forall|i: int| 0 <= i < s.len() ==> keep(#[trigger] s[i]),
    ensures
        kept(s, keep) == s,
    decreases s.len(),
{
    if s.len() > 0 {
        let t = s.drop_last();
        assert forall|i: int| 0 <= i < t.len() implies keep(#[trigger] t[i]) by {
            assert(t[i] == s[i]);
        }
        lemma_kept_unchanged(t, keep);
        assert(keep(s[s.len() - 1]));
        assert(t.push(s.last()) =~= s);
    }
}

/// Pinning a reference that was not pinned and unpinning it again
/// (`Policy::add_pin`, then `Policy::remove_pin`) gives back the pins as they
/// were; unpinning once more leaves them so, and so reports no change.
pub proof fn lemma_pin_then_unpin(pins: Seq<Seq<char>>, c: Seq<char>)
    requires
        !pins.contains(c),
    ensures
        kept(pins.push(c), other_than(c)) == pins,
        kept(pins, other_than(c)) == pins,
{
    assert forall|i: int| 0 <= i < pins.len() implies other_than(c)(#[trigger] pins[i]) by {
        if pins[i] == c {
            assert(pins.contains(c));
        }
    }
    lemma_kept_unchanged(pins, other_than(c));
    assert(pins.push(c).drop_last() =~= pins);
}

/// Every text other than `c`.
pub open spec fn other_than(c: Seq<char>) -> spec_fn(Seq<char>) -> bool {
    |t: Seq<char>| t != c
}

/// Where the first match in `s` with `x` appended is.
proof fn lemma_first_where_push<T>(s: Seq<T>, x: T, q: spec_fn(T) -> bool)
    ensures
        first_where(s.push(x), q) == match first_where(s, q) {
            Some(i) => Some(i),
            None => if q(x) {
                Some(s.len() as int)
            } else {
                None
            },
        },
{
    let w = s.push(x);
    lemma_first_where(s, q);
    assert forall|j: int| 0 <= j < s.len() implies #[trigger] w[j] == s[j] by {}
    let r = match first_where(s, q) {
        Some(i) => Some(i),
        None => if q(x) {
            Some(s.len() as int)
        } else {
            None
        },
    };
    assert(w[s.len() as int] == x);
    assert(is_first_where(w, q, r));
    lemma_first_where_is(w, q, r);
}

/// Removing alias `a` (`Policy::remove_alias`): `a` is no longer set, and
/// every other alias keeps what it stood for.
pub proof fn lemma_remove_alias_lookup(av: Seq<(Seq<char>, Seq<char>)>, a: Seq<char>)
    ensures
        alias_lookup(kept(av, key_other_than(a)), a) is None,
        forall|k: Seq<char>| k != a ==> #[trigger] alias_lookup(kept(av, key_other_than(a)), k)
            == alias_lookup(av, k),
    decreases av.len(),
{
    let keep = key_other_than(a);
    let ks = kept(av, keep);
    lemma_kept_all(av, keep);
    let qa = key_is(a);
    assert forall|j: int| 0 <= j < ks.len() implies !qa(#[trigger] ks[j]) by {
        assert(keep(ks[j]));
    }
    lemma_first_where_is(ks, qa, None);
    if av.len() > 0 {
        let t = av.drop_last();
        let x = av.last();
        assert(t.push(x) =~= av);
        lemma_remove_alias_lookup(t, a);
        assert forall|k: Seq<char>| k != a implies #[trigger] alias_lookup(ks, k) == alias_lookup(
            av,
            k,
        ) by {
            let qk = key_is(k);
            lemma_first_where_push(t, x, qk);
            let kt = kept(t, keep);
            assert(alias_lookup(kt, k) == alias_lookup(t, k));
            if keep(x) {
                assert(ks == kt.push(x));
                lemma_first_where_push(kt, x, qk);
                lemma_first_where(kt, qk);
                lemma_first_where(t, qk);
                if first_where(kt, qk) is Some {
                    assert(ks[first_where(kt, qk)->0] == kt[first_where(kt, qk)->0]);
                }
                if first_where(t, qk) is Some {
                    assert(av[first_where(t, qk)->0] == t[first_where(t, qk)->0]);
                }
                assert(ks[kt.len() as int] == x);
                assert(av[t.len() as int] == x);
            } else {
                assert(ks == kt);
                lemma_first_where(t, qk);
                if first_where(t, qk) is Some {
                    assert(av[first_where(t, qk)->0] == t[first_where(t, qk)->0]);
                }
            }
        }
    }
}

proof fn lemma_distinct_heads_nonempty(s: Seq<(Seq<char>, u64)>)
    requires
        s.len() > 0,
    ensures
        distinct_heads(s).len() > 0,
    decreases s.len(),
{
    if s.len() > 1 {
        lemma_distinct_heads_nonempty(s.drop_last());
    }
}

/// An empty window (`Window::is_empty`) selects nothing, and any other window
/// selects something out of at least one known release.
pub proof fn lemma_window_emptiness(w: Window, known: Seq<(Seq<char>, u64)>)
    ensures
        w.empty() ==> window_select(w.full, w.last as nat, string_set(w.tags@), known).is_empty(),
        !w.empty() && known.len() > 0 ==> !window_select(
            w.full,
            w.last as nat,
            string_set(w.tags@),
            known,
        ).is_empty(),
{
    let sel = window_select(w.full, w.last as nat, string_set(w.tags@), known);
    if w.empty() {
        assert(string_set(w.tags@) =~= Set::<Seq<char>>::empty());
        assert(sel =~= Set::<Seq<char>>::empty());
    } else if known.len() > 0 {
        if w.tags@.len() > 0 {
            assert(string_set(w.tags@).contains(w.tags@[0]@));
            assert(sel.contains(w.tags@[0]@));
        } else if w.full {
            assert(known_tags(known).contains(known[0].0));
            assert(sel.contains(known[0].0));
        } else {
            crate::order::lemma_newer_first_total();
            known.lemma_sort_by_ensures(crate::order::newer_first_fn());
            let nf = newest_first(known);
            assert(nf.to_multiset().len() == known.to_multiset().len());
            known.to_multiset_ensures();
            nf.to_multiset_ensures();
            assert(nf.len() > 0);
            lemma_distinct_heads_nonempty(nf);
            let h = distinct_heads(nf);
            assert(h.take(1).to_set().contains(h[0])) by {
                assert(h.take(1)[0] == h[0]);
            }
            let k = if (w.last as nat) < h.len() { w.last as int } else { h.len() as int };
            assert(h.take(k)[0] == h[0]);
            assert(h.take(k).contains(h[0]));
            assert(sel.contains(h[0]));
        }
    }
}

/// Unseeding (`Policy::remove_seed` of `p/n` or `p/n:t`) leaves no seed rule
/// it names: after removing an untagged rule no remaining entry is a rule for
/// image `(p, n)` at all, tagged or not; after removing `p/n:t` none is for
/// that tag. Every entry that is not such a rule stays.
pub proof fn lemma_unseed_clears_image(ev: Seq<(Seq<char>, Mode)>, p: Seq<u8>, n: Seq<char>, t: Option<Seq<char>>)
    ensures
        forall|i: int|
            0 <= i < kept(ev, not_removed_by(p, n, t)).len() ==> match seed_rule_from_text(
                (#[trigger] kept(ev, not_removed_by(p, n, t))[i]).0,
                kept(ev, not_removed_by(p, n, t))[i].1,
            ) {
                Ok(r) => !(r.0 == p && r.1 == n && (t is None || r.2 == t)),
                Err(_) => true,
            },
        forall|j: int|
            0 <= j < ev.len() && !(seed_rule_from_text(#[trigger] ev[j].0, ev[j].1) matches Ok(r)
                && r.0 == p && r.1 == n && (t is None || r.2 == t)) ==> kept(ev, not_removed_by(p, n, t)).contains(ev[j]),
    decreases ev.len(),
{
    let keep = not_removed_by(p, n, t);
    lemma_kept_all(ev, keep);
    let k = kept(ev, keep);
    assert forall|i: int| 0 <= i < k.len() implies match seed_rule_from_text((#[trigger] k[i]).0, k[i].1) {
        Ok(r) => !(r.0 == p && r.1 == n && (t is None || r.2 == t)),
        Err(_) => true,
    } by {
        assert(keep(k[i]));
    }
    if ev.len() > 0 {
        let s = ev.drop_last();
        lemma_unseed_clears_image(s, p, n, t);
        let ks = kept(s, keep);
        assert forall|j: int|
            0 <= j < ev.len() && !(seed_rule_from_text(#[trigger] ev[j].0, ev[j].1) matches Ok(r)
                && r.0 == p && r.1 == n && (t is None || r.2 == t)) implies k.contains(ev[j]) by {
            assert(keep(ev[j]));
            if j < s.len() {
                assert(s[j] == ev[j]);
                assert(ks.contains(s[j]));
                let m = choose|m: int| 0 <= m < ks.len() && ks[m] == s[j];
                assert(k[m] == ks[m]);
            } else {
                assert(ev[j] == ev.last());
                assert(k[k.len() - 1] == ev.last());
            }
        }
    }
}

} // verus!
