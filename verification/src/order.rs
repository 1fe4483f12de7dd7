//! Orders used by the policy: lexicographic order on text (std's `Ord` for
//! `str`, which compares UTF-8 bytes and so agrees with comparing characters)
//! and the "newest release first" order of `(tag, timestamp)` pairs.

use vstd::prelude::*;
use vstd::relations::{sorted_by, total_ordering};
use crate::text::{chars_of, distinct_strings, string_set, texts_view};

verus! {

/// `a <= b` in lexicographic order of characters.
pub open spec fn text_le(a: Seq<char>, b: Seq<char>) -> bool
    decreases a.len(),
{
    if a.len() == 0 {
        true
    } else if b.len() == 0 {
        false
    } else if a[0] != b[0] {
        a[0] < b[0]
    } else {
        text_le(a.drop_first(), b.drop_first())
    }
}

pub proof fn lemma_text_le_refl(a: Seq<char>)
    ensures
        text_le(a, a),
    decreases a.len(),
{
    if a.len() > 0 {
        lemma_text_le_refl(a.drop_first());
    }
}

pub proof fn lemma_text_le_antisym(a: Seq<char>, b: Seq<char>)
    requires
        text_le(a, b),
        text_le(b, a),
    ensures
        a == b,
    decreases a.len(),
{
    if a.len() > 0 && b.len() > 0 {
        lemma_text_le_antisym(a.drop_first(), b.drop_first());
        assert(a =~= seq![a[0]] + a.drop_first());
        assert(b =~= seq![b[0]] + b.drop_first());
    }
}

pub proof fn lemma_text_le_trans(a: Seq<char>, b: Seq<char>, c: Seq<char>)
    requires
        text_le(a, b),
        text_le(b, c),
    ensures
        text_le(a, c),
    decreases a.len(),
{
    if a.len() > 0 && b.len() > 0 && c.len() > 0 {
        if a[0] == b[0] && b[0] == c[0] {
            lemma_text_le_trans(a.drop_first(), b.drop_first(), c.drop_first());
        }
    }
}

pub proof fn lemma_text_le_total(a: Seq<char>, b: Seq<char>)
    ensures
        text_le(a, b) || text_le(b, a),
    decreases a.len(),
{
    if a.len() > 0 && b.len() > 0 && a[0] == b[0] {
        lemma_text_le_total(a.drop_first(), b.drop_first());
    }
}

/// Compares two texts lexicographically.
pub fn text_le_exec(a: &str, b: &str) -> (r: bool)
    ensures
        r == text_le(a@, b@),
{
    let av = chars_of(a);
    let bv = chars_of(b);
    let mut i: usize = 0;
    assert(a@.skip(0) =~= a@);
    assert(b@.skip(0) =~= b@);
    while i < av.len() && i < bv.len()
        invariant
            av@ == a@,
            bv@ == b@,
            0 <= i <= av@.len(),
            i <= bv@.len(),
            text_le(a@, b@) == text_le(a@.skip(i as int), b@.skip(i as int)),
        decreases av@.len() - i,
    {
        assert(a@.skip(i as int)[0] == av@[i as int]);
        assert(b@.skip(i as int)[0] == bv@[i as int]);
        if av[i] != bv[i] {
            return av[i] < bv[i];
        }
        assert(a@.skip(i as int).drop_first() =~= a@.skip(i + 1));
        assert(b@.skip(i as int).drop_first() =~= b@.skip(i + 1));
        i = i + 1;
    }
    if i == av.len() {
        assert(a@.skip(i as int).len() == 0);
        true
    } else {
        assert(b@.skip(i as int).len() == 0);
        false
    }
}

// ---------------------------------------------------------------------------
// newest release first
// ---------------------------------------------------------------------------

/// `a` comes no later than `b`: a newer timestamp first, and among releases
/// of the same second the greater tag first.
pub open spec fn newer_first(a: (Seq<char>, u64), b: (Seq<char>, u64)) -> bool {
    a.1 > b.1 || (a.1 == b.1 && text_le(b.0, a.0))
}

pub open spec fn newer_first_fn() -> spec_fn((Seq<char>, u64), (Seq<char>, u64)) -> bool {
    |a: (Seq<char>, u64), b: (Seq<char>, u64)| newer_first(a, b)
}

pub proof fn lemma_newer_first_total()
    ensures
        total_ordering(newer_first_fn()),
{
    let f = newer_first_fn();
    assert forall|x: (Seq<char>, u64)| #[trigger] f(x, x) by {
        lemma_text_le_refl(x.0);
    }
    assert forall|x: (Seq<char>, u64), y: (Seq<char>, u64)| #[trigger] f(x, y) && #[trigger] f(
        y,
        x,
    ) implies x == y by {
        if x.1 == y.1 {
            lemma_text_le_antisym(x.0, y.0);
        }
    }
    assert forall|x: (Seq<char>, u64), y: (Seq<char>, u64), z: (Seq<char>, u64)| #[trigger] f(
        x,
        y,
    ) && #[trigger] f(y, z) implies f(x, z) by {
        if x.1 == y.1 && y.1 == z.1 {
            lemma_text_le_trans(z.0, y.0, x.0);
        }
    }
    assert forall|x: (Seq<char>, u64), y: (Seq<char>, u64)| #[trigger] f(x, y) || #[trigger] f(
        y,
        x,
    ) by {
        lemma_text_le_total(x.0, y.0);
    }
}

/// The pairs `known` sorted newest first.
pub open spec fn newest_first(known: Seq<(Seq<char>, u64)>) -> Seq<(Seq<char>, u64)> {
    known.sort_by(newer_first_fn())
}

/// The text view of `(tag, timestamp)` pairs.
pub open spec fn pairs_view(v: Seq<(&str, u64)>) -> Seq<(Seq<char>, u64)> {
    Seq::new(v.len(), |i: int| (v[i].0@, v[i].1))
}

fn newer_first_exec(a: (&str, u64), b: (&str, u64)) -> (r: bool)
    ensures
        r == newer_first((a.0@, a.1), (b.0@, b.1)),
{
    a.1 > b.1 || (a.1 == b.1 && text_le_exec(b.0, a.0))
}

/// Sorts `(tag, timestamp)` pairs newest first (std's `sort_by` with
/// `b.1.cmp(&a.1).then_with(|| b.0.cmp(a.0))`).
pub fn sort_newest_first<'a>(known: &[(&'a str, u64)]) -> (r: Vec<(&'a str, u64)>)
    ensures
        pairs_view(r@) == newest_first(pairs_view(known@)),
{
    let ghost f = newer_first_fn();
    proof {
        lemma_newer_first_total();
    }
    let mut out: Vec<(&'a str, u64)> = Vec::new();
    let mut i: usize = 0;
    assert(pairs_view(out@) =~= Seq::<(Seq<char>, u64)>::empty());
    assert(pairs_view(known@).take(0) =~= Seq::<(Seq<char>, u64)>::empty());
    while i < known.len()
        invariant
            0 <= i <= known@.len(),
            f == newer_first_fn(),
            total_ordering(f),
            sorted_by(pairs_view(out@), f),
            pairs_view(out@).to_multiset() == pairs_view(known@).take(i as int).to_multiset(),
        decreases known@.len() - i,
    {
        let e = known[i];
        let ghost ev = (e.0@, e.1);
        assert(pairs_view(known@)[i as int] == ev);
        let mut pos: usize = 0;
        loop
            invariant
                0 <= pos <= out@.len(),
                ev == (e.0@, e.1),
                forall|k: int| 0 <= k < pos ==> !newer_first(ev, #[trigger] pairs_view(out@)[k]),
            ensures
                0 <= pos <= out@.len(),
                forall|k: int| 0 <= k < pos ==> !newer_first(ev, #[trigger] pairs_view(out@)[k]),
                pos < out@.len() ==> newer_first(ev, pairs_view(out@)[pos as int]),
            decreases out@.len() - pos,
        {
            if pos >= out.len() {
                break;
            }
            assert(pairs_view(out@)[pos as int] == (out@[pos as int].0@, out@[pos as int].1));
            if newer_first_exec(e, out[pos]) {
                break;
            }
            pos = pos + 1;
        }
        let ghost before = pairs_view(out@);
        out.insert(pos, e);
        proof {
            let s = pairs_view(out@);
            assert(s =~= before.insert(pos as int, ev));
            assert forall|a: int, b: int| 0 <= a < b < s.len() implies #[trigger] f(
                s[a],
                s[b],
            ) by {
                if b < pos {
                    assert(s[a] == before[a] && s[b] == before[b]);
                    assert(f(before[a], before[b]));
                } else if b == pos {
                    assert(s[a] == before[a] && s[b] == ev);
                    assert(!f(ev, before[a]));
                    assert(f(ev, before[a]) || f(before[a], ev));
                } else if a == pos {
                    assert(s[a] == ev && s[b] == before[b - 1]);
                    assert(f(ev, before[pos as int]));
                    if b - 1 > pos {
                        assert(f(before[pos as int], before[b - 1]));
                        assert(f(ev, before[b - 1]));
                    }
                } else if a < pos {
                    assert(s[a] == before[a] && s[b] == before[b - 1]);
                    assert(f(before[a], before[b - 1]));
                } else {
                    assert(s[a] == before[a - 1] && s[b] == before[b - 1]);
                    assert(f(before[a - 1], before[b - 1]));
                }
            }
            vstd::seq_lib::to_multiset_insert(before, pos as int, ev);
            assert(pairs_view(known@).take(i + 1) =~= pairs_view(known@).take(i as int).push(ev));
            vstd::seq_lib::to_multiset_build(pairs_view(known@).take(i as int), ev);
        }
        i = i + 1;
    }
    proof {
        assert(pairs_view(known@).take(known@.len() as int) =~= pairs_view(known@));
        pairs_view(known@).lemma_sort_by_ensures(f);
        vstd::seq_lib::lemma_sorted_unique(pairs_view(out@), newest_first(pairs_view(known@)), f);
    }
    out
}


// ---------------------------------------------------------------------------
// sorted text
// ---------------------------------------------------------------------------

pub open spec fn text_le_fn() -> spec_fn(Seq<char>, Seq<char>) -> bool {
    |a: Seq<char>, b: Seq<char>| text_le(a, b)
}

pub proof fn lemma_text_le_total_ordering()
    ensures
        total_ordering(text_le_fn()),
{
    let f = text_le_fn();
    assert forall|x: Seq<char>| #[trigger] f(x, x) by {
        lemma_text_le_refl(x);
    }
    assert forall|x: Seq<char>, y: Seq<char>| #[trigger] f(x, y) && #[trigger] f(y, x) implies x
        == y by {
        lemma_text_le_antisym(x, y);
    }
    assert forall|x: Seq<char>, y: Seq<char>, z: Seq<char>| #[trigger] f(x, y) && #[trigger] f(
        y,
        z,
    ) implies f(x, z) by {
        lemma_text_le_trans(x, y, z);
    }
    assert forall|x: Seq<char>, y: Seq<char>| #[trigger] f(x, y) || #[trigger] f(y, x) by {
        lemma_text_le_total(x, y);
    }
}

/// The texts `v` sorted in lexicographic order (std's `sort` on strings).
pub open spec fn sorted_texts(v: Seq<Seq<char>>) -> Seq<Seq<char>> {
    v.sort_by(text_le_fn())
}

/// Sorts texts in lexicographic order.
pub fn sort_texts(v: Vec<String>) -> (r: Vec<String>)
    ensures
        texts_view(r@) == sorted_texts(texts_view(v@)),
{
    let ghost f = text_le_fn();
    proof {
        lemma_text_le_total_ordering();
    }
    let mut out: Vec<String> = Vec::new();
    let mut i: usize = 0;
    assert(texts_view(out@) =~= Seq::<Seq<char>>::empty());
    assert(texts_view(v@).take(0) =~= Seq::<Seq<char>>::empty());
    while i < v.len()
        invariant
            0 <= i <= v@.len(),
            f == text_le_fn(),
            total_ordering(f),
            sorted_by(texts_view(out@), f),
            texts_view(out@).to_multiset() == texts_view(v@).take(i as int).to_multiset(),
        decreases v@.len() - i,
    {
        let e = v[i].clone();
        let ghost ev = e@;
        assert(texts_view(v@)[i as int] == ev);
        let mut pos: usize = 0;
        loop
            invariant
                0 <= pos <= out@.len(),
                ev == e@,
                forall|k: int| 0 <= k < pos ==> !text_le(ev, #[trigger] texts_view(out@)[k]),
            ensures
                0 <= pos <= out@.len(),
                forall|k: int| 0 <= k < pos ==> !text_le(ev, #[trigger] texts_view(out@)[k]),
                pos < out@.len() ==> text_le(ev, texts_view(out@)[pos as int]),
            decreases out@.len() - pos,
        {
            if pos >= out.len() {
                break;
            }
            assert(texts_view(out@)[pos as int] == out@[pos as int]@);
            if text_le_exec(e.as_str(), out[pos].as_str()) {
                break;
            }
            pos = pos + 1;
        }
        let ghost before = texts_view(out@);
        out.insert(pos, e);
        proof {
            let s = texts_view(out@);
            assert(s =~= before.insert(pos as int, ev));
            assert forall|a: int, b: int| 0 <= a < b < s.len() implies #[trigger] f(
                s[a],
                s[b],
            ) by {
                if b < pos {
                    assert(s[a] == before[a] && s[b] == before[b]);
                    assert(f(before[a], before[b]));
                } else if b == pos {
                    assert(s[a] == before[a] && s[b] == ev);
                    assert(!f(ev, before[a]));
                    assert(f(ev, before[a]) || f(before[a], ev));
                } else if a == pos {
                    assert(s[a] == ev && s[b] == before[b - 1]);
                    assert(f(ev, before[pos as int]));
                    if b - 1 > pos {
                        assert(f(before[pos as int], before[b - 1]));
                        assert(f(ev, before[b - 1]));
                    }
                } else if a < pos {
                    assert(s[a] == before[a] && s[b] == before[b - 1]);
                    assert(f(before[a], before[b - 1]));
                } else {
                    assert(s[a] == before[a - 1] && s[b] == before[b - 1]);
                    assert(f(before[a - 1], before[b - 1]));
                }
            }
            vstd::seq_lib::to_multiset_insert(before, pos as int, ev);
            assert(texts_view(v@).take(i + 1) =~= texts_view(v@).take(i as int).push(ev));
            vstd::seq_lib::to_multiset_build(texts_view(v@).take(i as int), ev);
        }
        i = i + 1;
    }
    proof {
        assert(texts_view(v@).take(v@.len() as int) =~= texts_view(v@));
        texts_view(v@).lemma_sort_by_ensures(f);
        vstd::seq_lib::lemma_sorted_unique(texts_view(out@), sorted_texts(texts_view(v@)), f);
    }
    out
}


/// The texts of `v`, each once, in lexicographic order: the order in which a
/// `BTreeSet<String>` holds them.
pub fn sort_text_set(v: Vec<String>) -> (r: Vec<String>)
    requires
        distinct_strings(v@),
    ensures
        distinct_strings(r@),
        string_set(r@) == string_set(v@),
        sorted_by(texts_view(r@), text_le_fn()),
{
    let ghost s = texts_view(v@);
    let ghost vv = v@;
    let r = sort_texts(v);
    proof {
        broadcast use vstd::seq_lib::group_to_multiset_ensures;

        let f = text_le_fn();
        lemma_text_le_total_ordering();
        s.lemma_sort_by_ensures(f);
        let t = texts_view(r@);
        assert(t == s.sort_by(f));
        assert forall|x: Seq<char>| #[trigger] t.contains(x) == s.contains(x) by {
            assert(t.to_multiset().count(x) == s.to_multiset().count(x));
        }
        assert forall|x: Seq<char>| #[trigger] string_set(r@).contains(x) == string_set(vv).contains(x) by {
            if string_set(r@).contains(x) {
                let i = choose|i: int| 0 <= i < r@.len() && #[trigger] r@[i]@ == x;
                assert(t[i] == x);
                assert(t.contains(x));
                assert(s.contains(x));
                let j = choose|j: int| 0 <= j < s.len() && s[j] == x;
                assert(vv[j]@ == x);
            }
            if string_set(vv).contains(x) {
                let i = choose|i: int| 0 <= i < vv.len() && #[trigger] vv[i]@ == x;
                assert(s[i] == x);
                assert(s.contains(x));
                assert(t.contains(x));
                let j = choose|j: int| 0 <= j < t.len() && t[j] == x;
                assert(r@[j]@ == x);
            }
        }
        assert(string_set(r@) =~= string_set(vv));
        assert(s.no_duplicates()) by {
            assert forall|i: int, j: int| 0 <= i < s.len() && 0 <= j < s.len() && i != j implies s[i] != s[j] by {
                if i < j {
                    assert(vv[i]@ != vv[j]@);
                } else {
                    assert(vv[j]@ != vv[i]@);
                }
            }
        }
        s.lemma_multiset_has_no_duplicates();
        assert forall|x: Seq<char>| t.to_multiset().contains(x) implies t.to_multiset().count(x) == 1 by {
            assert(s.to_multiset().count(x) == t.to_multiset().count(x));
        }
        t.lemma_multiset_has_no_duplicates_conv();
        assert forall|i: int, j: int| 0 <= i < j < r@.len() implies #[trigger] r@[i]@ != #[trigger] r@[j]@ by {
            assert(t[i] != t[j]);
        }
    }
    r
}

/// `v` ordered by a text key: each item's key no greater than the next's.
pub open spec fn sorted_by_key<T>(v: Seq<T>, key: spec_fn(T) -> Seq<char>) -> bool {
    forall|a: int, b: int| 0 <= a < b < v.len() ==> text_le(key(#[trigger] v[a]), key(#[trigger] v[b]))
}

/// Sorts items by a text key that `key` computes and `k` names.
pub fn sort_by_text_key<T, F: Fn(&T) -> String>(v: Vec<T>, key: F, Ghost(k): Ghost<spec_fn(T) -> Seq<char>>) -> (r: Vec<T>)
    requires
        forall|x: &T| #[trigger] key.requires((x,)),
        forall|x: &T, s: String| key.ensures((x,), s) ==> s@ == k(*x),
    ensures
        r@.to_multiset() == v@.to_multiset(),
        sorted_by_key(r@, k),
{
    broadcast use vstd::seq_lib::group_to_multiset_ensures, vstd::multiset::group_multiset_axioms;
    let ghost orig = v@;
    let mut rest = v;
    let mut out: Vec<T> = Vec::new();
    assert(out@.to_multiset() =~= vstd::multiset::Multiset::<T>::empty()) by {
        assert(out@.to_multiset().len() == 0);
    }
    while rest.len() > 0
        invariant
            forall|x: &T| #[trigger] key.requires((x,)),
            forall|x: &T, s: String| key.ensures((x,), s) ==> s@ == k(*x),
            out@.to_multiset().add(rest@.to_multiset()) == orig.to_multiset(),
            sorted_by_key(out@, k),
        decreases rest@.len(),
    {
        let ghost before_rest = rest@;
        let e = rest.pop().unwrap();
        assert(before_rest =~= rest@.push(e));
        let ke = key(&e);
        let mut pos: usize = 0;
        loop
            invariant
                0 <= pos <= out@.len(),
                ke@ == k(e),
                forall|x: &T| #[trigger] key.requires((x,)),
                forall|x: &T, s: String| key.ensures((x,), s) ==> s@ == k(*x),
                forall|i: int| 0 <= i < pos ==> !text_le(k(e), k(#[trigger] out@[i])),
            ensures
                0 <= pos <= out@.len(),
                forall|i: int| 0 <= i < pos ==> !text_le(k(e), k(#[trigger] out@[i])),
                pos < out@.len() ==> text_le(k(e), k(out@[pos as int])),
            decreases out@.len() - pos,
        {
            if pos >= out.len() {
                break;
            }
            let kp = key(&out[pos]);
            if text_le_exec(ke.as_str(), kp.as_str()) {
                break;
            }
            pos = pos + 1;
        }
        let ghost before = out@;
        out.insert(pos, e);
        proof {
            let s = out@;
            assert(s =~= before.insert(pos as int, e));
            assert forall|a: int, b: int| 0 <= a < b < s.len() implies text_le(
                k(#[trigger] s[a]),
                k(#[trigger] s[b]),
            ) by {
                if b < pos {
                    assert(s[a] == before[a] && s[b] == before[b]);
                } else if b == pos {
                    assert(s[a] == before[a] && s[b] == e);
                    assert(!text_le(k(e), k(before[a])));
                    lemma_text_le_total(k(e), k(before[a]));
                } else if a == pos {
                    assert(s[a] == e && s[b] == before[b - 1]);
                    if b - 1 > pos {
                        assert(text_le(k(before[pos as int]), k(before[b - 1])));
                        lemma_text_le_trans(k(e), k(before[pos as int]), k(before[b - 1]));
                    }
                } else if a < pos {
                    assert(s[a] == before[a] && s[b] == before[b - 1]);
                } else {
                    assert(s[a] == before[a - 1] && s[b] == before[b - 1]);
                }
            }
            vstd::seq_lib::to_multiset_insert(before, pos as int, e);
            vstd::seq_lib::to_multiset_build(rest@, e);
            assert(out@.to_multiset() == before.to_multiset().insert(e));
            assert(before_rest.to_multiset() == rest@.to_multiset().insert(e));
            assert(out@.to_multiset().add(rest@.to_multiset()) =~= before.to_multiset().add(
                before_rest.to_multiset(),
            ));
        }
    }
    assert(rest@.to_multiset() =~= vstd::multiset::Multiset::<T>::empty()) by {
        assert(rest@.to_multiset().len() == 0);
    }
    assert(out@.to_multiset().add(rest@.to_multiset()) =~= out@.to_multiset());
    out
}

} // verus!
