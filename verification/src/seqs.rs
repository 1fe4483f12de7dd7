//! Two sequence operations the policy edits are stated with: keeping the
//! elements that satisfy a predicate (std's `retain`) and finding the first
//! element that does (std's `iter().position`).

use vstd::prelude::*;

verus! {

/// The elements of `s` that satisfy `keep`, in order.
pub open spec fn kept<T>(s: Seq<T>, keep: spec_fn(T) -> bool) -> Seq<T>
    decreases s.len(),
{
    if s.len() == 0 {
        Seq::empty()
    } else if keep(s.last()) {
        kept(s.drop_last(), keep).push(s.last())
    } else {
        kept(s.drop_last(), keep)
    }
}

/// The index of the first element of `s` that satisfies `pred`.
pub open spec fn first_where<T>(s: Seq<T>, pred: spec_fn(T) -> bool) -> Option<int>
    decreases s.len(),
{
    if s.len() == 0 {
        None
    } else if pred(s[0]) {
        Some(0)
    } else {
        match first_where(s.drop_first(), pred) {
            Some(i) => Some(i + 1),
            None => None,
        }
    }
}

/// What `first_where` returns, characterised by its properties.
pub open spec fn is_first_where<T>(s: Seq<T>, pred: spec_fn(T) -> bool, r: Option<int>) -> bool {
    match r {
        Some(i) => 0 <= i < s.len() && pred(s[i]) && forall|j: int|
            0 <= j < i ==> !pred(#[trigger] s[j]),
        None => forall|j: int| 0 <= j < s.len() ==> !pred(#[trigger] s[j]),
    }
}

pub proof fn lemma_first_where<T>(s: Seq<T>, pred: spec_fn(T) -> bool)
    ensures
        is_first_where(s, pred, first_where(s, pred)),
    decreases s.len(),
{
    if s.len() > 0 && !pred(s[0]) {
        let t = s.drop_first();
        lemma_first_where(t, pred);
        match first_where(t, pred) {
            Some(i) => {
                assert forall|j: int| 0 <= j < i + 1 implies !pred(#[trigger] s[j]) by {
                    if j > 0 {
                        assert(s[j] == t[j - 1]);
                    }
                }
            },
            None => {
                assert forall|j: int| 0 <= j < s.len() implies !pred(#[trigger] s[j]) by {
                    if j > 0 {
                        assert(s[j] == t[j - 1]);
                    }
                }
            },
        }
    }
}

/// The characterisation determines `first_where`.
pub proof fn lemma_first_where_is<T>(s: Seq<T>, pred: spec_fn(T) -> bool, r: Option<int>)
    requires
        is_first_where(s, pred, r),
    ensures
        first_where(s, pred) == r,
{
    lemma_first_where(s, pred);
    let f = first_where(s, pred);
    match (f, r) {
        (Some(a), Some(b)) => {
            if a < b {
                assert(!pred(s[a]));
            } else if b < a {
                assert(!pred(s[b]));
            }
        },
        (Some(a), None) => {
            assert(!pred(s[a]));
        },
        (None, Some(b)) => {
            assert(!pred(s[b]));
        },
        (None, None) => {},
    }
}

/// Elements that fail the predicate are exactly the ones dropped.
pub proof fn lemma_kept_all<T>(s: Seq<T>, keep: spec_fn(T) -> bool)
    ensures
        forall|i: int| 0 <= i < kept(s, keep).len() ==> keep(#[trigger] kept(s, keep)[i]),
        kept(s, keep).len() <= s.len(),
        kept(s, keep).len() == s.len() <==> forall|i: int| 0 <= i < s.len() ==> keep(#[trigger] s[i]),
    decreases s.len(),
{
    if s.len() > 0 {
        let t = s.drop_last();
        lemma_kept_all(t, keep);
        if keep(s.last()) {
            assert forall|i: int| 0 <= i < kept(s, keep).len() implies keep(
                #[trigger] kept(s, keep)[i],
            ) by {
                if i < kept(t, keep).len() {
                    assert(kept(s, keep)[i] == kept(t, keep)[i]);
                }
            }
            if kept(s, keep).len() == s.len() {
                assert forall|i: int| 0 <= i < s.len() implies keep(#[trigger] s[i]) by {
                    if i < s.len() - 1 {
                        assert(s[i] == t[i]);
                    }
                }
            }
            if forall|i: int| 0 <= i < s.len() ==> keep(#[trigger] s[i]) {
                assert forall|i: int| 0 <= i < t.len() implies keep(#[trigger] t[i]) by {
                    assert(s[i] == t[i]);
                }
            }
        } else {
            assert(!keep(s[s.len() - 1]));
        }
    }
}

} // verus!
