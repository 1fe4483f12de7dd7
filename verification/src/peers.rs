//! Known peer addresses, used to bootstrap gossip and sync: one entry per
//! endpoint, each with the set of transport addresses it was seen at.

use vstd::prelude::*;
use crate::config::{distinct_keys, insert_key, key_set, sort_keys};
use crate::order::sorted_by_key;
use crate::text::hex_encode;
use crate::identity::PublisherId;
use crate::seqs::{first_where, is_first_where, lemma_first_where, lemma_first_where_is};
use crate::text::{distinct_strings, string_set};

verus! {

/// An endpoint and the transport addresses it can be reached at, each
/// written out as text; no address occurs twice.
#[derive(Debug, Clone)]
pub struct PeerAddr {
    pub id: PublisherId,
    pub addrs: Vec<String>,
}

/// An endpoint's key and its address set.
pub open spec fn peer_view(p: PeerAddr) -> (Seq<u8>, Set<Seq<char>>) {
    (p.id@, string_set(p.addrs@))
}

pub open spec fn peer_views(v: Seq<PeerAddr>) -> Seq<(Seq<u8>, Set<Seq<char>>)> {
    v.map_values(|p: PeerAddr| peer_view(p))
}

/// Is this entry the one of endpoint `id`?
pub open spec fn peer_is(id: Seq<u8>) -> spec_fn((Seq<u8>, Set<Seq<char>>)) -> bool {
    |e: (Seq<u8>, Set<Seq<char>>)| e.0 == id
}

/// The entries after adding `a`: the first entry with `a`'s key is replaced
/// by `a`, and where there is none `a` is appended.
pub open spec fn upserted<T>(v: Seq<T>, keys: Seq<(Seq<u8>, Set<Seq<char>>)>, id: Seq<u8>, a: T) -> Seq<T> {
    match first_where(keys, peer_is(id)) {
        Some(i) => v.update(i, a),
        None => v.push(a),
    }
}

/// `peers.json`: the known peers.
#[derive(Debug, Clone)]
pub struct Peers {
    pub peers: Vec<PeerAddr>,
}

impl Peers {
    /// Every entry's address list holds each address once.
    pub open spec fn wf(&self) -> bool {
        forall|i: int| 0 <= i < self.peers@.len() ==> distinct_strings(#[trigger] self.peers@[i].addrs@)
    }

    /// No peers.
    pub fn new() -> (p: Peers)
        ensures
            p.peers@.len() == 0,
            p.wf(),
    {
        Peers { peers: Vec::new() }
    }

    /// Inserts `addr`, or replaces the entry with the same endpoint key by
    /// it; `true` if the endpoint was new.
    pub fn upsert(&mut self, addr: PeerAddr) -> (new: bool)
        requires
            old(self).wf(),
            distinct_strings(addr.addrs@),
        ensures
            final(self).wf(),
            new == (first_where(peer_views(old(self).peers@), peer_is(addr.id@)) is None),
            final(self).peers@ == upserted(
                old(self).peers@,
                peer_views(old(self).peers@),
                addr.id@,
                addr,
            ),
    {
        let ghost ev = peer_views(self.peers@);
        let ghost pred = peer_is(addr.id@);
        let mut i: usize = 0;
        while i < self.peers.len()
            invariant
                0 <= i <= self.peers@.len(),
                *self == *old(self),
                self.wf(),
                distinct_strings(addr.addrs@),
                ev == peer_views(self.peers@),
                pred == peer_is(addr.id@),
                forall|j: int| 0 <= j < i ==> !pred(#[trigger] ev[j]),
            decreases self.peers@.len() - i,
        {
            assert(ev[i as int] == peer_view(self.peers@[i as int]));
            if self.peers[i].id == addr.id {
                proof {
                    lemma_first_where_is(ev, pred, Some(i as int));
                }
                let ghost before = self.peers@;
                self.peers.set(i, addr);
                proof {
                    assert(self.peers@ =~= before.update(i as int, addr));
                    assert forall|j: int| 0 <= j < self.peers@.len() implies distinct_strings(
                        #[trigger] self.peers@[j].addrs@,
                    ) by {
                        if j != i {
                            assert(self.peers@[j] == before[j]);
                        }
                    }
                }
                return false;
            }
            i = i + 1;
        }
        proof {
            lemma_first_where_is(ev, pred, None);
        }
        let ghost before = self.peers@;
        self.peers.push(addr);
        proof {
            assert(self.peers@ =~= before.push(addr));
            assert forall|j: int| 0 <= j < self.peers@.len() implies distinct_strings(
                #[trigger] self.peers@[j].addrs@,
            ) by {
                if j < before.len() {
                    assert(self.peers@[j] == before[j]);
                }
            }
        }
        true
    }
}

/// The endpoint keys of the entries.
pub open spec fn peer_ids(v: Seq<PeerAddr>) -> Set<Seq<u8>> {
    Set::new(|k: Seq<u8>| exists|i: int| 0 <= i < v.len() && #[trigger] v[i].id@ == k)
}

/// Peers to bootstrap a gossip topic from: the current neighbours and every
/// remembered peer, each once and in key order, without this node itself.
pub fn bootstrap_ids(neighbors: &[PublisherId], peers: &Peers, me: &PublisherId) -> (r: Vec<
    PublisherId,
>)
    ensures
        distinct_keys(r@),
        key_set(r@) == (key_set(neighbors@) + peer_ids(peers.peers@)).remove(me@),
        sorted_by_key(r@, |p: PublisherId| hex_encode(p@)),
{
    let mut out: Vec<PublisherId> = Vec::new();
    let ghost all = key_set(neighbors@) + peer_ids(peers.peers@);
    assert(key_set(out@) =~= Set::<Seq<u8>>::empty());
    let mut i: usize = 0;
    while i < neighbors.len()
        invariant
            0 <= i <= neighbors@.len(),
            distinct_keys(out@),
            forall|k: Seq<u8>| #[trigger] key_set(out@).contains(k) <==> k != me@ && exists|j: int|
                0 <= j < i && #[trigger] neighbors@[j]@ == k,
        decreases neighbors@.len() - i,
    {
        if neighbors[i] != *me {
            insert_key(&mut out, neighbors[i]);
        }
        proof {
            assert forall|k: Seq<u8>| #[trigger] key_set(out@).contains(k) <==> k != me@ && exists|j: int|
                0 <= j < i + 1 && #[trigger] neighbors@[j]@ == k by {
                if k == neighbors@[i as int]@ && k != me@ {
                    assert(neighbors@[i as int]@ == k);
                }
            }
        }
        i = i + 1;
    }
    let mut m: usize = 0;
    while m < peers.peers.len()
        invariant
            0 <= m <= peers.peers@.len(),
            distinct_keys(out@),
            forall|k: Seq<u8>| #[trigger] key_set(out@).contains(k) <==> k != me@ && ((exists|j: int|
                0 <= j < neighbors@.len() && #[trigger] neighbors@[j]@ == k) || exists|j: int|
                0 <= j < m && #[trigger] peers.peers@[j].id@ == k),
        decreases peers.peers@.len() - m,
    {
        if peers.peers[m].id != *me {
            insert_key(&mut out, peers.peers[m].id);
        }
        proof {
            assert forall|k: Seq<u8>| #[trigger] key_set(out@).contains(k) <==> k != me@ && ((exists|j: int|
                0 <= j < neighbors@.len() && #[trigger] neighbors@[j]@ == k) || exists|j: int|
                0 <= j < m + 1 && #[trigger] peers.peers@[j].id@ == k) by {
                if k == peers.peers@[m as int].id@ && k != me@ {
                    assert(peers.peers@[m as int].id@ == k);
                }
            }
        }
        m = m + 1;
    }
    assert(key_set(out@) =~= all.remove(me@));
    sort_keys(out)
}

/// Adding the same endpoint twice: the second time it is known, and the
/// entries stay as the first addition left them.
pub proof fn lemma_upsert_twice(v: Seq<PeerAddr>, a: PeerAddr)
    ensures
        first_where(peer_views(upserted(v, peer_views(v), a.id@, a)), peer_is(a.id@)) is Some,
        upserted(
            upserted(v, peer_views(v), a.id@, a),
            peer_views(upserted(v, peer_views(v), a.id@, a)),
            a.id@,
            a,
        ) == upserted(v, peer_views(v), a.id@, a),
{
    let pred = peer_is(a.id@);
    let ks = peer_views(v);
    let w = upserted(v, ks, a.id@, a);
    let kw = peer_views(w);
    lemma_first_where(ks, pred);
    match first_where(ks, pred) {
        Some(i) => {
            assert forall|j: int| 0 <= j < i implies !pred(#[trigger] kw[j]) by {
                assert(w[j] == v[j]);
                assert(kw[j] == ks[j]);
                assert(!pred(ks[j]));
            }
            assert(kw[i] == peer_view(a));
            assert(is_first_where(kw, pred, Some(i)));
            lemma_first_where_is(kw, pred, Some(i));
            assert(w.update(i, a) =~= w);
        },
        None => {
            let n = v.len() as int;
            assert forall|j: int| 0 <= j < n implies !pred(#[trigger] kw[j]) by {
                assert(w[j] == v[j]);
                assert(kw[j] == ks[j]);
                assert(!pred(ks[j]));
            }
            assert(kw[n] == peer_view(a));
            assert(is_first_where(kw, pred, Some(n)));
            lemma_first_where_is(kw, pred, Some(n));
            assert(w.update(n, a) =~= w);
        },
    }
}

} // verus!
