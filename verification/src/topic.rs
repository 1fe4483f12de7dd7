//! Gossip topics: one membership topic that every node joins, and one
//! announcement topic per publisher. A topic is the BLAKE3 hash of a label.

use vstd::prelude::*;
use crate::identity::PublisherId;
use vstd::string::StringSliceAdditionalSpecFns;

verus! {

/// The 32-byte BLAKE3 hash of `data`, named, not written out.
pub uninterp spec fn blake3_digest(data: Seq<u8>) -> Seq<u8>;

/// `blake3::hash(data)`: its bytes are `blake3_digest(data)`.
#[verifier::external_body]
fn blake3_of(data: &[u8]) -> (h: [u8; 32])
    ensures
        h@ == blake3_digest(data@),
{
    *blake3::hash(data).as_bytes()
}

/// The label of the membership topic.
pub open spec fn swarm_label() -> Seq<u8> {
    "ocid/swarm/v1".spec_bytes()
}

/// The label of `publisher`'s announcement topic: a fixed prefix, then the
/// publisher's key bytes.
pub open spec fn publisher_label(publisher: Seq<u8>) -> Seq<u8> {
    "ocid/publisher/v1/".spec_bytes() + publisher
}

/// The global membership topic: it carries no announcements, it only gives
/// nodes neighbours to sync inventories with.
pub fn swarm_topic() -> (t: [u8; 32])
    ensures
        t@ == blake3_digest(swarm_label()),
{
    blake3_of("ocid/swarm/v1".as_bytes())
}

/// The announcement topic of `publisher`.
pub fn publisher_topic(publisher: &PublisherId) -> (t: [u8; 32])
    ensures
        t@ == blake3_digest(publisher_label(publisher@)),
{
    let mut data = vstd::slice::slice_to_vec("ocid/publisher/v1/".as_bytes());
    let key: &[u8] = publisher.as_bytes();
    let mut tail = vstd::slice::slice_to_vec(key);
    data.append(&mut tail);
    blake3_of(data.as_slice())
}

} // verus!
