//! Signed release records, the unit of publication.
//!
//! A release binds `(publisher, name, tag)` to a manifest digest and carries
//! the sha256 -> BLAKE3 mapping of every blob the manifest (transitively)
//! references. The signature covers the compact JSON text of the payload.

use vstd::prelude::*;
use vstd::utf8::encode_utf8;
use crate::error::Error;
use crate::hash::Blake3;
use crate::identity::{
    ed25519_public, ed25519_signature, ed25519_verifies, slice_u8, verify, Identity, PublisherId,
};
use crate::json::{json_string, push_json_key, push_json_string};
use crate::oci::{reference_text, valid_name, valid_tag, validate_name, validate_tag, Digest, ImageRef};
use crate::order::{lemma_text_le_refl, text_le, text_le_exec};
use crate::text::{
    chars_of, dec, hex_bytes, hex_decode, hex_encode, hex_string, lemma_hex_roundtrip, push_chars,
    push_dec, push_str, str_eq, string_of,
};

verus! {

/// The format version of release records.
pub const RELEASE_VERSION: u8 = 1;

/// A content blob addressed both ways.
#[derive(Debug)]
pub struct BlobRef {
    pub digest: Digest,
    pub hash: Blake3,
    pub size: u64,
    pub media_type: Option<String>,
}

/// A copy of an optional string.
pub fn copy_opt(o: &Option<String>) -> (r: Option<String>)
    ensures
        r == *o,
{
    match o {
        Some(s) => Some(s.clone()),
        None => None,
    }
}

impl Clone for BlobRef {
    fn clone(&self) -> (r: Self)
        ensures
            r == *self,
    {
        BlobRef {
            digest: self.digest.clone(),
            hash: self.hash,
            size: self.size,
            media_type: copy_opt(&self.media_type),
        }
    }
}

/// A manifest that refers to this release's manifest via `subject`
/// (signature, attestation, SBOM, ...). Its blobs are part of `blobs`.
/// The annotations are a map: its JSON lists each key once, in key order,
/// with the value of the key's last pair.
#[derive(Debug)]
pub struct Referrer {
    pub digest: Digest,
    pub media_type: String,
    pub size: u64,
    pub artifact_type: Option<String>,
    pub annotations: Vec<(String, String)>,
}

/// A copy of string pairs.
pub fn copy_pairs(v: &Vec<(String, String)>) -> (r: Vec<(String, String)>)
    ensures
        r@ == v@,
{
    let mut out: Vec<(String, String)> = Vec::new();
    let mut i: usize = 0;
    while i < v.len()
        invariant
            0 <= i <= v@.len(),
            out@ == v@.take(i as int),
        decreases v@.len() - i,
    {
        let k = v[i].0.clone();
        let x = v[i].1.clone();
        out.push((k, x));
        assert(out@ =~= v@.take(i + 1));
        i = i + 1;
    }
    assert(v@.take(v@.len() as int) =~= v@);
    out
}

impl Clone for Referrer {
    fn clone(&self) -> (r: Self)
        ensures
            r.digest == self.digest,
            r.media_type == self.media_type,
            r.size == self.size,
            r.artifact_type == self.artifact_type,
            r.annotations@ == self.annotations@,
    {
        let annotations = copy_pairs(&self.annotations);
        Referrer {
            digest: self.digest.clone(),
            media_type: self.media_type.clone(),
            size: self.size,
            artifact_type: copy_opt(&self.artifact_type),
            annotations,
        }
    }
}

/// What a release says.
#[derive(Debug)]
pub struct ReleasePayload {
    pub version: u8,
    pub publisher: PublisherId,
    pub name: String,
    pub tag: String,
    /// The tagged manifest (image manifest or index).
    pub manifest: BlobRef,
    /// Everything the manifest references, transitively, plus the blobs of
    /// attached referrers.
    pub blobs: Vec<BlobRef>,
    /// Unix seconds. Newer releases for the same (publisher, name, tag) win.
    pub timestamp: u64,
    /// Manifests attached through the referrers API; left out of the JSON
    /// text when there are none.
    pub referrers: Vec<Referrer>,
}

/// A signed release.
#[derive(Debug)]
pub struct Release {
    pub payload: ReleasePayload,
    /// Ed25519 signature (hex) by `payload.publisher` over the JSON text of
    /// `payload`.
    pub signature: String,
}

// ---------------------------------------------------------------------------
// the JSON text that is signed
// ---------------------------------------------------------------------------

/// `"key":`
pub open spec fn json_key(k: Seq<char>) -> Seq<char> {
    json_string(k) + seq![':']
}

/// `,"key":"value"` for a present optional field, nothing for an absent one.
pub open spec fn opt_member(key: Seq<char>, o: Option<String>) -> Seq<char> {
    match o {
        Some(m) => seq![','] + json_key(key) + json_string(m@),
        None => Seq::empty(),
    }
}

pub open spec fn blob_json(b: BlobRef) -> Seq<char> {
    seq!['{'] + json_key("digest"@) + json_string(b.digest@) + seq![','] + json_key("hash"@)
        + json_string(hex_encode(b.hash@)) + seq![','] + json_key("size"@) + dec(b.size as nat)
        + opt_member("media_type"@, b.media_type) + seq!['}']
}

pub open spec fn blob_items(v: Seq<BlobRef>) -> Seq<char>
    decreases v.len(),
{
    if v.len() == 0 {
        Seq::empty()
    } else if v.len() == 1 {
        blob_json(v[0])
    } else {
        blob_items(v.drop_last()) + seq![','] + blob_json(v.last())
    }
}

/// The text views of string pairs.
pub open spec fn pair_views(v: Seq<(String, String)>) -> Seq<(Seq<char>, Seq<char>)> {
    Seq::new(v.len(), |i: int| (v[i].0@, v[i].1@))
}

/// `s`, a key-ordered list, after setting key `k` to `x`: the pair with
/// key `k` is replaced, or the new pair goes before the first greater key.
pub open spec fn put_pair(s: Seq<(Seq<char>, Seq<char>)>, k: Seq<char>, x: Seq<char>) -> Seq<
    (Seq<char>, Seq<char>),
>
    decreases s.len(),
{
    if s.len() == 0 {
        seq![(k, x)]
    } else if s[0].0 == k {
        s.update(0, (k, x))
    } else if text_le(k, s[0].0) {
        seq![(k, x)] + s
    } else {
        seq![s[0]] + put_pair(s.drop_first(), k, x)
    }
}

/// The map the pairs `v` make, set one after another (a later pair wins),
/// listed in key order: how a `BTreeMap<String, String>` holds them.
pub open spec fn key_ordered(v: Seq<(Seq<char>, Seq<char>)>) -> Seq<(Seq<char>, Seq<char>)>
    decreases v.len(),
{
    if v.len() == 0 {
        Seq::empty()
    } else {
        put_pair(key_ordered(v.drop_last()), v.last().0, v.last().1)
    }
}

pub open spec fn annotation_items(v: Seq<(Seq<char>, Seq<char>)>) -> Seq<char>
    decreases v.len(),
{
    if v.len() == 0 {
        Seq::empty()
    } else if v.len() == 1 {
        json_key(v[0].0) + json_string(v[0].1)
    } else {
        annotation_items(v.drop_last()) + seq![','] + json_key(v.last().0) + json_string(
            v.last().1,
        )
    }
}

pub open spec fn referrer_json(r: Referrer) -> Seq<char> {
    seq!['{'] + json_key("digest"@) + json_string(r.digest@) + seq![','] + json_key(
        "media_type"@,
    ) + json_string(r.media_type@) + seq![','] + json_key("size"@) + dec(r.size as nat)
        + opt_member("artifact_type"@, r.artifact_type) + if r.annotations@.len() > 0 {
        seq![','] + json_key("annotations"@) + seq!['{'] + annotation_items(
            key_ordered(pair_views(r.annotations@)),
        ) + seq!['}']
    } else {
        Seq::empty()
    } + seq!['}']
}

pub open spec fn referrer_items(v: Seq<Referrer>) -> Seq<char>
    decreases v.len(),
{
    if v.len() == 0 {
        Seq::empty()
    } else if v.len() == 1 {
        referrer_json(v[0])
    } else {
        referrer_items(v.drop_last()) + seq![','] + referrer_json(v.last())
    }
}

/// The first fields of a payload's JSON text: `{"version":..,"publisher":..,"name":..,"tag":..`.
pub open spec fn payload_head(p: ReleasePayload) -> Seq<char> {
    seq!['{'] + json_key("version"@) + dec(p.version as nat) + seq![','] + json_key(
        "publisher"@,
    ) + json_string(hex_encode(p.publisher@)) + seq![','] + json_key("name"@) + json_string(
        p.name@,
    ) + seq![','] + json_key("tag"@) + json_string(p.tag@)
}

/// The remaining fields: `,"manifest":..,"blobs":[..],"timestamp":..[,"referrers":[..]]}`.
pub open spec fn payload_tail(p: ReleasePayload) -> Seq<char> {
    seq![','] + json_key("manifest"@) + blob_json(p.manifest) + seq![','] + json_key("blobs"@)
        + seq!['['] + blob_items(p.blobs@) + seq![']'] + seq![','] + json_key("timestamp"@) + dec(
        p.timestamp as nat,
    ) + if p.referrers@.len() > 0 {
        seq![','] + json_key("referrers"@) + seq!['['] + referrer_items(p.referrers@) + seq![']']
    } else {
        Seq::empty()
    } + seq!['}']
}

/// The compact JSON text of a payload, fields in declaration order,
/// `referrers` left out when empty.
#[verifier::opaque]
pub open spec fn payload_json(p: ReleasePayload) -> Seq<char> {
    payload_head(p) + payload_tail(p)
}

/// The bytes a release signature covers.
pub open spec fn payload_bytes(p: ReleasePayload) -> Seq<u8> {
    encode_utf8(payload_json(p))
}

#[verifier::rlimit(40)]
fn push_blob_json(out: &mut Vec<char>, b: &BlobRef)
    ensures
        final(out)@ == old(out)@ + blob_json(*b),
{
    let ghost start = out@;
    let ghost mt = opt_member("media_type"@, b.media_type);
    let ghost p1 = seq!['{'] + json_key("digest"@) + json_string(b.digest@);
    let ghost p2 = p1 + seq![','] + json_key("hash"@) + json_string(hex_encode(b.hash@));
    let ghost p3 = p2 + seq![','] + json_key("size"@) + dec(b.size as nat);
    out.push('{');
    push_json_key(out, "digest");
    push_json_string(out, b.digest.as_str());
    assert(out@ =~= start + p1);
    out.push(',');
    push_json_key(out, "hash");
    let h = b.hash.to_hex();
    push_json_string(out, h.as_str());
    assert(out@ =~= start + p2);
    out.push(',');
    push_json_key(out, "size");
    push_dec(out, b.size);
    assert(out@ =~= start + p3);
    match &b.media_type {
        Some(m) => {
            out.push(',');
            push_json_key(out, "media_type");
            push_json_string(out, m.as_str());
        },
        None => {},
    }
    assert(out@ =~= start + (p3 + mt));
    out.push('}');
    assert(blob_json(*b) == p3 + mt + seq!['}']);
    assert(out@ =~= start + blob_json(*b));
}

fn push_blob_items(out: &mut Vec<char>, v: &Vec<BlobRef>)
    ensures
        final(out)@ == old(out)@ + blob_items(v@),
{
    let ghost start = out@;
    let mut i: usize = 0;
    assert(v@.take(0) =~= Seq::<BlobRef>::empty());
    while i < v.len()
        invariant
            0 <= i <= v@.len(),
            out@ == start + blob_items(v@.take(i as int)),
        decreases v@.len() - i,
    {
        let ghost pre = v@.take(i as int);
        let ghost post = v@.take(i + 1);
        assert(post.drop_last() =~= pre);
        assert(post.last() == v@[i as int]);
        if i > 0 {
            out.push(',');
        }
        push_blob_json(out, &v[i]);
        if i == 0 {
            assert(post =~= seq![v@[0]]);
        }
        assert(out@ =~= start + blob_items(post));
        i = i + 1;
    }
    assert(v@.take(v@.len() as int) =~= v@);
}

/// Whether the characters `k` come before every key of `s` from `pos` on:
/// the place where `put_pair` puts `k`.
proof fn lemma_put_pair_at(s: Seq<(Seq<char>, Seq<char>)>, k: Seq<char>, x: Seq<char>, pos: int)
    requires
        0 <= pos <= s.len(),
        forall|j: int| 0 <= j < pos ==> !text_le(k, #[trigger] s[j].0),
        pos < s.len() ==> text_le(k, s[pos].0),
    ensures
        put_pair(s, k, x) == if pos < s.len() && s[pos].0 == k {
            s.update(pos, (k, x))
        } else {
            s.insert(pos, (k, x))
        },
    decreases pos,
{
    if pos == 0 {
        if s.len() == 0 {
            assert(s.insert(0, (k, x)) =~= seq![(k, x)]);
        } else if s[0].0 != k {
            assert(s.insert(0, (k, x)) =~= seq![(k, x)] + s);
        }
    } else {
        lemma_text_le_refl(k);
        assert(s[0].0 != k);
        let t = s.drop_first();
        assert forall|j: int| 0 <= j < pos - 1 implies !text_le(k, #[trigger] t[j].0) by {
            assert(t[j] == s[j + 1]);
        }
        if pos < s.len() {
            assert(t[pos - 1] == s[pos]);
        }
        lemma_put_pair_at(t, k, x, pos - 1);
        if pos < s.len() && s[pos].0 == k {
            assert(seq![s[0]] + t.update(pos - 1, (k, x)) =~= s.update(pos, (k, x)));
        } else {
            assert(seq![s[0]] + t.insert(pos - 1, (k, x)) =~= s.insert(pos, (k, x)));
        }
    }
}

/// Sets key `k` to `x` in the key-ordered pairs `out`.
fn put_pair_exec(out: &mut Vec<(String, String)>, k: &String, x: &String)
    ensures
        pair_views(final(out)@) == put_pair(pair_views(old(out)@), k@, x@),
{
    let ghost s = pair_views(out@);
    let mut pos: usize = 0;
    loop
        invariant
            0 <= pos <= out@.len(),
            s == pair_views(out@),
            forall|j: int| 0 <= j < pos ==> !text_le(k@, #[trigger] s[j].0),
        ensures
            0 <= pos <= out@.len(),
            s == pair_views(out@),
            forall|j: int| 0 <= j < pos ==> !text_le(k@, #[trigger] s[j].0),
            pos < out@.len() ==> text_le(k@, s[pos as int].0),
        decreases out@.len() - pos,
    {
        if pos >= out.len() {
            break;
        }
        assert(s[pos as int].0 == out@[pos as int].0@);
        if text_le_exec(k.as_str(), out[pos].0.as_str()) {
            break;
        }
        pos = pos + 1;
    }
    proof {
        lemma_put_pair_at(s, k@, x@, pos as int);
    }
    if pos < out.len() && str_eq(out[pos].0.as_str(), k.as_str()) {
        out.set(pos, (k.clone(), x.clone()));
        assert(pair_views(out@) =~= s.update(pos as int, (k@, x@)));
    } else {
        out.insert(pos, (k.clone(), x.clone()));
        assert(pair_views(out@) =~= s.insert(pos as int, (k@, x@)));
    }
}

/// The pairs `v` as the map they make, in key order.
fn key_ordered_pairs(v: &Vec<(String, String)>) -> (r: Vec<(String, String)>)
    ensures
        pair_views(r@) == key_ordered(pair_views(v@)),
{
    let mut out: Vec<(String, String)> = Vec::new();
    let mut i: usize = 0;
    assert(pair_views(v@).take(0) =~= Seq::<(Seq<char>, Seq<char>)>::empty());
    assert(pair_views(out@) =~= Seq::<(Seq<char>, Seq<char>)>::empty());
    while i < v.len()
        invariant
            0 <= i <= v@.len(),
            pair_views(out@) == key_ordered(pair_views(v@).take(i as int)),
        decreases v@.len() - i,
    {
        put_pair_exec(&mut out, &v[i].0, &v[i].1);
        assert(pair_views(v@).take(i + 1).drop_last() =~= pair_views(v@).take(i as int));
        i = i + 1;
    }
    assert(pair_views(v@).take(v@.len() as int) =~= pair_views(v@));
    out
}

fn push_annotation_items(out: &mut Vec<char>, v: &Vec<(String, String)>)
    ensures
        final(out)@ == old(out)@ + annotation_items(pair_views(v@)),
{
    let ghost start = out@;
    let ghost pv = pair_views(v@);
    let mut i: usize = 0;
    assert(pv.take(0) =~= Seq::<(Seq<char>, Seq<char>)>::empty());
    while i < v.len()
        invariant
            0 <= i <= v@.len(),
            pv == pair_views(v@),
            out@ == start + annotation_items(pv.take(i as int)),
        decreases v@.len() - i,
    {
        let ghost pre = pv.take(i as int);
        let ghost post = pv.take(i + 1);
        assert(post.drop_last() =~= pre);
        assert(post.last() == pv[i as int]);
        if i > 0 {
            out.push(',');
        }
        push_json_key(out, v[i].0.as_str());
        push_json_string(out, v[i].1.as_str());
        if i == 0 {
            assert(post =~= seq![pv[0]]);
        }
        assert(out@ =~= start + annotation_items(post));
        i = i + 1;
    }
    assert(pv.take(v@.len() as int) =~= pv);
}

#[verifier::rlimit(40)]
fn push_referrer_json(out: &mut Vec<char>, r: &Referrer)
    ensures
        final(out)@ == old(out)@ + referrer_json(*r),
{
    let ghost start = out@;
    let ghost at = opt_member("artifact_type"@, r.artifact_type);
    let ghost an = if r.annotations@.len() > 0 {
        seq![','] + json_key("annotations"@) + seq!['{'] + annotation_items(
            key_ordered(pair_views(r.annotations@)),
        ) + seq!['}']
    } else {
        Seq::<char>::empty()
    };
    let ghost p1 = seq!['{'] + json_key("digest"@) + json_string(r.digest@);
    let ghost p2 = p1 + seq![','] + json_key("media_type"@) + json_string(r.media_type@);
    let ghost p3 = p2 + seq![','] + json_key("size"@) + dec(r.size as nat);
    out.push('{');
    push_json_key(out, "digest");
    push_json_string(out, r.digest.as_str());
    assert(out@ =~= start + p1);
    out.push(',');
    push_json_key(out, "media_type");
    push_json_string(out, r.media_type.as_str());
    assert(out@ =~= start + p2);
    out.push(',');
    push_json_key(out, "size");
    push_dec(out, r.size);
    assert(out@ =~= start + p3);
    match &r.artifact_type {
        Some(t) => {
            out.push(',');
            push_json_key(out, "artifact_type");
            push_json_string(out, t.as_str());
        },
        None => {},
    }
    assert(out@ =~= start + (p3 + at));
    if r.annotations.len() > 0 {
        out.push(',');
        push_json_key(out, "annotations");
        out.push('{');
        let ordered = key_ordered_pairs(&r.annotations);
        push_annotation_items(out, &ordered);
        out.push('}');
    }
    assert(out@ =~= start + (p3 + at + an));
    out.push('}');
    assert(referrer_json(*r) == p3 + at + an + seq!['}']);
    assert(out@ =~= start + referrer_json(*r));
}

fn push_referrer_items(out: &mut Vec<char>, v: &Vec<Referrer>)
    ensures
        final(out)@ == old(out)@ + referrer_items(v@),
{
    let ghost start = out@;
    let mut i: usize = 0;
    assert(v@.take(0) =~= Seq::<Referrer>::empty());
    while i < v.len()
        invariant
            0 <= i <= v@.len(),
            out@ == start + referrer_items(v@.take(i as int)),
        decreases v@.len() - i,
    {
        let ghost pre = v@.take(i as int);
        let ghost post = v@.take(i + 1);
        assert(post.drop_last() =~= pre);
        assert(post.last() == v@[i as int]);
        if i > 0 {
            out.push(',');
        }
        push_referrer_json(out, &v[i]);
        if i == 0 {
            assert(post =~= seq![v@[0]]);
        }
        assert(out@ =~= start + referrer_items(post));
        i = i + 1;
    }
    assert(v@.take(v@.len() as int) =~= v@);
}

#[verifier::rlimit(40)]
fn push_payload_head(out: &mut Vec<char>, p: &ReleasePayload)
    ensures
        final(out)@ == old(out)@ + payload_head(*p),
{
    let ghost start = out@;
    let ghost p1 = seq!['{'] + json_key("version"@) + dec(p.version as nat);
    let ghost p2 = p1 + seq![','] + json_key("publisher"@) + json_string(hex_encode(p.publisher@));
    let ghost p3 = p2 + seq![','] + json_key("name"@) + json_string(p.name@);
    out.push('{');
    push_json_key(out, "version");
    push_dec(out, p.version as u64);
    assert(out@ =~= start + p1);
    out.push(',');
    push_json_key(out, "publisher");
    let pk = p.publisher.to_string();
    push_json_string(out, pk.as_str());
    assert(out@ =~= start + p2);
    out.push(',');
    push_json_key(out, "name");
    push_json_string(out, p.name.as_str());
    assert(out@ =~= start + p3);
    out.push(',');
    push_json_key(out, "tag");
    push_json_string(out, p.tag.as_str());
    assert(out@ =~= start + payload_head(*p));
}

/// `,"manifest":<blob>,"blobs":[<blobs>]`
pub open spec fn payload_blobs(p: ReleasePayload) -> Seq<char> {
    seq![','] + json_key("manifest"@) + blob_json(p.manifest) + seq![','] + json_key("blobs"@)
        + seq!['['] + blob_items(p.blobs@) + seq![']']
}

#[verifier::rlimit(40)]
fn push_payload_blobs(out: &mut Vec<char>, p: &ReleasePayload)
    ensures
        final(out)@ == old(out)@ + payload_blobs(*p),
{
    let ghost start = out@;
    let ghost p5 = seq![','] + json_key("manifest"@) + blob_json(p.manifest);
    out.push(',');
    push_json_key(out, "manifest");
    push_blob_json(out, &p.manifest);
    assert(out@ =~= start + p5);
    out.push(',');
    push_json_key(out, "blobs");
    out.push('[');
    push_blob_items(out, &p.blobs);
    out.push(']');
    assert(out@ =~= start + payload_blobs(*p));
}

#[verifier::rlimit(40)]
fn push_payload_tail(out: &mut Vec<char>, p: &ReleasePayload)
    ensures
        final(out)@ == old(out)@ + payload_tail(*p),
{
    let ghost start = out@;
    let ghost rf = if p.referrers@.len() > 0 {
        seq![','] + json_key("referrers"@) + seq!['['] + referrer_items(p.referrers@) + seq![']']
    } else {
        Seq::<char>::empty()
    };
    let ghost p6 = payload_blobs(*p);
    let ghost p7 = p6 + seq![','] + json_key("timestamp"@) + dec(p.timestamp as nat);
    push_payload_blobs(out, p);
    assert(out@ =~= start + p6);
    out.push(',');
    push_json_key(out, "timestamp");
    push_dec(out, p.timestamp);
    assert(out@ =~= start + p7);
    if p.referrers.len() > 0 {
        out.push(',');
        push_json_key(out, "referrers");
        out.push('[');
        push_referrer_items(out, &p.referrers);
        out.push(']');
    }
    assert(out@ =~= start + (p7 + rf));
    out.push('}');
    assert(payload_tail(*p) == p7 + rf + seq!['}']);
    assert(out@ =~= start + payload_tail(*p));
}

fn push_payload_json(out: &mut Vec<char>, p: &ReleasePayload)
    ensures
        final(out)@ == old(out)@ + payload_json(*p),
{
    let ghost start = out@;
    push_payload_head(out, p);
    push_payload_tail(out, p);
    reveal(payload_json);
    assert(out@ =~= start + payload_json(*p));
}

impl ReleasePayload {
    /// The compact JSON bytes of the payload: what the signature covers.
    pub fn canonical_bytes(&self) -> (r: Result<Vec<u8>, Error>)
        ensures
            r is Ok,
            r->Ok_0@ == payload_bytes(*self),
    {
        let mut v: Vec<char> = Vec::new();
        push_payload_json(&mut v, self);
        assert(v@ =~= payload_json(*self));
        let s = string_of(&v);
        let b = s.as_str().as_bytes();
        Ok(slice_u8(b, 0, b.len()))
    }
}


// ---------------------------------------------------------------------------
// signing and checking
// ---------------------------------------------------------------------------

/// What `Release::verify` concludes: the format version, the name and tag,
/// the signature's hex and length, and the signature over the payload's JSON
/// bytes by the payload's publisher, checked in that order.
pub open spec fn release_check(r: Release) -> Result<(), Error> {
    if r.payload.version != RELEASE_VERSION {
        Err(Error::ReleaseVersion)
    } else if !valid_name(r.payload.name@) {
        Err(Error::InvalidName)
    } else if !valid_tag(r.payload.tag@) {
        Err(Error::InvalidTag)
    } else {
        match hex_decode(r.signature@) {
            None => Err(Error::SignatureNotHex),
            Some(b) => if b.len() != 64 {
                Err(Error::SignatureLength)
            } else if ed25519_verifies(r.payload.publisher@, payload_bytes(r.payload), b) {
                Ok(())
            } else {
                Err(Error::BadSignature)
            },
        }
    }
}

/// The total size of blobs.
pub open spec fn sizes_total(v: Seq<BlobRef>) -> nat
    decreases v.len(),
{
    if v.len() == 0 {
        0
    } else {
        sizes_total(v.drop_last()) + v.last().size as nat
    }
}

/// The current time in Unix seconds (`SystemTime::now` since `UNIX_EPOCH`,
/// 0 if the clock is before the epoch). Nothing is promised of the value.
#[verifier::external_body]
pub fn now() -> (t: u64) {
    std::time::SystemTime::now().duration_since(std::time::UNIX_EPOCH).map(|d| d.as_secs()).unwrap_or(
        0,
    )
}

fn to_array64(v: &[u8]) -> (a: [u8; 64])
    requires
        v@.len() == 64,
    ensures
        a@ == v@,
{
    let mut a: [u8; 64] = [0u8; 64];
    let mut i: usize = 0;
    while i < 64
        invariant
            0 <= i <= 64,
            v@.len() == 64,
            a@.len() == 64,
            forall|j: int| 0 <= j < i ==> a@[j] == v@[j],
        decreases 64 - i,
    {
        a[i] = v[i];
        i = i + 1;
    }
    assert(a@ =~= v@);
    a
}

impl Release {
    /// Signs `payload` as `identity` at time `now`: the version becomes
    /// current, the publisher becomes the identity's key, and a zero timestamp
    /// becomes `now`. A release with a valid name and tag then verifies.
    pub fn sign_at(identity: &Identity, payload: ReleasePayload, now: u64) -> (r: Result<
        Release,
        Error,
    >)
        ensures
            r is Ok,
            r->Ok_0.payload.version == RELEASE_VERSION,
            r->Ok_0.payload.publisher@ == ed25519_public(identity@),
            r->Ok_0.payload.name == payload.name,
            r->Ok_0.payload.tag == payload.tag,
            r->Ok_0.payload.manifest == payload.manifest,
            r->Ok_0.payload.blobs == payload.blobs,
            r->Ok_0.payload.referrers == payload.referrers,
            r->Ok_0.payload.timestamp == if payload.timestamp == 0 {
                now
            } else {
                payload.timestamp
            },
            r->Ok_0.signature@ == hex_encode(
                ed25519_signature(identity@, payload_bytes(r->Ok_0.payload)),
            ),
            valid_name(payload.name@) && valid_tag(payload.tag@) ==> release_check(r->Ok_0) == Ok::<
                (),
                Error,
            >(()),
    {
        let mut payload = payload;
        payload.version = RELEASE_VERSION;
        payload.publisher = identity.id();
        if payload.timestamp == 0 {
            payload.timestamp = now;
        }
        let bytes = match payload.canonical_bytes() {
            Ok(b) => b,
            Err(e) => return Err(e),
        };
        let sig = identity.sign(&bytes);
        proof {
            lemma_hex_roundtrip(sig@);
        }
        Ok(Release { payload, signature: hex_string(sig.as_slice()) })
    }

    /// Signs `payload` as `identity`, stamping the current time when the
    /// payload has none.
    pub fn sign(identity: &Identity, payload: ReleasePayload) -> (r: Result<Release, Error>)
        ensures
            r is Ok,
            r->Ok_0.payload.version == RELEASE_VERSION,
            r->Ok_0.payload.publisher@ == ed25519_public(identity@),
            r->Ok_0.payload.name == payload.name,
            r->Ok_0.payload.tag == payload.tag,
            r->Ok_0.payload.manifest == payload.manifest,
            r->Ok_0.payload.blobs == payload.blobs,
            r->Ok_0.payload.referrers == payload.referrers,
            payload.timestamp != 0 ==> r->Ok_0.payload.timestamp == payload.timestamp,
            r->Ok_0.signature@ == hex_encode(
                ed25519_signature(identity@, payload_bytes(r->Ok_0.payload)),
            ),
            valid_name(payload.name@) && valid_tag(payload.tag@) ==> release_check(r->Ok_0) == Ok::<
                (),
                Error,
            >(()),
    {
        let t = if payload.timestamp == 0 {
            now()
        } else {
            payload.timestamp
        };
        Release::sign_at(identity, payload, t)
    }

    /// Checks the version, name, tag and signature.
    pub fn verify(&self) -> (r: Result<(), Error>)
        ensures
            r == release_check(*self),
    {
        if self.payload.version != RELEASE_VERSION {
            return Err(Error::ReleaseVersion);
        }
        match validate_name(self.payload.name.as_str()) {
            Ok(()) => {},
            Err(e) => return Err(e),
        }
        match validate_tag(self.payload.tag.as_str()) {
            Ok(()) => {},
            Err(e) => return Err(e),
        }
        let sv = chars_of(self.signature.as_str());
        let b = match hex_bytes(&sv) {
            None => return Err(Error::SignatureNotHex),
            Some(b) => b,
        };
        if b.len() != 64 {
            return Err(Error::SignatureLength);
        }
        let sig = to_array64(&b);
        let bytes = match self.payload.canonical_bytes() {
            Ok(x) => x,
            Err(e) => return Err(e),
        };
        assert(hex_decode(self.signature@) == Some(sig@));
        assert(bytes@ == payload_bytes(self.payload));
        match verify(&self.payload.publisher, &bytes, &sig) {
            Ok(()) => Ok(()),
            Err(_) => Err(Error::BadSignature),
        }
    }

    pub fn publisher(&self) -> (p: &PublisherId)
        ensures
            *p == self.payload.publisher,
    {
        &self.payload.publisher
    }

    pub fn name(&self) -> (n: &str)
        ensures
            n@ == self.payload.name@,
    {
        self.payload.name.as_str()
    }

    /// `<hex>/<name>:<tag>`
    pub fn reference(&self) -> (s: String)
        ensures
            s@ == reference_text(
                self.payload.publisher@,
                self.payload.name@,
                Some(self.payload.tag@),
            ),
    {
        let r = ImageRef {
            publisher: self.payload.publisher,
            name: self.payload.name.clone(),
            tag: Some(self.payload.tag.clone()),
        };
        r.to_string()
    }

    /// The manifest followed by every blob.
    pub fn all_blobs(&self) -> (v: Vec<BlobRef>)
        ensures
            v@ == seq![self.payload.manifest] + self.payload.blobs@,
    {
        let mut out: Vec<BlobRef> = Vec::new();
        out.push(self.payload.manifest.clone());
        let mut i: usize = 0;
        while i < self.payload.blobs.len()
            invariant
                0 <= i <= self.payload.blobs@.len(),
                out@ == seq![self.payload.manifest] + self.payload.blobs@.take(i as int),
            decreases self.payload.blobs@.len() - i,
        {
            out.push(self.payload.blobs[i].clone());
            assert(out@ =~= seq![self.payload.manifest] + self.payload.blobs@.take(i + 1));
            i = i + 1;
        }
        assert(self.payload.blobs@.take(self.payload.blobs@.len() as int) =~= self.payload.blobs@);
        out
    }

    /// The size of the manifest and every blob together, or `None` when the
    /// sum does not fit in 64 bits.
    pub fn checked_total_size(&self) -> (r: Option<u64>)
        ensures
            match r {
                Some(n) => n == sizes_total(seq![self.payload.manifest] + self.payload.blobs@),
                None => sizes_total(seq![self.payload.manifest] + self.payload.blobs@) > u64::MAX,
            },
    {
        let all = self.all_blobs();
        let mut total: u64 = 0;
        let mut i: usize = 0;
        assert(all@.take(0) =~= Seq::<BlobRef>::empty());
        while i < all.len()
            invariant
                0 <= i <= all@.len(),
                all@ == seq![self.payload.manifest] + self.payload.blobs@,
                total == sizes_total(all@.take(i as int)),
            decreases all@.len() - i,
        {
            assert(all@.take(i + 1).drop_last() =~= all@.take(i as int));
            match total.checked_add(all[i].size) {
                Some(t) => {
                    total = t;
                },
                None => {
                    proof {
                        lemma_sizes_prefix(all@, i + 1);
                    }
                    return None;
                },
            }
            i = i + 1;
        }
        assert(all@.take(all@.len() as int) =~= all@);
        Some(total)
    }

    /// The size of the manifest and every blob together.
    pub fn total_size(&self) -> (n: u64)
        requires
            sizes_total(seq![self.payload.manifest] + self.payload.blobs@) <= u64::MAX,
        ensures
            n == sizes_total(seq![self.payload.manifest] + self.payload.blobs@),
    {
        let all = self.all_blobs();
        let mut total: u64 = 0;
        let mut i: usize = 0;
        assert(all@.take(0) =~= Seq::<BlobRef>::empty());
        while i < all.len()
            invariant
                0 <= i <= all@.len(),
                all@ == seq![self.payload.manifest] + self.payload.blobs@,
                sizes_total(all@) <= u64::MAX,
                total == sizes_total(all@.take(i as int)),
            decreases all@.len() - i,
        {
            assert(all@.take(i + 1).drop_last() =~= all@.take(i as int));
            proof {
                lemma_sizes_prefix(all@, i + 1);
            }
            total = total + all[i].size;
            i = i + 1;
        }
        assert(all@.take(all@.len() as int) =~= all@);
        total
    }

    /// Does this release win over `other` for the same reference: newer, or
    /// as new with another manifest?
    pub fn supersedes(&self, other: &Release) -> (r: bool)
        ensures
            r == (self.payload.timestamp > other.payload.timestamp || (self.payload.timestamp
                == other.payload.timestamp && self.payload.manifest.digest@
                != other.payload.manifest.digest@)),
    {
        self.payload.timestamp > other.payload.timestamp || (self.payload.timestamp
            == other.payload.timestamp && self.payload.manifest.digest
            != other.payload.manifest.digest)
    }
}

proof fn lemma_sizes_prefix(v: Seq<BlobRef>, k: int)
    requires
        0 <= k <= v.len(),
    ensures
        sizes_total(v.take(k)) <= sizes_total(v),
    decreases v.len() - k,
{
    if k < v.len() {
        lemma_sizes_prefix(v, k + 1);
        assert(v.take(k + 1).drop_last() =~= v.take(k));
    } else {
        assert(v.take(k) =~= v);
    }
}

/// Compact description used in inventories.
#[derive(Debug)]
pub struct ReleaseSummary {
    pub publisher: PublisherId,
    pub name: String,
    pub tag: String,
    pub manifest_digest: Digest,
    pub timestamp: u64,
}

impl Clone for ReleaseSummary {
    fn clone(&self) -> (r: Self)
        ensures
            r == *self,
    {
        ReleaseSummary {
            publisher: self.publisher,
            name: self.name.clone(),
            tag: self.tag.clone(),
            manifest_digest: self.manifest_digest.clone(),
            timestamp: self.timestamp,
        }
    }
}

impl ReleaseSummary {
    /// The summary of a release.
    pub fn from(r: &Release) -> (s: ReleaseSummary)
        ensures
            s.publisher == r.payload.publisher,
            s.name == r.payload.name,
            s.tag == r.payload.tag,
            s.manifest_digest == r.payload.manifest.digest,
            s.timestamp == r.payload.timestamp,
    {
        ReleaseSummary {
            publisher: r.payload.publisher,
            name: r.payload.name.clone(),
            tag: r.payload.tag.clone(),
            manifest_digest: r.payload.manifest.digest.clone(),
            timestamp: r.payload.timestamp,
        }
    }
}

} // verus!
