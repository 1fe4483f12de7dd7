//! OCI image types, digests and image reference parsing.

use vstd::prelude::*;
use crate::error::Error;
use crate::config::{alias_lookup, alias_target_from_text, alias_views, AliasTarget, Policy};
use crate::identity::{
    is_hex_publisher, lemma_hex_publisher_roundtrip, lower_hex_text, parse_publisher,
    publisher_from_text, PublisherId,
};
use crate::text::{
    alnum, chars_of, concat_chars, find, find_char, hex_encode, is_alnum, is_lower_alnum,
    is_lower_hex, is_white, lemma_find, lemma_rfind, lemma_trim_noop, lower_alnum, lower_hex,
    push_chars, push_hex, push_str, rfind, rfind_char, slice_chars, starts_with, str_eq,
    string_of, trim, trim_chars, trim_end_char, trim_end_char_chars, has_prefix, trim_char,
    trim_char_chars, lemma_trim_idem,
};

verus! {

pub const MT_OCI_MANIFEST: &'static str = "application/vnd.oci.image.manifest.v1+json";

pub const MT_OCI_INDEX: &'static str = "application/vnd.oci.image.index.v1+json";

pub const MT_DOCKER_MANIFEST: &'static str = "application/vnd.docker.distribution.manifest.v2+json";

pub const MT_DOCKER_LIST: &'static str = "application/vnd.docker.distribution.manifest.list.v2+json";

/// One of the four manifest media types (OCI / Docker, manifest / index).
pub open spec fn manifest_media_type(mt: Seq<char>) -> bool {
    mt == MT_OCI_MANIFEST@ || mt == MT_OCI_INDEX@ || mt == MT_DOCKER_MANIFEST@ || mt
        == MT_DOCKER_LIST@
}

pub fn is_manifest_media_type(mt: &str) -> (r: bool)
    ensures
        r == manifest_media_type(mt@),
{
    str_eq(mt, MT_OCI_MANIFEST) || str_eq(mt, MT_OCI_INDEX) || str_eq(mt, MT_DOCKER_MANIFEST)
        || str_eq(mt, MT_DOCKER_LIST)
}

// ---------------------------------------------------------------------------
// Digest
// ---------------------------------------------------------------------------

/// The sha256 of `data` (the `sha2` crate's `Sha256::digest`).
pub uninterp spec fn sha256(data: Seq<u8>) -> Seq<u8>;

/// `sha2::Sha256::digest(data)`: the 32-byte sha256 hash of `data`, which is
/// named, not written out.
#[verifier::external_body]
fn sha256_of(data: &[u8]) -> (h: [u8; 32])
    ensures
        h@ == sha256(data@),
{
    <sha2::Sha256 as sha2::Digest>::digest(data).into()
}

/// `sha256:` followed by the lowercase hex of `bytes`.
pub open spec fn sha256_text(bytes: Seq<u8>) -> Seq<char> {
    "sha256:"@ + hex_encode(bytes)
}

/// How a digest text is read: `sha256:` and 64 lowercase hex characters.
pub open spec fn digest_from_text(s: Seq<char>) -> Result<Seq<char>, Error> {
    if !starts_with(s, "sha256:"@) {
        Err(Error::UnsupportedDigest)
    } else if lower_hex_text(s.subrange(7, s.len() as int)) {
        Ok(s)
    } else {
        Err(Error::MalformedDigest)
    }
}

/// The text of a 32-byte sha256 hash reads back as a digest.
pub proof fn lemma_digest_roundtrip(b: Seq<u8>)
    requires
        b.len() == 32,
    ensures
        digest_from_text(sha256_text(b)) == Ok::<Seq<char>, Error>(sha256_text(b)),
{
    let h = hex_encode(b);
    let s = sha256_text(b);
    reveal_strlit("sha256:");
    assert forall|i: int| 0 <= i < h.len() implies is_lower_hex(#[trigger] h[i]) by {
        let d = if i % 2 == 0 { b[i / 2] / 16 } else { b[i / 2] % 16 };
        assert(d < 16);
    }
    assert(s.subrange(0, 7) =~= "sha256:"@);
    assert(s.subrange(7, s.len() as int) =~= h);
}

/// A `sha256:<hex>` content digest.
#[derive(Debug)]
pub struct Digest {
    text: String,
}

impl View for Digest {
    type V = Seq<char>;

    closed spec fn view(&self) -> Seq<char> {
        self.text@
    }
}

impl Clone for Digest {
    fn clone(&self) -> (r: Self)
        ensures
            r == *self,
    {
        proof {
            use_type_invariant(self);
        }
        Digest { text: self.text.clone() }
    }
}

impl PartialEq for Digest {
    fn eq(&self, other: &Self) -> (r: bool) {
        self.text == other.text
    }
}

impl Eq for Digest {

}

impl vstd::std_specs::cmp::PartialEqSpecImpl for Digest {
    open spec fn obeys_eq_spec() -> bool {
        true
    }

    open spec fn eq_spec(&self, other: &Self) -> bool {
        self@ == other@
    }
}

impl core::str::FromStr for Digest {
    type Err = Error;

    fn from_str(s: &str) -> (r: Result<Digest, Error>)
        ensures
            match r {
                Ok(d) => digest_from_text(s@) == Ok::<Seq<char>, Error>(d@),
                Err(e) => digest_from_text(s@) == Err::<Seq<char>, Error>(e),
            },
    {
        Digest::parse(s)
    }
}

impl Digest {
    /// A digest always starts with `sha256:`.
    #[verifier::type_invariant]
    spec fn prefixed(self) -> bool {
        starts_with(self.text@, "sha256:"@)
    }

    /// The digest of `data`: `sha256:` and the 64 lowercase hex characters of
    /// its 32-byte hash, a text that reads back as a digest.
    pub fn sha256(data: &[u8]) -> (d: Digest)
        ensures
            d@ == sha256_text(sha256(data@)),
            sha256(data@).len() == 32,
            digest_from_text(d@) == Ok::<Seq<char>, Error>(d@),
            lower_hex_text(d@.subrange(7, d@.len() as int)),
    {
        let h = sha256_of(data);
        proof {
            lemma_digest_roundtrip(h@);
            reveal_strlit("sha256:");
        }
        Digest::from_sha256_bytes(h.as_slice())
    }

    /// The digest whose hash bytes are `bytes`.
    pub fn from_sha256_bytes(bytes: &[u8]) -> (d: Digest)
        ensures
            d@ == sha256_text(bytes@),
    {
        let mut v = chars_of("sha256:");
        push_hex(&mut v, bytes);
        proof {
            reveal_strlit("sha256:");
            assert(v@.subrange(0, 7) =~= "sha256:"@);
        }
        Digest { text: string_of(&v) }
    }

    /// Reads `sha256:<64 lowercase hex>`.
    pub fn parse(s: &str) -> (r: Result<Digest, Error>)
        ensures
            match r {
                Ok(d) => digest_from_text(s@) == Ok::<Seq<char>, Error>(d@),
                Err(e) => digest_from_text(s@) == Err::<Seq<char>, Error>(e),
            },
    {
        let v = chars_of(s);
        if !has_prefix(&v, "sha256:") {
            return Err(Error::UnsupportedDigest);
        }
        proof {
            reveal_strlit("sha256:");
        }
        let hex = slice_chars(&v, 7, v.len());
        if hex.len() != 64 {
            return Err(Error::MalformedDigest);
        }
        let mut i: usize = 0;
        while i < hex.len()
            invariant
                v@ == s@,
                s@.len() >= 7,
                starts_with(s@, "sha256:"@),
                0 <= i <= hex@.len(),
                hex@ == s@.subrange(7, s@.len() as int),
                forall|j: int| 0 <= j < i ==> is_lower_hex(#[trigger] hex@[j]),
            decreases hex@.len() - i,
        {
            if !lower_hex(hex[i]) {
                assert(!is_lower_hex(hex@[i as int]));
                return Err(Error::MalformedDigest);
            }
            i = i + 1;
        }
        Ok(Digest { text: string_of(&v) })
    }

    /// The hex part without the `sha256:` prefix.
    pub fn hex(&self) -> (h: String)
        ensures
            h@ == self@.subrange(7, self@.len() as int),
            "sha256:"@ + h@ == self@,
    {
        proof {
            use_type_invariant(self);
        }
        let v = chars_of(self.text.as_str());
        proof {
            reveal_strlit("sha256:");
        }
        let h = slice_chars(&v, 7, v.len());
        assert(self@.subrange(0, 7) =~= "sha256:"@);
        assert("sha256:"@ + h@ =~= self@);
        string_of(&h)
    }

    pub fn as_str(&self) -> (s: &str)
        ensures
            s@ == self@,
    {
        self.text.as_str()
    }
}

// ---------------------------------------------------------------------------
// manifests (the fields the node reads; manifests are stored as their bytes)
// ---------------------------------------------------------------------------

/// A content descriptor.
#[derive(Debug)]
pub struct Descriptor {
    pub media_type: String,
    pub digest: Digest,
    pub size: u64,
    pub artifact_type: Option<String>,
    pub annotations: Option<Vec<(String, String)>>,
}

/// A descriptor as plain values.
pub open spec fn descriptor_view(d: Descriptor) -> (
    Seq<char>,
    Seq<char>,
    u64,
    Option<Seq<char>>,
    Option<Seq<(String, String)>>,
) {
    (
        d.media_type@,
        d.digest@,
        d.size,
        opt_view(d.artifact_type),
        match d.annotations {
            Some(a) => Some(a@),
            None => None,
        },
    )
}

pub open spec fn descriptors_view(v: Seq<Descriptor>) -> Seq<
    (Seq<char>, Seq<char>, u64, Option<Seq<char>>, Option<Seq<(String, String)>>),
> {
    Seq::new(v.len(), |i: int| descriptor_view(v[i]))
}

fn copy_annotations(a: &Option<Vec<(String, String)>>) -> (r: Option<Vec<(String, String)>>)
    ensures
        match (r, *a) {
            (Some(x), Some(y)) => x@ == y@,
            (None, None) => true,
            _ => false,
        },
{
    match a {
        Some(v) => {
            let mut out: Vec<(String, String)> = Vec::new();
            let mut i: usize = 0;
            while i < v.len()
                invariant
                    0 <= i <= v@.len(),
                    out@ == v@.take(i as int),
                decreases v@.len() - i,
            {
                let k = v[i].0.clone();
                let x = v[i].1.clone();
                out.push((k, x));
                assert(out@ =~= v@.take(i + 1));
                i = i + 1;
            }
            assert(v@.take(v@.len() as int) =~= v@);
            Some(out)
        },
        None => None,
    }
}

impl Descriptor {
    /// A copy with the same values.
    pub fn copy(&self) -> (r: Descriptor)
        ensures
            descriptor_view(r) == descriptor_view(*self),
    {
        let artifact_type = match &self.artifact_type {
            Some(t) => Some(t.clone()),
            None => None,
        };
        Descriptor {
            media_type: self.media_type.clone(),
            digest: self.digest.clone(),
            size: self.size,
            artifact_type,
            annotations: copy_annotations(&self.annotations),
        }
    }
}

/// An image manifest.
#[derive(Debug)]
pub struct ImageManifest {
    pub media_type: Option<String>,
    pub artifact_type: Option<String>,
    pub config: Descriptor,
    pub layers: Vec<Descriptor>,
    /// OCI 1.1: the manifest this one refers to (signatures, SBOMs, ...).
    pub subject: Option<Descriptor>,
    pub annotations: Option<Vec<(String, String)>>,
}

/// An image index (manifest list).
#[derive(Debug)]
pub struct ImageIndex {
    pub media_type: Option<String>,
    pub artifact_type: Option<String>,
    pub manifests: Vec<Descriptor>,
    pub subject: Option<Descriptor>,
    pub annotations: Option<Vec<(String, String)>>,
}

/// A manifest of either kind.
#[derive(Debug)]
pub enum Manifest {
    Image(ImageManifest),
    Index(ImageIndex),
}

/// Whether manifest JSON is an index: its `mediaType` (or, without one, the
/// request's content type) names an index or list, or it names nothing and
/// has a `manifests` field.
pub open spec fn index_kind(field: Option<Seq<char>>, content_type: Option<Seq<char>>, has_manifests: bool) -> bool {
    let mt = match field {
        Some(f) => f,
        None => match content_type {
            Some(c) => c,
            None => Seq::empty(),
        },
    };
    mt == MT_OCI_INDEX@ || mt == MT_DOCKER_LIST@ || (mt.len() == 0 && has_manifests)
}

/// `index_kind` once the media type to go by is chosen.
fn index_named(mt: &str, has_manifests: bool) -> (r: bool)
    ensures
        r == (mt@ == MT_OCI_INDEX@ || mt@ == MT_DOCKER_LIST@ || (mt@.len() == 0 && has_manifests)),
{
    let v = chars_of(mt);
    str_eq(mt, MT_OCI_INDEX) || str_eq(mt, MT_DOCKER_LIST) || (v.len() == 0 && has_manifests)
}

impl Manifest {
    /// Decides how manifest JSON is read: as an index (`true`) or as an image
    /// manifest, from its `mediaType` field, the request's content type and
    /// whether it has a `manifests` field.
    pub fn is_index(media_type: Option<&str>, content_type: Option<&str>, has_manifests: bool) -> (r: bool)
        ensures
            r == index_kind(
                match media_type {
                    Some(m) => Some(m@),
                    None => None,
                },
                match content_type {
                    Some(c) => Some(c@),
                    None => None,
                },
                has_manifests,
            ),
    {
        match media_type {
            Some(m) => index_named(m, has_manifests),
            None => match content_type {
                Some(c) => index_named(c, has_manifests),
                None => {
                    let none = String::new();
                    index_named(none.as_str(), has_manifests)
                },
            },
        }
    }

    /// The media type, defaulting by kind.
    pub fn media_type(&self) -> (r: &str)
        ensures
            r@ == match self {
                Manifest::Image(m) => match m.media_type {
                    Some(t) => t@,
                    None => MT_OCI_MANIFEST@,
                },
                Manifest::Index(i) => match i.media_type {
                    Some(t) => t@,
                    None => MT_OCI_INDEX@,
                },
            },
    {
        match self {
            Manifest::Image(m) => match &m.media_type {
                Some(t) => t.as_str(),
                None => MT_OCI_MANIFEST,
            },
            Manifest::Index(i) => match &i.media_type {
                Some(t) => t.as_str(),
                None => MT_OCI_INDEX,
            },
        }
    }

    /// The `subject` this manifest refers to, if any.
    pub fn subject(&self) -> (r: Option<&Descriptor>)
        ensures
            r == match self {
                Manifest::Image(m) => match m.subject {
                    Some(d) => Some(&d),
                    None => None,
                },
                Manifest::Index(i) => match i.subject {
                    Some(d) => Some(&d),
                    None => None,
                },
            },
    {
        match self {
            Manifest::Image(m) => m.subject.as_ref(),
            Manifest::Index(i) => i.subject.as_ref(),
        }
    }

    /// The artifact type as the referrers API defines it: an explicit
    /// `artifactType`, else the config media type of an image manifest.
    pub fn artifact_type(&self) -> (r: Option<String>)
        ensures
            opt_view(r) == match self {
                Manifest::Image(m) => match m.artifact_type {
                    Some(t) => Some(t@),
                    None => Some(m.config.media_type@),
                },
                Manifest::Index(i) => opt_view(i.artifact_type),
            },
    {
        match self {
            Manifest::Image(m) => match &m.artifact_type {
                Some(t) => Some(t.clone()),
                None => Some(m.config.media_type.clone()),
            },
            Manifest::Index(i) => match &i.artifact_type {
                Some(t) => Some(t.clone()),
                None => None,
            },
        }
    }

    pub fn annotations(&self) -> (r: Option<&Vec<(String, String)>>)
        ensures
            r == match self {
                Manifest::Image(m) => match m.annotations {
                    Some(a) => Some(&a),
                    None => None,
                },
                Manifest::Index(i) => match i.annotations {
                    Some(a) => Some(&a),
                    None => None,
                },
            },
    {
        match self {
            Manifest::Image(m) => m.annotations.as_ref(),
            Manifest::Index(i) => i.annotations.as_ref(),
        }
    }

    /// The descriptors this manifest references directly (not the subject):
    /// config then layers, or the index's manifests.
    pub fn referenced(&self) -> (r: Vec<Descriptor>)
        ensures
            descriptors_view(r@) == match self {
                Manifest::Image(m) => seq![descriptor_view(m.config)] + descriptors_view(m.layers@),
                Manifest::Index(i) => descriptors_view(i.manifests@),
            },
    {
        let (mut out, src): (Vec<Descriptor>, &Vec<Descriptor>) = match self {
            Manifest::Image(m) => {
                let mut v: Vec<Descriptor> = Vec::new();
                v.push(m.config.copy());
                (v, &m.layers)
            },
            Manifest::Index(i) => (Vec::new(), &i.manifests),
        };
        let ghost head = descriptors_view(out@);
        let mut i: usize = 0;
        while i < src.len()
            invariant
                0 <= i <= src@.len(),
                descriptors_view(out@) == head + descriptors_view(src@).take(i as int),
            decreases src@.len() - i,
        {
            let d = src[i].copy();
            let ghost before = out@;
            out.push(d);
            assert(descriptors_view(out@) =~= descriptors_view(before).push(descriptor_view(d)));
            assert(descriptors_view(src@).take(i + 1) =~= descriptors_view(src@).take(i as int).push(descriptor_view(src@[i as int])));
            i = i + 1;
        }
        assert(descriptors_view(src@).take(src@.len() as int) =~= descriptors_view(src@));
        proof {
            match self {
                Manifest::Image(m) => {
                    assert(head =~= seq![descriptor_view(m.config)]);
                },
                Manifest::Index(_) => {
                    assert(head =~= Seq::empty());
                },
            }
        }
        out
    }
}

// ---------------------------------------------------------------------------
// names and tags
// ---------------------------------------------------------------------------

/// `[a-z0-9._-]`
pub open spec fn name_char(c: char) -> bool {
    is_lower_alnum(c) || c == '.' || c == '_' || c == '-'
}

/// Position `i` of `s` begins a `/`-separated component.
pub open spec fn component_start(s: Seq<char>, i: int) -> bool {
    i == 0 || s[i - 1] == '/'
}

/// An OCI repository name: `/`-separated components, each non-empty, of
/// `[a-z0-9._-]` and starting with a letter or digit (so never `.` or `..`),
/// at most 255 characters in all.
pub open spec fn valid_name(s: Seq<char>) -> bool {
    &&& 1 <= s.len() <= 255
    &&& forall|i: int| 0 <= i < s.len() ==> name_char(#[trigger] s[i]) || s[i] == '/'
    &&& forall|i: int|
        0 <= i < s.len() && #[trigger] component_start(s, i) ==> is_lower_alnum(s[i])
    &&& s.last() != '/'
}

/// The `/`-separated components of `s` (std's `split('/')`; the empty text
/// has one empty component).
pub open spec fn components(s: Seq<char>) -> Seq<Seq<char>>
    decreases s.len(),
{
    if s.len() == 0 {
        seq![Seq::empty()]
    } else {
        let c = components(s.drop_last());
        if s.last() == '/' {
            c.push(Seq::empty())
        } else {
            c.update(c.len() - 1, c.last().push(s.last()))
        }
    }
}

/// A well-formed name component: non-empty, of `[a-z0-9._-]`, starting with
/// a letter or digit.
pub open spec fn good_component(c: Seq<char>) -> bool {
    &&& c.len() > 0
    &&& forall|i: int| 0 <= i < c.len() ==> name_char(#[trigger] c[i])
    &&& is_lower_alnum(c[0])
}

/// A component that can still grow into a good one: empty, or of
/// `[a-z0-9._-]` starting with a letter or digit.
spec fn good_prefix(c: Seq<char>) -> bool {
    c.len() == 0 || ((forall|i: int| 0 <= i < c.len() ==> name_char(#[trigger] c[i])) && is_lower_alnum(c[0]))
}

/// The character rules of a name, without its length and its last character.
spec fn name_chars_ok(s: Seq<char>) -> bool {
    &&& forall|i: int| 0 <= i < s.len() ==> name_char(#[trigger] s[i]) || s[i] == '/'
    &&& forall|i: int|
        0 <= i < s.len() && #[trigger] component_start(s, i) ==> is_lower_alnum(s[i])
}

proof fn lemma_components(s: Seq<char>)
    ensures
        components(s).len() >= 1,
        (components(s).last().len() == 0) <==> (s.len() == 0 || s.last() == '/'),
        name_chars_ok(s) <==> ((forall|k: int|
            0 <= k < components(s).len() - 1 ==> good_component(#[trigger] components(s)[k]))
            && good_prefix(components(s).last())),
    decreases s.len(),
{
    if s.len() > 0 {
        let t = s.drop_last();
        let x = s.last();
        let l = s.len() - 1;
        lemma_components(t);
        let ct = components(t);
        let cs = components(s);
        assert forall|i: int| 0 <= i < t.len() implies #[trigger] s[i] == t[i] by {}
        assert(s[l] == x);
        // the character rules of s are those of t plus the last character's
        assert(name_chars_ok(s) <==> (name_chars_ok(t) && (name_char(x) || x == '/') && (
        component_start(s, l) ==> is_lower_alnum(x)))) by {
            if name_chars_ok(s) {
                assert forall|i: int| 0 <= i < t.len() && #[trigger] component_start(t, i) implies is_lower_alnum(t[i]) by {
                    assert(component_start(s, i));
                }
                assert(name_char(s[l]) || s[l] == '/');
            }
            if name_chars_ok(t) && (name_char(x) || x == '/') && (component_start(s, l) ==> is_lower_alnum(x)) {
                assert forall|i: int| 0 <= i < s.len() && #[trigger] component_start(s, i) implies is_lower_alnum(s[i]) by {
                    if i < l {
                        assert(component_start(t, i));
                    }
                }
            }
        }
        assert(component_start(s, l) <==> (t.len() == 0 || t.last() == '/'));
        if x == '/' {
            assert(cs == ct.push(Seq::<char>::empty()));
            assert(!is_lower_alnum('/'));
            assert(!name_char('/'));
            assert forall|k: int| 0 <= k < ct.len() implies #[trigger] cs[k] == ct[k] by {}
            if name_chars_ok(s) {
                assert forall|k: int| 0 <= k < cs.len() - 1 implies good_component(#[trigger] cs[k]) by {
                    assert(cs[k] == ct[k]);
                }
            }
            if (forall|k: int| 0 <= k < cs.len() - 1 ==> good_component(#[trigger] cs[k])) {
                assert(good_component(cs[ct.len() - 1]));
                assert forall|k: int| 0 <= k < ct.len() - 1 implies good_component(#[trigger] ct[k]) by {
                    assert(good_component(cs[k]));
                }
            }
        } else {
            let lt = ct.last();
            let n = ct.len() - 1;
            assert(cs == ct.update(n, lt.push(x)));
            assert forall|k: int| 0 <= k < n implies #[trigger] cs[k] == ct[k] by {}
            assert(cs.last() == lt.push(x));
            assert(good_prefix(lt.push(x)) <==> (good_prefix(lt) && name_char(x) && (lt.len() == 0 ==> is_lower_alnum(x)))) by {
                let c = lt.push(x);
                if good_prefix(c) {
                    assert(name_char(c[lt.len() as int]));
                    if lt.len() > 0 {
                        assert forall|i: int| 0 <= i < lt.len() implies name_char(#[trigger] lt[i]) by {
                            assert(c[i] == lt[i]);
                        }
                        assert(c[0] == lt[0]);
                    }
                }
                if good_prefix(lt) && name_char(x) && (lt.len() == 0 ==> is_lower_alnum(x)) {
                    assert forall|i: int| 0 <= i < c.len() implies name_char(#[trigger] c[i]) by {
                        if i < lt.len() {
                            assert(c[i] == lt[i]);
                        }
                    }
                    if lt.len() > 0 {
                        assert(c[0] == lt[0]);
                    }
                }
            }
            if (forall|k: int| 0 <= k < cs.len() - 1 ==> good_component(#[trigger] cs[k])) {
                assert forall|k: int| 0 <= k < ct.len() - 1 implies good_component(#[trigger] ct[k]) by {
                    assert(good_component(cs[k]));
                }
            }
            if (forall|k: int| 0 <= k < ct.len() - 1 ==> good_component(#[trigger] ct[k])) {
                assert forall|k: int| 0 <= k < cs.len() - 1 implies good_component(#[trigger] cs[k]) by {
                    assert(good_component(ct[k]));
                }
            }
        }
    }
}

/// A valid image name (`validate_name`) in component form: 1 to 255
/// characters whose `/`-separated components are all non-empty, of
/// `[a-z0-9._-]`, and start with a letter or digit.
pub proof fn lemma_valid_name_components(s: Seq<char>)
    ensures
        valid_name(s) <==> (1 <= s.len() <= 255 && forall|k: int|
            0 <= k < components(s).len() ==> good_component(#[trigger] components(s)[k])),
{
    lemma_components(s);
    let cs = components(s);
    if 1 <= s.len() <= 255 {
        assert(valid_name(s) <==> (name_chars_ok(s) && s.last() != '/'));
        if valid_name(s) {
            assert forall|k: int| 0 <= k < cs.len() implies good_component(#[trigger] cs[k]) by {
                if k == cs.len() - 1 {
                    assert(cs[k] == cs.last());
                }
            }
        }
        if forall|k: int| 0 <= k < cs.len() ==> good_component(#[trigger] cs[k]) {
            assert(good_component(cs[cs.len() - 1]));
            assert(cs[cs.len() - 1] == cs.last());
        }
    }
}

/// `[A-Za-z0-9._-]`
pub open spec fn tag_char(c: char) -> bool {
    is_alnum(c) || c == '.' || c == '_' || c == '-'
}

/// An OCI tag: 1 to 128 characters of `[A-Za-z0-9._-]`, not starting with `.`
/// or `-`.
pub open spec fn valid_tag(s: Seq<char>) -> bool {
    &&& 1 <= s.len() <= 128
    &&& forall|i: int| 0 <= i < s.len() ==> tag_char(#[trigger] s[i])
    &&& (is_alnum(s[0]) || s[0] == '_')
}

fn name_ok(v: &[char]) -> (r: bool)
    ensures
        r == valid_name(v@),
{
    let n = v.len();
    if n == 0 || n > 255 {
        return false;
    }
    let mut i: usize = 0;
    while i < n
        invariant
            n == v@.len(),
            1 <= n <= 255,
            0 <= i <= n,
            forall|j: int| 0 <= j < i ==> name_char(#[trigger] v@[j]) || v@[j] == '/',
            forall|j: int|
                0 <= j < i && #[trigger] component_start(v@, j) ==> is_lower_alnum(v@[j]),
        decreases n - i,
    {
        let c = v[i];
        if !(lower_alnum(c) || c == '.' || c == '_' || c == '-' || c == '/') {
            assert(!(name_char(v@[i as int]) || v@[i as int] == '/'));
            return false;
        }
        if (i == 0 || v[i - 1] == '/') && !lower_alnum(c) {
            assert(component_start(v@, i as int));
            return false;
        }
        assert(component_start(v@, i as int) ==> is_lower_alnum(v@[i as int]));
        i = i + 1;
    }
    v[n - 1] != '/'
}

/// Checks an OCI repository name (`a/b/c`).
pub fn validate_name(name: &str) -> (r: Result<(), Error>)
    ensures
        r is Ok <==> valid_name(name@),
        r is Err ==> r == Err::<(), Error>(Error::InvalidName),
{
    let v = chars_of(name);
    if name_ok(&v) {
        Ok(())
    } else {
        Err(Error::InvalidName)
    }
}

fn tag_ok(v: &[char]) -> (r: bool)
    ensures
        r == valid_tag(v@),
{
    let n = v.len();
    if n == 0 || n > 128 {
        return false;
    }
    let mut i: usize = 0;
    while i < n
        invariant
            n == v@.len(),
            0 <= i <= n,
            forall|j: int| 0 <= j < i ==> tag_char(#[trigger] v@[j]),
        decreases n - i,
    {
        let c = v[i];
        if !(alnum(c) || c == '.' || c == '_' || c == '-') {
            assert(!tag_char(v@[i as int]));
            return false;
        }
        i = i + 1;
    }
    alnum(v[0]) || v[0] == '_'
}

/// Checks an OCI tag.
pub fn validate_tag(tag: &str) -> (r: Result<(), Error>)
    ensures
        r is Ok <==> valid_tag(tag@),
        r is Err ==> r == Err::<(), Error>(Error::InvalidTag),
{
    let v = chars_of(tag);
    if tag_ok(&v) {
        Ok(())
    } else {
        Err(Error::InvalidTag)
    }
}

// ---------------------------------------------------------------------------
// references
// ---------------------------------------------------------------------------

/// Where `name[:tag]` splits: the last `:` after the last `/`.
pub open spec fn tag_colon(s: Seq<char>) -> Option<int> {
    match rfind(s, ':') {
        Some(c) => match rfind(s, '/') {
            Some(k) => if c > k {
                Some(c)
            } else {
                None
            },
            None => Some(c),
        },
        None => None,
    }
}

/// `name[:tag]` split and checked.
pub open spec fn name_and_tag(s: Seq<char>) -> Result<(Seq<char>, Option<Seq<char>>), Error> {
    let name = match tag_colon(s) {
        Some(c) => s.subrange(0, c),
        None => s,
    };
    if !valid_name(name) {
        Err(Error::InvalidName)
    } else {
        match tag_colon(s) {
            Some(c) => {
                let t = s.subrange(c + 1, s.len() as int);
                if valid_tag(t) {
                    Ok((name, Some(t)))
                } else {
                    Err(Error::InvalidTag)
                }
            },
            None => Ok((name, None)),
        }
    }
}

/// Splits `name[:tag]`; the tag separator is the last `:` after the last `/`.
pub fn split_tag(s: &str) -> (r: Result<(String, Option<String>), Error>)
    ensures
        match r {
            Ok((n, t)) => name_and_tag(s@) == Ok::<(Seq<char>, Option<Seq<char>>), Error>(
                (n@, opt_view(t)),
            ),
            Err(e) => name_and_tag(s@) == Err::<(Seq<char>, Option<Seq<char>>), Error>(e),
        },
{
    let v = chars_of(s);
    split_tag_chars(&v)
}

/// The characters of an optional string.
pub open spec fn opt_view(o: Option<String>) -> Option<Seq<char>> {
    match o {
        Some(s) => Some(s@),
        None => None,
    }
}

fn split_tag_chars(v: &[char]) -> (r: Result<(String, Option<String>), Error>)
    ensures
        match r {
            Ok((n, t)) => name_and_tag(v@) == Ok::<(Seq<char>, Option<Seq<char>>), Error>(
                (n@, opt_view(t)),
            ),
            Err(e) => name_and_tag(v@) == Err::<(Seq<char>, Option<Seq<char>>), Error>(e),
        },
{
    let colon = match rfind_char(v, ':') {
        Some(c) => match rfind_char(v, '/') {
            Some(k) => if c > k {
                Some(c)
            } else {
                None
            },
            None => Some(c),
        },
        None => None,
    };
    proof {
        lemma_rfind(v@, ':');
        lemma_rfind(v@, '/');
    }
    assert(colon == match tag_colon(v@) {
        Some(c) => Some(c as usize),
        None => None::<usize>,
    });
    match colon {
        Some(c) => {
            let n = v.len();
            let name = slice_chars(v, 0, c);
            let tag = slice_chars(v, c + 1, n);
            if !name_ok(&name) {
                return Err(Error::InvalidName);
            }
            if !tag_ok(&tag) {
                return Err(Error::InvalidTag);
            }
            Ok((string_of(&name), Some(string_of(&tag))))
        },
        None => {
            if !name_ok(v) {
                return Err(Error::InvalidName);
            }
            Ok((string_of(v), None))
        },
    }
}

/// A tag splits off again: `name:tag` reads as `(name, Some(tag))` and a bare
/// name as `(name, None)`, for every valid name and tag.
pub proof fn lemma_split_tag_roundtrip(name: Seq<char>, tag: Option<Seq<char>>)
    requires
        valid_name(name),
        tag matches Some(t) ==> valid_tag(t),
    ensures
        name_and_tag(tagged_name(name, tag)) == Ok::<(Seq<char>, Option<Seq<char>>), Error>(
            (name, tag),
        ),
{
    let s = tagged_name(name, tag);
    assert forall|j: int| 0 <= j < name.len() implies #[trigger] name[j] != ':' by {
        assert(name_char(name[j]) || name[j] == '/');
    }
    match tag {
        Some(t) => {
            let c = name.len() as int;
            assert(s[c] == ':');
            assert forall|j: int| c < j < s.len() implies #[trigger] s[j] != ':' && s[j] != '/' by {
                assert(s[j] == t[j - c - 1]);
                assert(tag_char(t[j - c - 1]));
            }
            crate::text::lemma_rfind_is(s, ':', Some(c));
            lemma_rfind(s, '/');
            match rfind(s, '/') {
                Some(k) => {
                    assert(k < c);
                },
                None => {},
            }
            assert(tag_colon(s) == Some(c));
            assert(s.subrange(0, c) =~= name);
            assert(s.subrange(c + 1, s.len() as int) =~= t);
        },
        None => {
            assert(s =~= name);
            crate::text::lemma_rfind_is(s, ':', None);
        },
    }
}

/// `name` followed by `:tag` when there is a tag.
pub open spec fn tagged_name(name: Seq<char>, tag: Option<Seq<char>>) -> Seq<char> {
    match tag {
        Some(t) => name + seq![':'] + t,
        None => name,
    }
}

/// A rendered reference reads back as the same publisher, name and tag.
pub proof fn lemma_reference_roundtrip(publisher: Seq<u8>, name: Seq<char>, tag: Option<Seq<char>>)
    requires
        publisher.len() == 32,
        crate::identity::ed25519_point(publisher),
        valid_name(name),
        tag matches Some(t) ==> valid_tag(t),
    ensures
        explicit_reference(reference_text(publisher, name, tag)) == Ok::<
            (Seq<u8>, Seq<char>, Option<Seq<char>>),
            Error,
        >((publisher, name, tag)),
{
    let h = hex_encode(publisher);
    lemma_hex_publisher_roundtrip(publisher);
    let rest = tagged_name(name, tag);
    let s = reference_text(publisher, name, tag);
    assert(s =~= h + seq!['/'] + rest);
    assert(rest.len() > 0 && rest.last() != '/' && !is_white(rest.last())) by {
        match tag {
            Some(t) => {
                assert(rest.last() == t.last());
                assert(tag_char(t[t.len() - 1]));
            },
            None => {
                assert(name_char(name[name.len() - 1]) || name[name.len() - 1] == '/');
            },
        }
    }
    assert(s.last() == rest.last());
    assert(is_lower_hex(h[0]));
    lemma_trim_noop(s);
    assert(crate::text::trail_count(s, '/') == 0);
    assert(trim_end_char(s, '/') =~= s);
    assert forall|j: int| 0 <= j < 64 implies #[trigger] s[j] != '/' by {
        assert(s[j] == h[j]);
        assert(is_lower_hex(h[j]));
    }
    crate::text::lemma_find_is(s, '/', Some(64));
    assert(s.subrange(0, 64) =~= h);
    assert(s.subrange(65, s.len() as int) =~= rest);
    lemma_split_tag_roundtrip(name, tag);
}

/// A fully resolved image reference: `<publisher>/<name>[:<tag>]`.
#[derive(Debug, Clone)]
pub struct ImageRef {
    pub publisher: PublisherId,
    pub name: String,
    pub tag: Option<String>,
}

/// The text form of a reference: publisher hex, `/`, name, and `:tag` if any.
pub open spec fn reference_text(publisher: Seq<u8>, name: Seq<char>, tag: Option<Seq<char>>) -> Seq<
    char,
> {
    match tag {
        Some(t) => hex_encode(publisher) + seq!['/'] + name + seq![':'] + t,
        None => hex_encode(publisher) + seq!['/'] + name,
    }
}

/// How a reference with an explicit publisher is read: trimmed, trailing `/`
/// dropped, split at the first `/` into publisher and `name[:tag]`.
pub open spec fn explicit_reference(s: Seq<char>) -> Result<
    (Seq<u8>, Seq<char>, Option<Seq<char>>),
    Error,
> {
    let t = trim_end_char(trim(s), '/');
    match find(t, '/') {
        None => Err(Error::MissingPublisher),
        Some(i) => match publisher_from_text(t.subrange(0, i)) {
            Err(e) => Err(e),
            Ok(p) => match name_and_tag(t.subrange(i + 1, t.len() as int)) {
                Err(e) => Err(e),
                Ok((n, tag)) => Ok((p, n, tag)),
            },
        },
    }
}

impl ImageRef {
    /// Parses a reference that must carry an explicit publisher (hex or
    /// did:key), e.g. `did:key:z6Mk.../app:1.0` or `<hex>/app`.
    pub fn parse_explicit(s: &str) -> (r: Result<ImageRef, Error>)
        ensures
            match r {
                Ok(x) => explicit_reference(s@) == Ok::<
                    (Seq<u8>, Seq<char>, Option<Seq<char>>),
                    Error,
                >((x.publisher@, x.name@, opt_view(x.tag))),
                Err(e) => explicit_reference(s@) == Err::<
                    (Seq<u8>, Seq<char>, Option<Seq<char>>),
                    Error,
                >(e),
            },
    {
        let v = chars_of(s);
        let t0 = trim_chars(&v);
        let t = trim_end_char_chars(&t0, '/');
        match find_char(&t, '/') {
            None => Err(Error::MissingPublisher),
            Some(i) => {
                proof {
                    lemma_find(t@, '/');
                }
                let pubs = slice_chars(&t, 0, i);
                let rest = slice_chars(&t, i + 1, t.len());
                let ps = string_of(&pubs);
                let publisher = match parse_publisher(ps.as_str()) {
                    Ok(p) => p,
                    Err(e) => return Err(e),
                };
                match split_tag_chars(&rest) {
                    Ok((name, tag)) => Ok(ImageRef { publisher, name, tag }),
                    Err(e) => Err(e),
                }
            },
        }
    }

    /// The tag, or `latest` when there is none.
    pub fn tag_or_latest(&self) -> (t: &str)
        ensures
            t@ == match self.tag {
                Some(x) => x@,
                None => "latest"@,
            },
    {
        match &self.tag {
            Some(t) => t.as_str(),
            None => "latest",
        }
    }

    /// `<hex>/<name>[:<tag>]`
    pub fn to_string(&self) -> (s: String)
        ensures
            s@ == reference_text(self.publisher@, self.name@, opt_view(self.tag)),
    {
        let p = self.publisher.to_string();
        let mut v = chars_of(p.as_str());
        v.push('/');
        push_str(&mut v, self.name.as_str());
        match &self.tag {
            Some(t) => {
                v.push(':');
                push_str(&mut v, t.as_str());
            },
            None => {},
        }
        string_of(&v)
    }
}


// ---------------------------------------------------------------------------
// hybrid resolution (explicit publisher, alias, or implicit self)
// ---------------------------------------------------------------------------

/// What alias `a` resolves to under the alias entries `av`, if anything.
pub open spec fn alias_resolution(av: Seq<(Seq<char>, Seq<char>)>, a: Seq<char>) -> Option<
    (Seq<u8>, Option<Seq<char>>),
> {
    match alias_lookup(av, a) {
        Some(t) => match alias_target_from_text(t) {
            Ok(x) => Some(x),
            Err(_) => None,
        },
        None => None,
    }
}

/// How a registry repository path (no tag) resolves to `(publisher, name)`:
/// 1. `<64-hex>/<name>`: explicit publisher;
/// 2. `<alias>`: an alias for publisher/name;
/// 3. `<alias>/<name>`: an alias for a publisher;
/// 4. `<name>`: our own publisher.
pub open spec fn repo_resolution(repo0: Seq<char>, av: Seq<(Seq<char>, Seq<char>)>, me: Seq<u8>) -> Result<
    (Seq<u8>, Seq<char>),
    Error,
> {
    let repo = trim_char(repo0, '/');
    let first = match find(repo, '/') {
        Some(i) => repo.subrange(0, i),
        None => repo,
    };
    let rest = match find(repo, '/') {
        Some(i) => Some(repo.subrange(i + 1, repo.len() as int)),
        None => None,
    };
    if repo.len() == 0 {
        Err(Error::EmptyRepository)
    } else if lower_hex_text(first) {
        match rest {
            None => Err(Error::MissingImageName),
            Some(n) => if !valid_name(n) {
                Err(Error::InvalidName)
            } else {
                match publisher_from_text(first) {
                    Ok(p) => Ok((p, n)),
                    Err(e) => Err(e),
                }
            },
        }
    } else {
        match alias_resolution(av, repo) {
            Some((p, Some(n))) => Ok((p, n)),
            _ => match alias_resolution(av, first) {
                Some((p, None)) => match rest {
                    None => Err(Error::MissingImageName),
                    Some(n) => if valid_name(n) {
                        Ok((p, n))
                    } else {
                        Err(Error::InvalidName)
                    },
                },
                _ => if valid_name(repo) {
                    Ok((me, repo))
                } else {
                    Err(Error::InvalidName)
                },
            },
        }
    }
}

/// The first `/`-separated component of a path.
pub open spec fn first_component(repo: Seq<char>) -> Seq<char> {
    match find(repo, '/') {
        Some(i) => repo.subrange(0, i),
        None => repo,
    }
}

/// A repository path that is neither explicit (its first component is not a
/// 64-hex key) nor an alias (no alias is set for it or for its first
/// component) names an image of our own publisher, and the whole path, with
/// leading and trailing `/` dropped, is the image's name: every component is
/// kept, none is cut off.
pub proof fn lemma_resolve_own_whole_path(
    repo0: Seq<char>,
    av: Seq<(Seq<char>, Seq<char>)>,
    me: Seq<u8>,
)
    requires
        valid_name(trim_char(repo0, '/')),
        !lower_hex_text(first_component(trim_char(repo0, '/'))),
        alias_lookup(av, trim_char(repo0, '/')) is None,
        alias_lookup(av, first_component(trim_char(repo0, '/'))) is None,
    ensures
        repo_resolution(repo0, av, me) == Ok::<(Seq<u8>, Seq<char>), Error>(
            (me, trim_char(repo0, '/')),
        ),
{
}

/// The same for a whole reference `repo[:tag]` (`ImageRef::parse`): the name is
/// the whole repository path and the tag is the one given.
pub proof fn lemma_parse_own_whole_path(
    s: Seq<char>,
    av: Seq<(Seq<char>, Seq<char>)>,
    me: Seq<u8>,
    repo: Seq<char>,
    tag: Option<Seq<char>>,
)
    requires
        !starts_with(trim(s), "did:key:"@),
        name_and_tag(trim(s)) == Ok::<(Seq<char>, Option<Seq<char>>), Error>((repo, tag)),
        valid_name(trim_char(repo, '/')),
        !lower_hex_text(first_component(trim_char(repo, '/'))),
        alias_lookup(av, trim_char(repo, '/')) is None,
        alias_lookup(av, first_component(trim_char(repo, '/'))) is None,
    ensures
        hybrid_reference(s, av, me) == Ok::<(Seq<u8>, Seq<char>, Option<Seq<char>>), Error>(
            (me, trim_char(repo, '/'), tag),
        ),
{
    lemma_resolve_own_whole_path(repo, av, me);
}

/// How a reference is read in the hybrid scheme: a did:key reference is
/// explicit; anything else is `repo[:tag]` with the repository resolved.
pub open spec fn hybrid_reference(s: Seq<char>, av: Seq<(Seq<char>, Seq<char>)>, me: Seq<u8>) -> Result<
    (Seq<u8>, Seq<char>, Option<Seq<char>>),
    Error,
> {
    let t = trim(s);
    if starts_with(t, "did:key:"@) {
        explicit_reference(t)
    } else {
        match name_and_tag(t) {
            Err(e) => Err(e),
            Ok((repo, tag)) => match repo_resolution(repo, av, me) {
                Err(e) => Err(e),
                Ok((p, n)) => Ok((p, n, tag)),
            },
        }
    }
}

/// Resolves a registry repository path (no tag) to `(publisher, name)`.
pub fn resolve_repo(repo: &str, policy: &Policy, self_id: &PublisherId) -> (r: Result<
    (PublisherId, String),
    Error,
>)
    ensures
        match r {
            Ok((p, n)) => repo_resolution(repo@, alias_views(policy.alias@), self_id@) == Ok::<
                (Seq<u8>, Seq<char>),
                Error,
            >((p@, n@)),
            Err(e) => repo_resolution(repo@, alias_views(policy.alias@), self_id@) == Err::<
                (Seq<u8>, Seq<char>),
                Error,
            >(e),
        },
{
    let v0 = chars_of(repo);
    let v = trim_char_chars(&v0, '/');
    if v.len() == 0 {
        return Err(Error::EmptyRepository);
    }
    let n = v.len();
    let (first, rest) = match find_char(&v, '/') {
        Some(i) => {
            proof {
                lemma_find(v@, '/');
            }
            (slice_chars(&v, 0, i), Some(slice_chars(&v, i + 1, n)))
        },
        None => (slice_chars(&v, 0, n), None),
    };
    assert(v@.subrange(0, n as int) =~= v@);
    let first_s = string_of(&first);
    let repo_s = string_of(&v);
    if is_hex_publisher(first_s.as_str()) {
        let name = match rest {
            None => return Err(Error::MissingImageName),
            Some(x) => x,
        };
        let name_s = string_of(&name);
        match validate_name(name_s.as_str()) {
            Ok(()) => {},
            Err(e) => return Err(e),
        }
        return match parse_publisher(first_s.as_str()) {
            Ok(p) => Ok((p, name_s)),
            Err(e) => Err(e),
        };
    }
    match policy.resolve_alias(repo_s.as_str()) {
        Some(AliasTarget::Image { publisher, name }) => {
            return Ok((publisher, name));
        },
        _ => {},
    }
    match policy.resolve_alias(first_s.as_str()) {
        Some(AliasTarget::Publisher(p)) => {
            let name = match rest {
                None => return Err(Error::MissingImageName),
                Some(x) => x,
            };
            let name_s = string_of(&name);
            return match validate_name(name_s.as_str()) {
                Ok(()) => Ok((p, name_s)),
                Err(e) => Err(e),
            };
        },
        _ => {},
    }
    match validate_name(repo_s.as_str()) {
        Ok(()) => Ok((*self_id, repo_s)),
        Err(e) => Err(e),
    }
}

impl ImageRef {
    /// Hybrid parse: explicit publisher, alias, or implicit self.
    pub fn parse(s: &str, policy: &Policy, self_id: &PublisherId) -> (r: Result<ImageRef, Error>)
        ensures
            match r {
                Ok(x) => hybrid_reference(s@, alias_views(policy.alias@), self_id@) == Ok::<
                    (Seq<u8>, Seq<char>, Option<Seq<char>>),
                    Error,
                >((x.publisher@, x.name@, opt_view(x.tag))),
                Err(e) => hybrid_reference(s@, alias_views(policy.alias@), self_id@) == Err::<
                    (Seq<u8>, Seq<char>, Option<Seq<char>>),
                    Error,
                >(e),
            },
    {
        let v = chars_of(s);
        let t = trim_chars(&v);
        let ts = string_of(&t);
        if has_prefix(&t, "did:key:") {
            proof {
                lemma_trim_idem(s@);
            }
            return ImageRef::parse_explicit(ts.as_str());
        }
        let (repo, tag) = match split_tag_chars(&t) {
            Ok(x) => x,
            Err(e) => return Err(e),
        };
        match resolve_repo(repo.as_str(), policy, self_id) {
            Ok((publisher, name)) => Ok(ImageRef { publisher, name, tag }),
            Err(e) => Err(e),
        }
    }
}

} // verus!
