//! Node identity: one Ed25519 key pair, used both as the transport identity and
//! as the publisher signing key.
//!
//! A public key has two textual forms: 64 lowercase hex characters (valid
//! inside OCI repository paths) and `did:key:z6Mk...` (multicodec `0xed01`
//! followed by the key, base58btc).

use vstd::prelude::*;
use vstd::utf8::{encode_utf8, is_ascii_chars, is_ascii_chars_encode_utf8};
use crate::error::Error;
use crate::text::{
    chars_of, has_prefix, hex_bytes, hex_decode, hex_encode, hex_string, is_alnum, is_hex_digit, is_lower_hex,
    is_white, lemma_hex_roundtrip, lemma_trim_noop, push_str, slice_chars, starts_with,
    string_of, trim, trim_chars,
};

verus! {

// ---------------------------------------------------------------------------
// what the outside crates compute
// ---------------------------------------------------------------------------

/// Whether `iroh_base::PublicKey::from_bytes` accepts these 32 bytes (they
/// decompress to an Ed25519 curve point).
pub uninterp spec fn ed25519_point(bytes: Seq<u8>) -> bool;

/// The public key bytes of a secret key (`iroh_base::SecretKey::public`).
pub uninterp spec fn ed25519_public(secret: Seq<u8>) -> Seq<u8>;

/// The signature `iroh_base::SecretKey::sign` makes over `msg`.
pub uninterp spec fn ed25519_signature(secret: Seq<u8>, msg: Seq<u8>) -> Seq<u8>;

/// Whether `sig` is accepted for `msg` by the key with bytes `public`
/// (`iroh_base::PublicKey::from_bytes` then `verify`, which is ed25519-dalek's
/// `verify_strict`).
pub uninterp spec fn ed25519_verifies(public: Seq<u8>, msg: Seq<u8>, sig: Seq<u8>) -> bool;

/// What `<iroh_base::PublicKey as FromStr>::from_str` returns for a text whose
/// UTF-8 form is not 64 bytes long (it reads such a text as base32).
pub uninterp spec fn iroh_base32_key(text: Seq<char>) -> Option<Seq<u8>>;

/// What `<iroh_base::PublicKey as FromStr>::from_str` returns: a text of 64
/// bytes is lowercase hex (anything else there is refused) whose key must be a
/// curve point; other texts are base32, whose alphabet holds only ASCII
/// letters and digits, and must give 32 bytes that are a curve point.
pub open spec fn iroh_key_text(text: Seq<char>) -> Option<Seq<u8>> {
    if encode_utf8(text).len() == 64 {
        if lower_hex_text(text) && ed25519_point(hex_decode(text)->0) {
            Some(hex_decode(text)->0)
        } else {
            None
        }
    } else if forall|i: int| 0 <= i < text.len() ==> is_alnum(#[trigger] text[i]) {
        match iroh_base32_key(text) {
            Some(b) => if b.len() == 32 && ed25519_point(b) {
                Some(b)
            } else {
                None
            },
            None => None,
        }
    } else {
        None
    }
}

/// The base58 (Bitcoin alphabet) text of `bytes` (`bs58::encode`).
pub uninterp spec fn base58_text(bytes: Seq<u8>) -> Seq<char>;

/// The bytes spelled by base58 `text`, if it is base58 (`bs58::decode`).
pub uninterp spec fn base58_bytes(text: Seq<char>) -> Option<Seq<u8>>;

/// `iroh_base::PublicKey::from_bytes(bytes).is_ok()`. Which byte strings are
/// curve points is not stated; the result is named.
#[verifier::external_body]
fn point_valid(bytes: &[u8; 32]) -> (ok: bool)
    ensures
        ok == ed25519_point(bytes@),
{
    iroh_base::PublicKey::from_bytes(bytes).is_ok()
}

/// `iroh_base::SecretKey::from_bytes(secret).public()`: the derived public key,
/// which is always a curve point (iroh documents that `from_bytes` never fails
/// on bytes that came from a key).
#[verifier::external_body]
fn public_of(secret: &[u8; 32]) -> (public: [u8; 32])
    ensures
        public@ == ed25519_public(secret@),
        ed25519_point(public@),
{
    *iroh_base::SecretKey::from_bytes(secret).public().as_bytes()
}

/// `iroh_base::SecretKey::sign`: the Ed25519 signature of `msg`. A signature made
/// with a secret key verifies under that key's public key.
#[verifier::external_body]
fn sign_with(secret: &[u8; 32], msg: &[u8]) -> (sig: [u8; 64])
    ensures
        sig@ == ed25519_signature(secret@, msg@),
        ed25519_verifies(ed25519_public(secret@), msg@, sig@),
{
    iroh_base::SecretKey::from_bytes(secret).sign(msg).to_bytes()
}

/// `iroh_base::PublicKey::from_bytes` followed by `verify`; a key that is not a
/// curve point verifies nothing.
#[verifier::external_body]
fn verify_with(public: &[u8; 32], msg: &[u8], sig: &[u8; 64]) -> (ok: bool)
    ensures
        ok == ed25519_verifies(public@, msg@, sig@),
{
    match iroh_base::PublicKey::from_bytes(public) {
        Ok(pk) => pk.verify(msg, &iroh_base::Signature::from_bytes(sig)).is_ok(),
        Err(_) => false,
    }
}

/// `iroh_base::SecretKey::generate().to_bytes()`: fresh random secret key bytes.
#[verifier::external_body]
fn random_secret() -> (secret: [u8; 32]) {
    iroh_base::SecretKey::generate().to_bytes()
}

/// `<iroh_base::PublicKey as FromStr>::from_str`: for a text of 64 bytes its
/// source decodes lowercase hex (`HEXLOWER`) and checks the point; other texts
/// are upper-cased and decoded as `BASE32_NOPAD` (alphabet `A-Z2-7`, so a text
/// with any other character is refused), whose result is named. It ends in
/// `PublicKey::from_bytes`, so every key it returns is a curve point.
#[verifier::external_body]
fn key_from_text(text: &str) -> (r: Option<[u8; 32]>)
    ensures
        match r {
            Some(b) => iroh_key_text(text@) == Some(b@) && ed25519_point(b@),
            None => iroh_key_text(text@) is None,
        },
        encode_utf8(text@).len() != 64 && r is Some ==> iroh_base32_key(text@) == Some(r->0@),
{
    match text.parse::<iroh_base::PublicKey>() {
        Ok(pk) => Some(*pk.as_bytes()),
        Err(_) => None,
    }
}

/// `bs58::encode(bytes).into_string()`: base58 text, made of ASCII letters and
/// digits only, that `bs58::decode` reads back to `bytes`.
#[verifier::external_body]
fn base58_encode(bytes: &[u8]) -> (s: String)
    ensures
        s@ == base58_text(bytes@),
        base58_bytes(s@) == Some(bytes@),
        forall|i: int| 0 <= i < s@.len() ==> is_alnum(#[trigger] s@[i]),
{
    bs58::encode(bytes).into_string()
}

/// `bs58::decode(text).into_vec()`, with the error mapped to `None`.
#[verifier::external_body]
fn base58_decode(text: &str) -> (r: Option<Vec<u8>>)
    ensures
        match r {
            Some(v) => base58_bytes(text@) == Some(v@),
            None => base58_bytes(text@) is None,
        },
{
    bs58::decode(text).into_vec().ok()
}

// ---------------------------------------------------------------------------
// publisher ids
// ---------------------------------------------------------------------------

/// 64 lowercase hex characters: the form used in registry paths.
pub open spec fn lower_hex_text(s: Seq<char>) -> bool {
    s.len() == 64 && forall|i: int| 0 <= i < s.len() ==> is_lower_hex(#[trigger] s[i])
}

/// A publisher: the 32 bytes of an Ed25519 public key.
#[derive(Debug, Clone, Copy)]
pub struct PublisherId {
    bytes: [u8; 32],
}

impl View for PublisherId {
    type V = Seq<u8>;

    closed spec fn view(&self) -> Seq<u8> {
        self.bytes@
    }
}

/// A publisher's key is 32 bytes.
pub proof fn lemma_publisher_len(p: PublisherId)
    ensures
        p@.len() == 32,
{
}

/// Two publishers with the same key bytes are the same value.
pub proof fn lemma_publisher_eq(a: PublisherId, b: PublisherId)
    requires
        a@ == b@,
    ensures
        a == b,
{
    broadcast use vstd::array::group_array_axioms;

    assert(a.bytes =~= b.bytes) by {
        assert forall|i: int| 0 <= i < 32 implies a.bytes[i] == b.bytes[i] by {
            assert(a.bytes@[i] == b.bytes@[i]);
        }
    }
}

fn bytes32_eq(a: &[u8; 32], b: &[u8; 32]) -> (r: bool)
    ensures
        r == (a@ == b@),
{
    let mut i: usize = 0;
    while i < 32
        invariant
            0 <= i <= 32,
            a@.len() == 32,
            b@.len() == 32,
            forall|j: int| 0 <= j < i ==> a@[j] == b@[j],
        decreases 32 - i,
    {
        if a[i] != b[i] {
            return false;
        }
        i = i + 1;
    }
    assert(a@ =~= b@);
    true
}

impl PartialEq for PublisherId {
    fn eq(&self, other: &Self) -> (r: bool) {
        bytes32_eq(&self.bytes, &other.bytes)
    }
}

impl Eq for PublisherId {

}

impl vstd::std_specs::cmp::PartialEqSpecImpl for PublisherId {
    open spec fn obeys_eq_spec() -> bool {
        true
    }

    open spec fn eq_spec(&self, other: &Self) -> bool {
        self@ == other@
    }
}

/// The first 32 bytes of `v` as an array.
pub fn to_array32(v: &[u8]) -> (a: [u8; 32])
    requires
        v@.len() >= 32,
    ensures
        a@ == v@.subrange(0, 32),
{
    let mut a: [u8; 32] = [0u8; 32];
    let mut i: usize = 0;
    while i < 32
        invariant
            0 <= i <= 32,
            v@.len() >= 32,
            a@.len() == 32,
            forall|j: int| 0 <= j < i ==> a@[j] == v@[j],
        decreases 32 - i,
    {
        a[i] = v[i];
        i = i + 1;
    }
    assert(a@ =~= v@.subrange(0, 32));
    a
}

impl PublisherId {
    /// Every publisher id is a curve point.
    #[verifier::type_invariant]
    spec fn is_point(self) -> bool {
        ed25519_point(self.bytes@)
    }

    /// A publisher id is always a curve point.
    pub fn point(&self) -> (ok: bool)
        ensures
            ok,
            ed25519_point(self@),
            self@.len() == 32,
    {
        proof {
            use_type_invariant(self);
        }
        true
    }

    /// The key with these bytes, if they are an Ed25519 point.
    pub fn from_bytes(bytes: &[u8; 32]) -> (r: Result<PublisherId, Error>)
        ensures
            match r {
                Ok(p) => ed25519_point(bytes@) && p@ == bytes@,
                Err(e) => !ed25519_point(bytes@) && e == Error::InvalidPublisher,
            },
    {
        if point_valid(bytes) {
            Ok(PublisherId { bytes: *bytes })
        } else {
            Err(Error::InvalidPublisher)
        }
    }

    pub fn as_bytes(&self) -> (b: &[u8; 32])
        ensures
            b@ == self@,
    {
        &self.bytes
    }

    /// Lowercase hex, 64 characters (iroh's `Display`); `parse_publisher`
    /// reads it back.
    pub fn to_string(&self) -> (s: String)
        ensures
            s@ == hex_encode(self@),
            lower_hex_text(s@),
            publisher_from_text(s@) == Ok::<Seq<u8>, Error>(self@),
    {
        proof {
            use_type_invariant(self);
            lemma_hex_publisher_roundtrip(self.bytes@);
        }
        hex_string(self.bytes.as_slice())
    }

    /// The first five bytes in hex, for messages.
    pub fn fmt_short(&self) -> (s: String)
        ensures
            s@ == hex_encode(self@.subrange(0, 5)),
    {
        let mut b: Vec<u8> = Vec::new();
        let mut i: usize = 0;
        while i < 5
            invariant
                0 <= i <= 5,
                self.bytes@.len() == 32,
                b@ == self.bytes@.subrange(0, i as int),
            decreases 5 - i,
        {
            b.push(self.bytes[i]);
            i = i + 1;
        }
        hex_string(&b)
    }
}

/// `did:key:z` followed by the base58 text of `0xed 0x01 ++ key`.
pub open spec fn did_key_text(key: Seq<u8>) -> Seq<char> {
    "did:key:z"@ + base58_text(seq![0xedu8, 0x01u8] + key)
}

/// Renders a public key as `did:key:z6Mk...`.
pub fn did_key(pk: &PublisherId) -> (s: String)
    ensures
        s@ == did_key_text(pk@),
        publisher_from_text(s@) == Ok::<Seq<u8>, Error>(pk@),
{
    proof {
        use_type_invariant(pk);
    }
    let mut buf: Vec<u8> = Vec::new();
    buf.push(0xedu8);
    buf.push(0x01u8);
    let mut i: usize = 0;
    while i < 32
        invariant
            0 <= i <= 32,
            pk.bytes@.len() == 32,
            buf@ == seq![0xedu8, 0x01u8] + pk.bytes@.subrange(0, i as int),
        decreases 32 - i,
    {
        buf.push(pk.bytes[i]);
        i = i + 1;
    }
    assert(pk.bytes@.subrange(0, 32) =~= pk.bytes@);
    let enc = base58_encode(&buf);
    let mut v = chars_of("did:key:z");
    push_str(&mut v, enc.as_str());
    proof {
        reveal_strlit("did:key:z");
        reveal_strlit("did:key:");
        let t = v@;
        assert(t.len() >= 9);
        assert(!is_white(t[0]));
        assert(!is_white(t.last())) by {
            if enc@.len() > 0 {
                assert(t.last() == enc@[enc@.len() - 1]);
                assert(is_alnum(enc@[enc@.len() - 1]));
            }
        }
        lemma_trim_noop(t);
        assert(t.subrange(0, 8) =~= "did:key:"@);
        let body = t.subrange(8, t.len() as int);
        assert(body.drop_first() =~= enc@);
        let b = buf@;
        assert(b.subrange(2, 34) =~= pk.bytes@);
    }
    string_of(&v)
}

/// The hex form of a valid key is read back as that key.
pub proof fn lemma_hex_publisher_roundtrip(key: Seq<u8>)
    requires
        key.len() == 32,
        ed25519_point(key),
    ensures
        lower_hex_text(hex_encode(key)),
        publisher_from_text(hex_encode(key)) == Ok::<Seq<u8>, Error>(key),
{
    let s = hex_encode(key);
    assert forall|i: int| 0 <= i < s.len() implies is_lower_hex(#[trigger] s[i]) by {
        let d = if i % 2 == 0 { key[i / 2] / 16 } else { key[i / 2] % 16 };
        assert(d < 16);
    }
    assert(is_ascii_chars(s));
    is_ascii_chars_encode_utf8(s);
    lemma_trim_noop(s);
    reveal_strlit("did:key:");
    assert(!starts_with(s, "did:key:"@)) by {
        assert(s[1] != 'i');
        if starts_with(s, "did:key:"@) {
            assert(s.subrange(0, 8)[1] == "did:key:"@[1]);
        }
    }
    lemma_hex_roundtrip(key);
}

/// How `parse_publisher` reads a did:key body (the text after `did:key:`).
pub open spec fn did_body_key(body: Seq<char>) -> Result<Seq<u8>, Error> {
    if !(body.len() > 0 && body[0] == 'z') {
        Err(Error::DidKeyEncoding)
    } else {
        match base58_bytes(body.drop_first()) {
            None => Err(Error::DidKeyBase58),
            Some(b) => if b.len() != 34 || b[0] != 0xedu8 || b[1] != 0x01u8 {
                Err(Error::DidKeyNotEd25519)
            } else if ed25519_point(b.subrange(2, 34)) {
                Ok(b.subrange(2, 34))
            } else {
                Err(Error::DidKeyInvalid)
            },
        }
    }
}

/// A publisher id read from hex, base32 or `did:key:z...`, after trimming
/// whitespace: the key bytes, or why the text is refused.
pub open spec fn publisher_from_text(s: Seq<char>) -> Result<Seq<u8>, Error> {
    let t = trim(s);
    if starts_with(t, "did:key:"@) {
        did_body_key(t.subrange(8, t.len() as int))
    } else {
        match iroh_key_text(t) {
            Some(b) => Ok(b),
            None => Err(Error::InvalidPublisher),
        }
    }
}

/// Parses a publisher id from hex, base32 or `did:key:z...`.
pub fn parse_publisher(s: &str) -> (r: Result<PublisherId, Error>)
    ensures
        match r {
            Ok(p) => publisher_from_text(s@) == Ok::<Seq<u8>, Error>(p@) && ed25519_point(p@),
            Err(e) => publisher_from_text(s@) == Err::<Seq<u8>, Error>(e),
        },
{
    let v = chars_of(s);
    let t = trim_chars(&v);
    if has_prefix(&t, "did:key:") {
        proof {
            reveal_strlit("did:key:");
        }
        let body = slice_chars(&t, 8, t.len());
        if !(body.len() > 0 && body[0] == 'z') {
            return Err(Error::DidKeyEncoding);
        }
        let b58 = slice_chars(&body, 1, body.len());
        assert(b58@ =~= body@.drop_first());
        let b58s = string_of(&b58);
        match base58_decode(b58s.as_str()) {
            None => Err(Error::DidKeyBase58),
            Some(bytes) => {
                if bytes.len() != 34 || bytes[0] != 0xedu8 || bytes[1] != 0x01u8 {
                    return Err(Error::DidKeyNotEd25519);
                }
                let tail = slice_u8(&bytes, 2, 34);
                let key = to_array32(&tail);
                assert(key@ =~= bytes@.subrange(2, 34));
                if point_valid(&key) {
                    Ok(PublisherId { bytes: key })
                } else {
                    Err(Error::DidKeyInvalid)
                }
            },
        }
    } else {
        let ts = string_of(&t);
        match key_from_text(ts.as_str()) {
            Some(b) => {
                Ok(PublisherId { bytes: b })
            },
            None => Err(Error::InvalidPublisher),
        }
    }
}

/// `v[from..to]` of bytes.
pub fn slice_u8(v: &[u8], from: usize, to: usize) -> (r: Vec<u8>)
    requires
        from <= to <= v@.len(),
    ensures
        r@ == v@.subrange(from as int, to as int),
{
    let mut r: Vec<u8> = Vec::new();
    let mut i = from;
    while i < to
        invariant
            from <= i <= to <= v@.len(),
            r@ == v@.subrange(from as int, i as int),
        decreases to - i,
    {
        r.push(v[i]);
        i = i + 1;
    }
    r
}

/// True if `s` is 64 lowercase hex characters (the form used in registry paths).
pub fn is_hex_publisher(s: &str) -> (r: bool)
    ensures
        r == lower_hex_text(s@),
{
    let v = chars_of(s);
    if v.len() != 64 {
        return false;
    }
    let mut i: usize = 0;
    while i < v.len()
        invariant
            v@ == s@,
            0 <= i <= v@.len(),
            forall|j: int| 0 <= j < i ==> is_lower_hex(#[trigger] v@[j]),
        decreases v@.len() - i,
    {
        if !crate::text::lower_hex(v[i]) {
            return false;
        }
        i = i + 1;
    }
    true
}

/// Verifies `sig` over `msg` by `pk`.
pub fn verify(pk: &PublisherId, msg: &[u8], sig: &[u8; 64]) -> (r: Result<(), Error>)
    ensures
        r is Ok <==> ed25519_verifies(pk@, msg@, sig@),
        r is Err ==> r == Err::<(), Error>(Error::BadSignature),
{
    if verify_with(&pk.bytes, msg, sig) {
        Ok(())
    } else {
        Err(Error::BadSignature)
    }
}

// ---------------------------------------------------------------------------
// identity
// ---------------------------------------------------------------------------

/// The node's key pair, held as the 32 secret bytes.
#[derive(Clone, Copy)]
pub struct Identity {
    secret: [u8; 32],
}

impl View for Identity {
    type V = Seq<u8>;

    closed spec fn view(&self) -> Seq<u8> {
        self.secret@
    }
}

/// The 32 secret-key bytes a secret key file holds: hex (either case) after
/// trimming whitespace.
pub open spec fn secret_from_text(text: Seq<char>) -> Result<Seq<u8>, Error> {
    match hex_decode(trim(text)) {
        None => Err(Error::SecretKeyNotHex),
        Some(b) => if b.len() == 32 {
            Ok(b)
        } else {
            Err(Error::SecretKeyLength)
        },
    }
}

impl Identity {
    /// A fresh random identity.
    pub fn generate() -> (id: Identity) {
        Identity { secret: random_secret() }
    }

    /// The identity with these secret-key bytes.
    pub fn from_secret_bytes(secret: &[u8; 32]) -> (id: Identity)
        ensures
            id@ == secret@,
    {
        Identity { secret: *secret }
    }

    /// Reads the contents of a secret key file.
    pub fn from_secret_text(text: &str) -> (r: Result<Identity, Error>)
        ensures
            match r {
                Ok(id) => secret_from_text(text@) == Ok::<Seq<u8>, Error>(id@),
                Err(e) => secret_from_text(text@) == Err::<Seq<u8>, Error>(e),
            },
    {
        let v = chars_of(text);
        let t = trim_chars(&v);
        match hex_bytes(&t) {
            None => Err(Error::SecretKeyNotHex),
            Some(b) => {
                if b.len() != 32 {
                    return Err(Error::SecretKeyLength);
                }
                let a = to_array32(&b);
                assert(a@ =~= b@);
                Ok(Identity { secret: a })
            },
        }
    }

    /// What a secret key file holds: the secret bytes in lowercase hex.
    pub fn secret_text(&self) -> (s: String)
        ensures
            s@ == hex_encode(self@),
            secret_from_text(s@) == Ok::<Seq<u8>, Error>(self@),
    {
        proof {
            let h = hex_encode(self.secret@);
            lemma_hex_roundtrip(self.secret@);
            assert(is_hex_digit(h[0]));
            assert(is_hex_digit(h[h.len() - 1]));
            lemma_trim_noop(h);
        }
        hex_string(self.secret.as_slice())
    }

    pub fn secret(&self) -> (s: &[u8; 32])
        ensures
            s@ == self@,
    {
        &self.secret
    }

    /// The public key, which is the publisher id.
    pub fn id(&self) -> (p: PublisherId)
        ensures
            p@ == ed25519_public(self@),
            ed25519_point(p@),
    {
        PublisherId { bytes: public_of(&self.secret) }
    }

    pub fn did(&self) -> (s: String)
        ensures
            s@ == did_key_text(ed25519_public(self@)),
    {
        let p = self.id();
        did_key(&p)
    }

    /// Signs `msg`; the signature verifies under `self.id()`.
    pub fn sign(&self, msg: &[u8]) -> (sig: [u8; 64])
        ensures
            sig@ == ed25519_signature(self@, msg@),
            ed25519_verifies(ed25519_public(self@), msg@, sig@),
    {
        sign_with(&self.secret, msg)
    }
}

} // verus!
