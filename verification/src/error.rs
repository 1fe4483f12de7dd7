//! The library's error type: one variant per way an input is refused.

use vstd::prelude::*;

verus! {

/// Why an operation refused its input.
#[derive(Debug, Clone, Copy, PartialEq, Eq, Structural)]
pub enum Error {
    /// A publisher id that is neither a valid hex / base32 key nor a did:key.
    InvalidPublisher,
    /// A did:key whose method-specific part does not start with `z` (base58btc).
    DidKeyEncoding,
    /// A did:key whose payload is not valid base58.
    DidKeyBase58,
    /// A did:key that does not carry an ed25519 multicodec key.
    DidKeyNotEd25519,
    /// A did:key whose 32 key bytes are not an Ed25519 point.
    DidKeyInvalid,
    /// A signature that does not verify.
    BadSignature,
    /// A secret key file that is not hex.
    SecretKeyNotHex,
    /// A secret key that is not 32 bytes long.
    SecretKeyLength,
    /// A digest with another algorithm than sha256.
    UnsupportedDigest,
    /// A sha256 digest that is not 64 lowercase hex characters.
    MalformedDigest,
    /// An image name that breaks the OCI naming rules.
    InvalidName,
    /// A tag that breaks the OCI tag rules.
    InvalidTag,
    /// A reference without the `<publisher>/` part.
    MissingPublisher,
    /// An empty repository path.
    EmptyRepository,
    /// A publisher (or publisher alias) without an image name after it.
    MissingImageName,
    /// A mode that is not `full`, `latest` or `last:N`.
    ModeSyntax,
    /// `last:N` where `N` is not a number.
    ModeNumber,
    /// `last:0`.
    ModeZero,
    /// An alias that is not lowercase `[a-z0-9._-]` or looks like a key.
    InvalidAlias,
    /// An alias target that is neither `<publisher>` nor `<publisher>/<name>`.
    AliasTarget,
    /// A policy rule for an image this node publishes itself (always kept).
    OwnImage,
    /// A pin without a tag.
    PinWithoutTag,
    /// A release record of an unknown format version.
    ReleaseVersion,
    /// A release signature that is not hex.
    SignatureNotHex,
    /// A release signature that is not 64 bytes long.
    SignatureLength,
    /// `rm --all` together with a tag.
    AllWithTag,
    /// `rm` without a tag and without `--all`.
    MissingTag,
    /// A push into another publisher's namespace.
    ForeignNamespace,
    /// A manifest that references a blob the node does not hold.
    BlobUnknown,
    /// A manifest whose digest differs from the one in the reference.
    DigestMismatch,
    /// A blob whose size differs from its record.
    SizeMismatch,
    /// A home directory that cannot be determined.
    NoHome,
    /// A BLAKE3 hash text that is not hex.
    HashNotHex,
    /// A BLAKE3 hash that is not 32 bytes long.
    HashLength,
}

} // verus!
