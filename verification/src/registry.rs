//! Decisions of the embedded OCI distribution registry and control API:
//! request routing, byte ranges, push permissions and reference checks.

use vstd::prelude::*;
use crate::error::Error;
use crate::identity::PublisherId;
use crate::oci::{
    digest_from_text, is_manifest_media_type, manifest_media_type, opt_view, valid_tag,
    validate_tag, Descriptor, Digest,
};
use crate::release::{BlobRef, Referrer, Release};
use crate::seqs::kept;
use crate::text::{
    chars_is, chars_of, contains_seq, ends_with, find, find_char, has_infix, has_prefix,
    has_suffix, lemma_find, owned, parse_u64, parse_u64_chars, push_str, slice_chars, starts_with,
    str_eq, string_of, trim, trim_chars, trim_end_char, trim_end_char_chars, texts_view, dec,
    push_dec,
};

verus! {

// ---------------------------------------------------------------------------
// routing
// ---------------------------------------------------------------------------

/// What a `/v2/<path>` request addresses.
#[derive(Debug)]
pub enum Route {
    Catalog,
    Tags { name: String },
    Manifest { name: String, reference: String },
    UploadStart { name: String },
    Upload { name: String, id: String },
    Blob { name: String, digest: String },
    Referrers { name: String, digest: String },
}

/// The last position where `pat` occurs in `s`, searching positions below `i`.
pub open spec fn rfind_below(s: Seq<char>, pat: Seq<char>, i: int) -> Option<int>
    decreases i,
{
    if i <= 0 {
        None
    } else if i - 1 + pat.len() <= s.len() && s.subrange(i - 1, i - 1 + pat.len()) == pat {
        Some(i - 1)
    } else {
        rfind_below(s, pat, i - 1)
    }
}

/// The last position where `pat` occurs in `s` (std's `str::rfind`).
pub open spec fn rfind_text(s: Seq<char>, pat: Seq<char>) -> Option<int> {
    rfind_below(s, pat, s.len() as int + 1)
}

fn rfind_text_exec(s: &[char], pat: &str) -> (r: Option<usize>)
    ensures
        match r {
            Some(i) => rfind_text(s@, pat@) == Some(i as int) && i + pat@.len() <= s@.len(),
            None => rfind_text(s@, pat@) is None,
        },
{
    let pv = chars_of(pat);
    let n = s.len();
    let m = pv.len();
    let mut i: usize = n;
    loop
        invariant
            0 <= i <= n,
            n == s@.len(),
            m == pv@.len(),
            pv@ == pat@,
            rfind_text(s@, pat@) == rfind_below(s@, pat@, i + 1),
        decreases i,
    {
        if m <= n && i <= n - m {
            let piece = slice_chars(s, i, i + m);
            if crate::text::chars_eq(&piece, &pv) {
                return Some(i);
            }
        }
        if i == 0 {
            assert(rfind_below(s@, pat@, 0) is None);
            return None;
        }
        i = i - 1;
    }
}

/// How a `/v2/<path>` is routed: trailing `/` dropped, then `_catalog`,
/// `<name>/tags/list`, `<name>/blobs/uploads[/<id>]`, `<name>/manifests/<ref>`,
/// `<name>/referrers/<digest>`, `<name>/blobs/<digest>`, each split at the
/// last occurrence of its marker.
pub open spec fn route_of(path: Seq<char>) -> Option<(int, Seq<char>, Seq<char>)> {
    let p = trim_end_char(path, '/');
    if p == "_catalog"@ {
        Some((0, Seq::empty(), Seq::empty()))
    } else if ends_with(p, "/tags/list"@) {
        Some((1, p.subrange(0, p.len() - 10), Seq::empty()))
    } else if rfind_text(p, "/blobs/uploads"@) is Some {
        let i = rfind_text(p, "/blobs/uploads"@)->0;
        let rest = p.subrange(i + 14, p.len() as int);
        if rest.len() == 0 || rest == seq!['/'] || rest[0] != '/' {
            Some((3, p.subrange(0, i), Seq::empty()))
        } else {
            Some((4, p.subrange(0, i), rest.drop_first()))
        }
    } else if rfind_text(p, "/manifests/"@) is Some {
        let i = rfind_text(p, "/manifests/"@)->0;
        Some((2, p.subrange(0, i), p.subrange(i + 11, p.len() as int)))
    } else if rfind_text(p, "/referrers/"@) is Some {
        let i = rfind_text(p, "/referrers/"@)->0;
        Some((6, p.subrange(0, i), p.subrange(i + 11, p.len() as int)))
    } else if rfind_text(p, "/blobs/"@) is Some {
        let i = rfind_text(p, "/blobs/"@)->0;
        Some((5, p.subrange(0, i), p.subrange(i + 7, p.len() as int)))
    } else {
        None
    }
}

/// A route as plain values: its kind (catalog 0, tags 1, manifest 2, upload
/// start 3, upload 4, blob 5, referrers 6) and its two texts.
pub open spec fn route_view(r: Route) -> (int, Seq<char>, Seq<char>) {
    match r {
        Route::Catalog => (0, Seq::empty(), Seq::empty()),
        Route::Tags { name } => (1, name@, Seq::empty()),
        Route::Manifest { name, reference } => (2, name@, reference@),
        Route::UploadStart { name } => (3, name@, Seq::empty()),
        Route::Upload { name, id } => (4, name@, id@),
        Route::Blob { name, digest } => (5, name@, digest@),
        Route::Referrers { name, digest } => (6, name@, digest@),
    }
}

proof fn lemma_rfind_below(s: Seq<char>, pat: Seq<char>, i: int)
    ensures
        rfind_below(s, pat, i) matches Some(k) ==> 0 <= k && k + pat.len() <= s.len()
            && s.subrange(k, k + pat.len()) == pat,
    decreases i,
{
    if i > 0 {
        lemma_rfind_below(s, pat, i - 1);
    }
}

/// A routed path is its parts put back together: with trailing `/` dropped,
/// the path is the name, the route's marker and the rest (the reference, the
/// digest or the upload id); an upload start is the name and the marker
/// `/blobs/uploads`, followed by text that does not open an id.
pub proof fn lemma_route_reassembles(path: Seq<char>)
    ensures
        ({
            let p = trim_end_char(path, '/');
            match route_of(path) {
                Some((k, name, rest)) => if k == 0 {
                    p == "_catalog"@
                } else if k == 1 {
                    p == name + "/tags/list"@
                } else if k == 2 {
                    p == name + "/manifests/"@ + rest
                } else if k == 3 {
                    p.len() >= name.len() + 14 && p.subrange(0, name.len() as int) == name
                        && p.subrange(name.len() as int, name.len() + 14int) == "/blobs/uploads"@
                } else if k == 4 {
                    p == name + "/blobs/uploads/"@ + rest
                } else if k == 5 {
                    p == name + "/blobs/"@ + rest
                } else {
                    k == 6 && p == name + "/referrers/"@ + rest
                },
                None => true,
            }
        }),
{
    reveal_strlit("/tags/list");
    reveal_strlit("/blobs/uploads");
    reveal_strlit("/blobs/uploads/");
    reveal_strlit("/manifests/");
    reveal_strlit("/referrers/");
    reveal_strlit("/blobs/");
    let p = trim_end_char(path, '/');
    lemma_rfind_below(p, "/blobs/uploads"@, p.len() as int + 1);
    lemma_rfind_below(p, "/manifests/"@, p.len() as int + 1);
    lemma_rfind_below(p, "/referrers/"@, p.len() as int + 1);
    lemma_rfind_below(p, "/blobs/"@, p.len() as int + 1);
    if p == "_catalog"@ {
    } else if ends_with(p, "/tags/list"@) {
        assert(p =~= p.subrange(0, p.len() - 10) + "/tags/list"@);
    } else if rfind_text(p, "/blobs/uploads"@) is Some {
        let i = rfind_text(p, "/blobs/uploads"@)->0;
        let rest = p.subrange(i + 14, p.len() as int);
        assert(p.subrange(i, i + 14) == "/blobs/uploads"@);
        if rest.len() == 0 || rest == seq!['/'] || rest[0] != '/' {
            assert(p.subrange(0, i).len() == i);
        } else {
            assert(p =~= p.subrange(0, i) + "/blobs/uploads/"@ + rest.drop_first()) by {
                assert(rest[0] == '/');
                assert forall|j: int| 0 <= j < p.len() implies p[j] == (p.subrange(0, i) + "/blobs/uploads/"@ + rest.drop_first())[j] by {
                    if j >= i && j < i + 14 {
                        assert(p[j] == p.subrange(i, i + 14)[j - i]);
                    } else if j == i + 14 {
                        assert(p[j] == rest[0]);
                    }
                }
            }
        }
    } else if rfind_text(p, "/manifests/"@) is Some {
        let i = rfind_text(p, "/manifests/"@)->0;
        assert(p.subrange(i, i + 11) == "/manifests/"@);
        assert(p =~= p.subrange(0, i) + p.subrange(i, i + 11) + p.subrange(i + 11, p.len() as int));
    } else if rfind_text(p, "/referrers/"@) is Some {
        let i = rfind_text(p, "/referrers/"@)->0;
        assert(p.subrange(i, i + 11) == "/referrers/"@);
        assert(p =~= p.subrange(0, i) + p.subrange(i, i + 11) + p.subrange(i + 11, p.len() as int));
    } else if rfind_text(p, "/blobs/"@) is Some {
        let i = rfind_text(p, "/blobs/"@)->0;
        assert(p.subrange(i, i + 7) == "/blobs/"@);
        assert(p =~= p.subrange(0, i) + p.subrange(i, i + 7) + p.subrange(i + 7, p.len() as int));
    }
}

/// Routes a `/v2/<path>` request.
pub fn route(path: &str) -> (r: Option<Route>)
    ensures
        match r {
            Some(x) => route_of(path@) == Some(route_view(x)),
            None => route_of(path@) is None,
        },
{
    let v = chars_of(path);
    let p = trim_end_char_chars(&v, '/');
    let n = p.len();
    if chars_is(&p, "_catalog") {
        return Some(Route::Catalog);
    }
    if has_suffix(&p, "/tags/list") {
        proof {
            reveal_strlit("/tags/list");
        }
        let name = slice_chars(&p, 0, n - 10);
        return Some(Route::Tags { name: string_of(&name) });
    }
    match rfind_text_exec(&p, "/blobs/uploads") {
        Some(i) => {
            proof {
                reveal_strlit("/blobs/uploads");
            }
            let name = string_of(&slice_chars(&p, 0, i));
            let rest = slice_chars(&p, i + 14, n);
            if rest.len() == 0 || rest[0] != '/' || rest.len() == 1 {
                assert(rest.len() == 1 && rest[0] == '/' ==> rest@ =~= seq!['/']);
                return Some(Route::UploadStart { name });
            }
            let id = slice_chars(&rest, 1, rest.len());
            assert(id@ =~= rest@.drop_first());
            assert(rest@ != seq!['/']);
            return Some(Route::Upload { name, id: string_of(&id) });
        },
        None => {},
    }
    match rfind_text_exec(&p, "/manifests/") {
        Some(i) => {
            proof {
                reveal_strlit("/manifests/");
            }
            let name = string_of(&slice_chars(&p, 0, i));
            let reference = string_of(&slice_chars(&p, i + 11, n));
            return Some(Route::Manifest { name, reference });
        },
        None => {},
    }
    match rfind_text_exec(&p, "/referrers/") {
        Some(i) => {
            proof {
                reveal_strlit("/referrers/");
            }
            let name = string_of(&slice_chars(&p, 0, i));
            let digest = string_of(&slice_chars(&p, i + 11, n));
            return Some(Route::Referrers { name, digest });
        },
        None => {},
    }
    match rfind_text_exec(&p, "/blobs/") {
        Some(i) => {
            proof {
                reveal_strlit("/blobs/");
            }
            let name = string_of(&slice_chars(&p, 0, i));
            let digest = string_of(&slice_chars(&p, i + 7, n));
            Some(Route::Blob { name, digest })
        },
        None => None,
    }
}

/// `/v2/<name>/blobs/uploads/<id>`
pub fn upload_location(name: &str, id: &str) -> (s: String)
    ensures
        s@ == "/v2/"@ + name@ + "/blobs/uploads/"@ + id@,
{
    let mut v = chars_of("/v2/");
    push_str(&mut v, name);
    push_str(&mut v, "/blobs/uploads/");
    push_str(&mut v, id);
    string_of(&v)
}

/// The coarse route family of a request path, for metrics labels.
pub open spec fn family(path: Seq<char>) -> Seq<char> {
    if path == "/metrics"@ {
        "metrics"@
    } else if starts_with(path, "/_ocid/"@) {
        "control"@
    } else if !starts_with(path, "/v2"@) {
        "other"@
    } else {
        let rest = path.subrange(3, path.len() as int);
        if rest.len() == 0 || rest == "/"@ {
            "root"@
        } else if rest == "/_catalog"@ {
            "catalog"@
        } else if ends_with(rest, "/tags/list"@) {
            "tags"@
        } else if contains_seq(rest, "/blobs/uploads"@) {
            "uploads"@
        } else if contains_seq(rest, "/manifests/"@) {
            "manifests"@
        } else if contains_seq(rest, "/blobs/"@) {
            "blobs"@
        } else {
            "other"@
        }
    }
}

/// The route families metrics are labelled with.
pub open spec fn route_families() -> Set<Seq<char>> {
    set![
        "root"@,
        "manifests"@,
        "blobs"@,
        "uploads"@,
        "tags"@,
        "catalog"@,
        "control"@,
        "metrics"@,
        "other"@,
    ]
}

/// Every path falls into one of the route families.
pub proof fn lemma_family_documented(path: Seq<char>)
    ensures
        route_families().contains(family(path)),
{
}

/// Maps a request path to a coarse route family: root, manifests, blobs,
/// uploads, tags, catalog, control, metrics, other.
pub fn route_family(path: &str) -> (r: &'static str)
    ensures
        r@ == family(path@),
{
    let v = chars_of(path);
    if chars_is(&v, "/metrics") {
        return "metrics";
    }
    if has_prefix(&v, "/_ocid/") {
        return "control";
    }
    if !has_prefix(&v, "/v2") {
        return "other";
    }
    proof {
        reveal_strlit("/v2");
    }
    let rest = slice_chars(&v, 3, v.len());
    if rest.len() == 0 || chars_is(&rest, "/") {
        "root"
    } else if chars_is(&rest, "/_catalog") {
        "catalog"
    } else if has_suffix(&rest, "/tags/list") {
        "tags"
    } else if has_infix(&rest, "/blobs/uploads") {
        "uploads"
    } else if has_infix(&rest, "/manifests/") {
        "manifests"
    } else if has_infix(&rest, "/blobs/") {
        "blobs"
    } else {
        "other"
    }
}

// ---------------------------------------------------------------------------
// byte ranges
// ---------------------------------------------------------------------------

/// How a `Range` header reads against a blob of `size` bytes: a single
/// `bytes=start-end`, `bytes=start-` or `bytes=-suffix`, as an inclusive
/// `(start, end)` inside the blob, or `None` when it is not satisfiable.
pub open spec fn range_of(spec: Seq<char>, size: u64) -> Option<(u64, u64)> {
    if !starts_with(spec, "bytes="@) {
        None
    } else {
        let s = trim(spec.subrange(6, spec.len() as int));
        if find(s, ',') is Some || size == 0 {
            None
        } else {
            match find(s, '-') {
                None => None,
                Some(i) => {
                    let a = trim(s.subrange(0, i));
                    let b = trim(s.subrange(i + 1, s.len() as int));
                    let se: Option<(u64, u64)> = if a.len() == 0 {
                        match parse_u64(b) {
                            None => None,
                            Some(n) => if n == 0 {
                                None
                            } else {
                                Some(
                                    (
                                        if n > size {
                                            0
                                        } else {
                                            (size - n) as u64
                                        },
                                        (size - 1) as u64,
                                    ),
                                )
                            },
                        }
                    } else if b.len() == 0 {
                        match parse_u64(a) {
                            None => None,
                            Some(x) => Some((x, (size - 1) as u64)),
                        }
                    } else {
                        match (parse_u64(a), parse_u64(b)) {
                            (Some(x), Some(y)) => Some(
                                (
                                    x,
                                    if y < size - 1 {
                                        y
                                    } else {
                                        (size - 1) as u64
                                    },
                                ),
                            ),
                            _ => None,
                        }
                    };
                    match se {
                        Some((st, en)) => if st <= en && st < size {
                            Some((st, en))
                        } else {
                            None
                        },
                        None => None,
                    }
                },
            }
        }
    }
}

/// The decimal text of `x` reads back as `x`.
proof fn lemma_parse_dec_u64(x: u64)
    ensures
        parse_u64(dec(x as nat)) == Some(x),
        crate::text::trim(dec(x as nat)) == dec(x as nat),
        forall|j: int| 0 <= j < dec(x as nat).len() ==> crate::text::is_digit(#[trigger] dec(x as nat)[j]),
{
    crate::text::lemma_dec_digits(x as nat);
    let d = dec(x as nat);
    assert(crate::text::is_digit(d[0]));
    assert(crate::text::is_digit(d[d.len() - 1]));
    crate::text::lemma_trim_noop(d);
}

/// A range of one or more bytes that starts inside a non-empty blob is
/// satisfiable: `bytes=x-y` with `x <= y` gives bytes `x` through `y` (through
/// the last byte when `y` lies beyond it), and `bytes=x-` gives `x` through
/// the last byte. In particular the one-byte probe `bytes=x-x` gives `(x, x)`.
pub proof fn lemma_range_from_start(x: u64, y: u64, size: u64)
    requires
        x <= y,
        x < size,
    ensures
        range_of("bytes="@ + dec(x as nat) + seq!['-'] + dec(y as nat), size) == Some(
            (
                x,
                if y < size {
                    y
                } else {
                    (size - 1) as u64
                },
            ),
        ),
        range_of("bytes="@ + dec(x as nat) + seq!['-'], size) == Some((x, (size - 1) as u64)),
{
    reveal_strlit("bytes=");
    lemma_parse_dec_u64(x);
    lemma_parse_dec_u64(y);
    let dx = dec(x as nat);
    let dy = dec(y as nat);
    let n = dx.len() as int;
    // `bytes=x-y`
    let spec = "bytes="@ + dx + seq!['-'] + dy;
    assert(spec.subrange(0, 6) =~= "bytes="@);
    let s = spec.subrange(6, spec.len() as int);
    assert(s =~= dx + seq!['-'] + dy);
    assert(s[0] == dx[0]);
    assert(s[s.len() - 1] == dy[dy.len() - 1]);
    crate::text::lemma_trim_noop(s);
    assert forall|j: int| 0 <= j < s.len() implies #[trigger] s[j] != ',' by {
        if j < n {
            assert(s[j] == dx[j]);
        } else if j > n {
            assert(s[j] == dy[j - n - 1]);
        }
    }
    crate::text::lemma_find_is(s, ',', None);
    assert forall|j: int| 0 <= j < n implies #[trigger] s[j] != '-' by {
        assert(s[j] == dx[j]);
    }
    crate::text::lemma_find_is(s, '-', Some(n));
    assert(s.subrange(0, n) =~= dx);
    assert(s.subrange(n + 1, s.len() as int) =~= dy);
    // `bytes=x-`
    let spec2 = "bytes="@ + dx + seq!['-'];
    assert(spec2.subrange(0, 6) =~= "bytes="@);
    let s2 = spec2.subrange(6, spec2.len() as int);
    assert(s2 =~= dx + seq!['-']);
    assert(s2[0] == dx[0]);
    crate::text::lemma_trim_noop(s2);
    assert forall|j: int| 0 <= j < s2.len() implies #[trigger] s2[j] != ',' by {
        if j < n {
            assert(s2[j] == dx[j]);
        }
    }
    crate::text::lemma_find_is(s2, ',', None);
    assert forall|j: int| 0 <= j < n implies #[trigger] s2[j] != '-' by {
        assert(s2[j] == dx[j]);
    }
    crate::text::lemma_find_is(s2, '-', Some(n));
    assert(s2.subrange(0, n) =~= dx);
    let e = s2.subrange(n + 1, s2.len() as int);
    assert(e.len() == 0);
    assert(crate::text::trim(e).len() == 0);
}

/// Parses a single `bytes=` range into an inclusive `(start, end)`; the range
/// always lies inside the blob.
pub fn parse_range(spec: &str, size: u64) -> (r: Option<(u64, u64)>)
    ensures
        r == range_of(spec@, size),
        r matches Some((s, e)) ==> s <= e < size,
{
    let v = chars_of(spec);
    if !has_prefix(&v, "bytes=") {
        return None;
    }
    proof {
        reveal_strlit("bytes=");
    }
    let s0 = slice_chars(&v, 6, v.len());
    let s = trim_chars(&s0);
    if find_char(&s, ',').is_some() || size == 0 {
        return None;
    }
    let i = match find_char(&s, '-') {
        None => return None,
        Some(i) => i,
    };
    proof {
        lemma_find(s@, '-');
    }
    let n = s.len();
    let a = trim_chars(&slice_chars(&s, 0, i));
    let b = trim_chars(&slice_chars(&s, i + 1, n));
    let se: Option<(u64, u64)> = if a.len() == 0 {
        match parse_u64_chars(&b) {
            None => None,
            Some(k) => if k == 0 {
                None
            } else {
                Some((size.saturating_sub(k), size - 1))
            },
        }
    } else if b.len() == 0 {
        match parse_u64_chars(&a) {
            None => None,
            Some(x) => Some((x, size - 1)),
        }
    } else {
        match (parse_u64_chars(&a), parse_u64_chars(&b)) {
            (Some(x), Some(y)) => Some(
                (
                    x,
                    if y < size - 1 {
                        y
                    } else {
                        size - 1
                    },
                ),
            ),
            _ => None,
        }
    };
    match se {
        Some((st, en)) => if st <= en && st < size {
            Some((st, en))
        } else {
            None
        },
        None => None,
    }
}

// ---------------------------------------------------------------------------
// pushes, removals, listings
// ---------------------------------------------------------------------------

/// A push lands only in the node's own namespace.
pub fn check_push_target(publisher: &PublisherId, me: &PublisherId) -> (r: Result<(), Error>)
    ensures
        r is Ok <==> publisher@ == me@,
        r is Err ==> r == Err::<(), Error>(Error::ForeignNamespace),
{
    if *publisher == *me {
        Ok(())
    } else {
        Err(Error::ForeignNamespace)
    }
}

/// What a manifest PUT reference means: `Ok(true)` for a tag to publish,
/// `Ok(false)` for a digest that matches the uploaded manifest.
pub open spec fn manifest_reference(reference: Seq<char>, digest: Seq<char>) -> Result<bool, Error> {
    match digest_from_text(reference) {
        Ok(d) => if d == digest {
            Ok(false)
        } else {
            Err(Error::DigestMismatch)
        },
        Err(_) => if valid_tag(reference) {
            Ok(true)
        } else {
            Err(Error::InvalidTag)
        },
    }
}

/// Checks the reference of a manifest PUT against the manifest's digest.
pub fn check_manifest_reference(reference: &str, digest: &Digest) -> (r: Result<bool, Error>)
    ensures
        r == manifest_reference(reference@, digest@),
{
    match Digest::parse(reference) {
        Ok(d) => if d == *digest {
            Ok(false)
        } else {
            Err(Error::DigestMismatch)
        },
        Err(_) => match validate_tag(reference) {
            Ok(()) => Ok(true),
            Err(e) => Err(e),
        },
    }
}

/// The media type of a `Content-Type` header value: the part before the
/// first `;`, trimmed.
pub fn media_type_of_header(header: &str) -> (r: String)
    ensures
        r@ == trim(match find(header@, ';') {
            Some(i) => header@.subrange(0, i),
            None => header@,
        }),
{
    let v = chars_of(header);
    let head = match find_char(&v, ';') {
        Some(i) => {
            proof {
                lemma_find(v@, ';');
            }
            slice_chars(&v, 0, i)
        },
        None => {
            assert(v@.subrange(0, v@.len() as int) =~= v@);
            slice_chars(&v, 0, v.len())
        },
    };
    string_of(&trim_chars(&head))
}

/// An `rm` needs exactly one of a tag and `--all`.
pub fn check_rm(has_tag: bool, all_tags: bool) -> (r: Result<(), Error>)
    ensures
        r == (if has_tag && all_tags {
            Err(Error::AllWithTag)
        } else if !has_tag && !all_tags {
            Err(Error::MissingTag)
        } else {
            Ok(())
        }),
{
    if has_tag && all_tags {
        Err(Error::AllWithTag)
    } else if !has_tag && !all_tags {
        Err(Error::MissingTag)
    } else {
        Ok(())
    }
}

/// `s` without consecutive repeats (std's `Vec::dedup`).
pub open spec fn dedup_adjacent(s: Seq<Seq<char>>) -> Seq<Seq<char>>
    decreases s.len(),
{
    if s.len() == 0 {
        s
    } else if s.len() >= 2 && s[s.len() - 1] == s[s.len() - 2] {
        dedup_adjacent(s.drop_last())
    } else {
        dedup_adjacent(s.drop_last()).push(s.last())
    }
}

/// The catalog's repository list: consecutive repeats dropped.
pub fn catalog_repositories(repos: &[String]) -> (r: Vec<String>)
    ensures
        texts_view(r@) == dedup_adjacent(texts_view(repos@)),
{
    let ghost t = texts_view(repos@);
    let mut out: Vec<String> = Vec::new();
    let mut i: usize = 0;
    assert(t.take(0) =~= Seq::<Seq<char>>::empty());
    assert(texts_view(out@) =~= Seq::<Seq<char>>::empty());
    while i < repos.len()
        invariant
            0 <= i <= repos@.len(),
            t == texts_view(repos@),
            texts_view(out@) == dedup_adjacent(t.take(i as int)),
        decreases repos@.len() - i,
    {
        let ghost q = t.take(i + 1);
        assert(q.drop_last() =~= t.take(i as int));
        assert(q.last() == repos@[i as int]@);
        if i >= 1 {
            assert(q[q.len() - 2] == repos@[i - 1]@);
        }
        if !(i >= 1 && str_eq(repos[i].as_str(), repos[i - 1].as_str())) {
            let ghost before = texts_view(out@);
            out.push(repos[i].clone());
            assert(texts_view(out@) =~= before.push(repos@[i as int]@));
        }
        i = i + 1;
    }
    assert(t.take(t.len() as int) =~= t);
    out
}

/// Referrer `r` passes an `artifactType` filter (every one passes no filter).
pub open spec fn referrer_selected(r: Referrer, filter: Option<&str>) -> bool {
    match filter {
        None => true,
        Some(f) => match r.artifact_type {
            Some(a) => a@ == f@,
            None => false,
        },
    }
}

/// The positions of the referrers that match an `artifactType` filter (all
/// without one), in order.
pub fn referrers_matching(v: &[Referrer], filter: Option<&str>) -> (r: Vec<usize>)
    ensures
        forall|i: int| 0 <= i < r@.len() ==> r@[i] < v@.len(),
        forall|i: int, j: int| 0 <= i < j < r@.len() ==> r@[i] < r@[j],
        forall|k: int|
            0 <= k < v@.len() ==> (r@.contains(k as usize) <==> referrer_selected(#[trigger] v@[k], filter)),
{
    let mut out: Vec<usize> = Vec::new();
    let mut i: usize = 0;
    while i < v.len()
        invariant
            0 <= i <= v@.len(),
            forall|x: int| 0 <= x < out@.len() ==> out@[x] < i,
            forall|x: int, y: int| 0 <= x < y < out@.len() ==> out@[x] < out@[y],
            forall|k: int|
                0 <= k < i ==> (out@.contains(k as usize) <==> referrer_selected(#[trigger] v@[k], filter)),
        decreases v@.len() - i,
    {
        let ok = match filter {
            None => true,
            Some(f) => match &v[i].artifact_type {
                Some(a) => str_eq(a.as_str(), f),
                None => false,
            },
        };
        let ghost before = out@;
        if ok {
            out.push(i);
        }
        proof {
            assert(ok == referrer_selected(v@[i as int], filter));
            assert forall|k: int| 0 <= k < i + 1 implies (out@.contains(k as usize) <==> referrer_selected(#[trigger] v@[k], filter)) by {
                if k < i {
                    if out@.contains(k as usize) {
                        let x = choose|x: int| 0 <= x < out@.len() && out@[x] == k as usize;
                        if ok {
                            assert(x < before.len());
                        }
                        assert(before[x] == k as usize);
                    }
                    if before.contains(k as usize) {
                        let x = choose|x: int| 0 <= x < before.len() && before[x] == k as usize;
                        assert(out@[x] == k as usize);
                    }
                } else {
                    if ok {
                        assert(out@[before.len() as int] == i);
                    } else {
                        if out@.contains(k as usize) {
                            let x = choose|x: int| 0 <= x < out@.len() && out@[x] == k as usize;
                            assert(before[x] < i);
                        }
                    }
                }
            }
        }
        i = i + 1;
    }
    out
}

/// The tags of the releases in `v` whose manifest is `d`, in order.
pub open spec fn tags_with(v: Seq<Release>, d: Seq<char>) -> Seq<Seq<char>>
    decreases v.len(),
{
    if v.len() == 0 {
        Seq::empty()
    } else if v.last().payload.manifest.digest@ == d {
        tags_with(v.drop_last(), d).push(v.last().payload.tag@)
    } else {
        tags_with(v.drop_last(), d)
    }
}

/// The tags of an image's releases whose manifest is `digest` (a delete by
/// digest removes them all).
pub fn tags_with_manifest(releases: &[Release], digest: &Digest) -> (r: Vec<String>)
    ensures
        texts_view(r@) == tags_with(releases@, digest@),
{
    let mut out: Vec<String> = Vec::new();
    let mut i: usize = 0;
    assert(releases@.take(0) =~= Seq::<Release>::empty());
    assert(texts_view(out@) =~= Seq::<Seq<char>>::empty());
    while i < releases.len()
        invariant
            0 <= i <= releases@.len(),
            texts_view(out@) == tags_with(releases@.take(i as int), digest@),
        decreases releases@.len() - i,
    {
        assert(releases@.take(i + 1).drop_last() =~= releases@.take(i as int));
        assert(releases@.take(i + 1).last() == releases@[i as int]);
        if releases[i].payload.manifest.digest == *digest {
            let ghost before = texts_view(out@);
            out.push(releases[i].payload.tag.clone());
            assert(texts_view(out@) =~= before.push(releases@[i as int].payload.tag@));
        }
        i = i + 1;
    }
    assert(releases@.take(releases@.len() as int) =~= releases@);
    out
}

// ---------------------------------------------------------------------------
// collecting the blobs of a pushed manifest
// ---------------------------------------------------------------------------

/// What collecting one descriptor of a pushed manifest does.
#[derive(Debug)]
pub struct RefStep {
    /// The blob's index entry with the descriptor's media type filled in, to
    /// be written back (it had none).
    pub record: Option<BlobRef>,
    /// The descriptor names a manifest whose own references come next.
    pub descend: bool,
}

/// Some entry of `v` has digest `d`.
pub open spec fn has_digest(v: Seq<BlobRef>, d: Seq<char>) -> bool {
    exists|i: int| 0 <= i < v.len() && #[trigger] v[i].digest@ == d
}

/// `b` with its media type, or else `mt`.
pub open spec fn filled(b: BlobRef, x: BlobRef, mt: Seq<char>) -> bool {
    &&& x.digest == b.digest
    &&& x.hash == b.hash
    &&& x.size == b.size
    &&& opt_view(x.media_type) == Some(
        match b.media_type {
            Some(m) => m@,
            None => mt,
        },
    )
}

/// One step of collecting the blobs a pushed manifest references: `found` is
/// the index entry of descriptor `d`'s digest if the node holds the blob.
/// A missing blob refuses the push; a blob already collected is skipped; a
/// new one is appended to `out`, and a manifest among them is descended into.
#[verifier::loop_isolation(false)]
pub fn collect_step(out: &mut Vec<BlobRef>, d: &Descriptor, found: Option<BlobRef>) -> (r: Result<
    RefStep,
    Error,
>)
    ensures
        match found {
            None => r matches Err(e) && e == Error::BlobUnknown && final(out)@ == old(out)@,
            Some(b) => r matches Ok(st) && {
                &&& (st.record is Some <==> b.media_type is None)
                &&& (st.record matches Some(x) ==> filled(b, x, d.media_type@))
                &&& if has_digest(old(out)@, b.digest@) {
                    final(out)@ == old(out)@ && !st.descend
                } else {
                    &&& final(out)@.len() == old(out)@.len() + 1
                    &&& final(out)@.take(old(out)@.len() as int) == old(out)@
                    &&& filled(b, final(out)@.last(), d.media_type@)
                    &&& st.descend == manifest_media_type(d.media_type@)
                }
            },
        },
{
    let mut b = match found {
        None => return Err(Error::BlobUnknown),
        Some(b) => b,
    };
    let ghost b0 = b;
    let record = if b.media_type.is_none() {
        b.media_type = Some(d.media_type.clone());
        Some(b.clone())
    } else {
        None
    };
    let mut i: usize = 0;
    while i < out.len()
        invariant
            0 <= i <= out@.len(),
            forall|j: int| 0 <= j < i ==> #[trigger] out@[j].digest@ != b.digest@,
        decreases out@.len() - i,
    {
        if out[i].digest == b.digest {
            return Ok(RefStep { record, descend: false });
        }
        i = i + 1;
    }
    let descend = is_manifest_media_type(d.media_type.as_str());
    let ghost before = out@;
    out.push(b);
    assert(out@.take(before.len() as int) =~= before);
    Ok(RefStep { record, descend })
}

// ---------------------------------------------------------------------------
// dispatch and responses
// ---------------------------------------------------------------------------

/// The HTTP methods the registry tells apart.
#[derive(Debug, Clone, Copy, PartialEq, Eq, Structural)]
pub enum Method {
    Get,
    Head,
    Put,
    Post,
    Patch,
    Delete,
    Other,
}

/// The handler a `/v2/` request goes to.
#[derive(Debug, Clone, Copy, PartialEq, Eq, Structural)]
pub enum Handler {
    Catalog,
    TagsList,
    ManifestGet { head: bool },
    ManifestPut,
    ManifestDelete,
    UploadStart,
    UploadPatch,
    UploadPut,
    UploadStatus,
    UploadCancel,
    BlobGet { head: bool },
    ReferrersGet,
}

/// Why a `/v2/` request is refused before any handler runs.
#[derive(Debug, Clone, Copy, PartialEq, Eq, Structural)]
pub enum Refusal {
    /// 404: no such route (or not for this method).
    NoRoute,
    /// 405: the route does not take this method.
    MethodNotAllowed,
    /// 405: blobs are only removed by garbage collection.
    BlobDelete,
}

/// Where a request for route kind `kind` (see `route_view`; `None` for no
/// route) goes with method `m`.
pub open spec fn dispatch_of(kind: Option<int>, m: Method) -> Result<Handler, Refusal> {
    match kind {
        None => Err(Refusal::NoRoute),
        Some(k) => if k == 0 {
            if m == Method::Get {
                Ok(Handler::Catalog)
            } else {
                Err(Refusal::NoRoute)
            }
        } else if k == 1 {
            if m == Method::Get {
                Ok(Handler::TagsList)
            } else {
                Err(Refusal::NoRoute)
            }
        } else if k == 2 {
            match m {
                Method::Get => Ok(Handler::ManifestGet { head: false }),
                Method::Head => Ok(Handler::ManifestGet { head: true }),
                Method::Put => Ok(Handler::ManifestPut),
                Method::Delete => Ok(Handler::ManifestDelete),
                _ => Err(Refusal::MethodNotAllowed),
            }
        } else if k == 3 {
            if m == Method::Post {
                Ok(Handler::UploadStart)
            } else {
                Err(Refusal::NoRoute)
            }
        } else if k == 4 {
            match m {
                Method::Patch => Ok(Handler::UploadPatch),
                Method::Put => Ok(Handler::UploadPut),
                Method::Get => Ok(Handler::UploadStatus),
                Method::Delete => Ok(Handler::UploadCancel),
                _ => Err(Refusal::MethodNotAllowed),
            }
        } else if k == 5 {
            match m {
                Method::Get => Ok(Handler::BlobGet { head: false }),
                Method::Head => Ok(Handler::BlobGet { head: true }),
                Method::Delete => Err(Refusal::BlobDelete),
                _ => Err(Refusal::MethodNotAllowed),
            }
        } else if k == 6 {
            if m == Method::Get {
                Ok(Handler::ReferrersGet)
            } else {
                Err(Refusal::NoRoute)
            }
        } else {
            Err(Refusal::NoRoute)
        },
    }
}

/// Chooses the handler for a routed request.
pub fn dispatch(route: &Option<Route>, m: Method) -> (r: Result<Handler, Refusal>)
    ensures
        r == dispatch_of(
            match route {
                Some(x) => Some(route_view(*x).0),
                None => None,
            },
            m,
        ),
{
    match route {
        Some(Route::Catalog) => if m == Method::Get {
            Ok(Handler::Catalog)
        } else {
            Err(Refusal::NoRoute)
        },
        Some(Route::Tags { .. }) => if m == Method::Get {
            Ok(Handler::TagsList)
        } else {
            Err(Refusal::NoRoute)
        },
        Some(Route::Manifest { .. }) => match m {
            Method::Get => Ok(Handler::ManifestGet { head: false }),
            Method::Head => Ok(Handler::ManifestGet { head: true }),
            Method::Put => Ok(Handler::ManifestPut),
            Method::Delete => Ok(Handler::ManifestDelete),
            _ => Err(Refusal::MethodNotAllowed),
        },
        Some(Route::UploadStart { .. }) => if m == Method::Post {
            Ok(Handler::UploadStart)
        } else {
            Err(Refusal::NoRoute)
        },
        Some(Route::Upload { .. }) => match m {
            Method::Patch => Ok(Handler::UploadPatch),
            Method::Put => Ok(Handler::UploadPut),
            Method::Get => Ok(Handler::UploadStatus),
            Method::Delete => Ok(Handler::UploadCancel),
            _ => Err(Refusal::MethodNotAllowed),
        },
        Some(Route::Blob { .. }) => match m {
            Method::Get => Ok(Handler::BlobGet { head: false }),
            Method::Head => Ok(Handler::BlobGet { head: true }),
            Method::Delete => Err(Refusal::BlobDelete),
            _ => Err(Refusal::MethodNotAllowed),
        },
        Some(Route::Referrers { .. }) => if m == Method::Get {
            Ok(Handler::ReferrersGet)
        } else {
            Err(Refusal::NoRoute)
        },
        None => Err(Refusal::NoRoute),
    }
}

/// How a blob is served: status, first byte, length and `Content-Range`.
#[derive(Debug)]
pub enum BlobBody {
    /// 416 with `Content-Range: bytes */<size>`.
    Unsatisfiable { content_range: String },
    /// 200, the whole blob.
    Whole { len: u64 },
    /// 206, one range, with `Content-Range: bytes <s>-<e>/<size>`.
    Part { start: u64, len: u64, content_range: String },
}

/// Plans the body of a blob GET/HEAD of a `size`-byte blob from its `Range`
/// header, if any.
pub fn blob_body(size: u64, range: Option<&str>) -> (b: BlobBody)
    ensures
        match range {
            None => b == BlobBody::Whole { len: size },
            Some(spec) => match range_of(spec@, size) {
                None => b matches BlobBody::Unsatisfiable { content_range } && content_range@
                    == "bytes */"@ + dec(size as nat),
                Some((s, e)) => b matches BlobBody::Part { start, len, content_range } && start
                    == s && len == e - s + 1 && content_range@ == "bytes "@ + dec(s as nat) + "-"@
                    + dec(e as nat) + "/"@ + dec(size as nat),
            },
        },
{
    match range {
        None => BlobBody::Whole { len: size },
        Some(spec) => match parse_range(spec, size) {
            None => {
                let mut v = chars_of("bytes */");
                push_dec(&mut v, size);
                BlobBody::Unsatisfiable { content_range: string_of(&v) }
            },
            Some((s, e)) => {
                let mut v = chars_of("bytes ");
                push_dec(&mut v, s);
                push_str(&mut v, "-");
                push_dec(&mut v, e);
                push_str(&mut v, "/");
                push_dec(&mut v, size);
                BlobBody::Part { start: s, len: e - s + 1, content_range: string_of(&v) }
            },
        },
    }
}

/// The `Range` header of an upload holding `size` bytes: `0-<size-1>`
/// (`0-0` while empty).
pub fn upload_range(size: u64) -> (s: String)
    ensures
        s@ == "0-"@ + dec((if size > 0 {
            size - 1
        } else {
            0
        }) as nat),
{
    let mut v = chars_of("0-");
    push_dec(&mut v, size.saturating_sub(1));
    string_of(&v)
}

/// How a manifest GET or DELETE reads its reference: `Ok(Some(d))` for a
/// digest, `Ok(None)` for a valid tag, else the tag's error.
pub open spec fn reference_kind_of(reference: Seq<char>) -> Result<Option<Seq<char>>, Error> {
    match digest_from_text(reference) {
        Ok(d) => Ok(Some(d)),
        Err(_) => if valid_tag(reference) {
            Ok(None)
        } else {
            Err(Error::InvalidTag)
        },
    }
}

pub fn reference_kind(reference: &str) -> (r: Result<Option<Digest>, Error>)
    ensures
        match r {
            Ok(Some(d)) => reference_kind_of(reference@) == Ok::<Option<Seq<char>>, Error>(Some(d@)),
            Ok(None) => reference_kind_of(reference@) == Ok::<Option<Seq<char>>, Error>(None),
            Err(e) => reference_kind_of(reference@) == Err::<Option<Seq<char>>, Error>(e),
        },
{
    match Digest::parse(reference) {
        Ok(d) => Ok(Some(d)),
        Err(_) => match validate_tag(reference) {
            Ok(()) => Ok(None),
            Err(e) => Err(e),
        },
    }
}

/// The `Content-Type` a stored manifest is served with: its recorded media
/// type, else the OCI image manifest type.
pub fn served_media_type(b: &BlobRef) -> (s: String)
    ensures
        s@ == match b.media_type {
            Some(m) => m@,
            None => crate::oci::MT_OCI_MANIFEST@,
        },
{
    match &b.media_type {
        Some(m) => m.clone(),
        None => crate::text::owned(crate::oci::MT_OCI_MANIFEST),
    }
}

} // verus!
