//! The on-disk JSON index: where each record of the store lives, which
//! directory entries are records, and when a release is written.
//!
//! ```text
//! index/digests/<sha256-hex>.json                  sha256 -> BlobRef
//! index/referrers/<subject-hex>/<referrer-hex>.json
//! index/releases/<publisher>/<name>/<tag>.json     signed release records
//! ```
//!
//! Reading and writing the files is left to the caller; names and tags are
//! checked here so that no record path leaves the store.

use vstd::prelude::*;
use crate::error::Error;
use crate::identity::PublisherId;
use crate::oci::{component_start, validate_name, validate_tag, valid_name, valid_tag, Digest};
use crate::order::{sort_by_text_key, sort_texts, sorted_by_key, sorted_texts};
use crate::paths::{join_path, opt_chars, path_join, Paths};
use crate::oci::reference_text;
use crate::release::{BlobRef, Referrer, Release};
use crate::text::{
    chars_is, chars_of, hex_encode, is_lower_hex, lemma_rfind, lower_hex, push_str, rfind,
    rfind_char, slice_chars, string_of, texts_view, owned,
};

verus! {

/// `<home>/index`
pub open spec fn index_dir(home: Seq<char>) -> Seq<char> {
    path_join(home, "index"@)
}

/// `<home>/index/digests`
pub open spec fn digests_dir(home: Seq<char>) -> Seq<char> {
    path_join(index_dir(home), "digests"@)
}

/// `<home>/index/releases`
pub open spec fn releases_dir(home: Seq<char>) -> Seq<char> {
    path_join(index_dir(home), "releases"@)
}

/// `<home>/index/referrers`
pub open spec fn referrers_root(home: Seq<char>) -> Seq<char> {
    path_join(index_dir(home), "referrers"@)
}

/// The hex part of a digest's text (`sha256:<hex>`).
pub open spec fn digest_hex(d: Seq<char>) -> Seq<char> {
    d.subrange(7, d.len() as int)
}

/// A relative path of one or more components, none of them empty, `.` or
/// `..`: joined onto a directory it names something inside that directory.
pub open spec fn confined(s: Seq<char>) -> bool {
    &&& s.len() > 0
    &&& s.last() != '/'
    &&& forall|i: int|
        0 <= i < s.len() && #[trigger] component_start(s, i) ==> s[i] != '/' && s[i] != '.'
}

/// A single path component that is neither hidden nor `.` / `..`.
pub open spec fn plain_component(s: Seq<char>) -> bool {
    &&& s.len() > 0
    &&& s[0] != '.'
    &&& forall|i: int| 0 <= i < s.len() ==> #[trigger] s[i] != '/'
}

/// Every valid image name stays inside the directory it is joined onto.
pub proof fn lemma_valid_name_confined(s: Seq<char>)
    requires
        valid_name(s),
    ensures
        confined(s),
{
    assert forall|i: int| 0 <= i < s.len() && #[trigger] component_start(s, i) implies s[i]
        != '/' && s[i] != '.' by {}
}

/// Every valid tag is one plain path component.
pub proof fn lemma_valid_tag_plain(t: Seq<char>)
    requires
        valid_tag(t),
    ensures
        plain_component(t),
{
    assert forall|i: int| 0 <= i < t.len() implies #[trigger] t[i] != '/' by {
        assert(crate::oci::tag_char(t[i]));
    }
}

/// Where the last `.` splits a file name into stem and extension, as
/// `Path::file_stem` and `Path::extension` read it: nowhere when the name has
/// no `.` or only a leading one.
pub open spec fn ext_dot(name: Seq<char>) -> Option<int> {
    match rfind(name, '.') {
        Some(k) => if k > 0 {
            Some(k)
        } else {
            None
        },
        None => None,
    }
}

/// `Path::file_stem` of a file name.
pub open spec fn file_stem(name: Seq<char>) -> Seq<char> {
    match ext_dot(name) {
        Some(k) => name.subrange(0, k),
        None => name,
    }
}

/// The stem of a file name whose extension is `json`.
pub open spec fn json_stem(name: Seq<char>) -> Option<Seq<char>> {
    match ext_dot(name) {
        Some(k) => if name.subrange(k + 1, name.len() as int) == "json"@ {
            Some(name.subrange(0, k))
        } else {
            None
        },
        None => None,
    }
}

fn ext_dot_exec(v: &[char]) -> (r: Option<usize>)
    ensures
        match r {
            Some(k) => ext_dot(v@) == Some(k as int) && 0 < k < v@.len(),
            None => ext_dot(v@) is None,
        },
{
    proof {
        lemma_rfind(v@, '.');
    }
    match rfind_char(v, '.') {
        Some(k) => if k > 0 {
            Some(k)
        } else {
            None
        },
        None => None,
    }
}

/// The stem of `name` if its extension is `json`.
pub fn json_file_stem(name: &str) -> (r: Option<String>)
    ensures
        opt_chars(r) == json_stem(name@),
{
    let v = chars_of(name);
    match ext_dot_exec(&v) {
        Some(k) => {
            let n = v.len();
            let ext = slice_chars(&v, k + 1, n);
            if chars_is(&ext, "json") {
                let stem = slice_chars(&v, 0, k);
                Some(string_of(&stem))
            } else {
                None
            }
        },
        None => None,
    }
}

/// A file that the walk over the release records reads: a `.json` file that
/// is not hidden (temporary files of atomic writes start with `.`).
pub open spec fn release_file(name: Seq<char>) -> bool {
    json_stem(name) is Some && !(name.len() > 0 && name[0] == '.')
}

pub fn is_release_file(name: &str) -> (r: bool)
    ensures
        r == release_file(name@),
{
    let v = chars_of(name);
    let stem = json_file_stem(name);
    stem.is_some() && !(v.len() > 0 && v[0] == '.')
}

/// The stems of the `.json` files among directory entries `(file name,
/// is a file)`, in order.
pub open spec fn json_stems(entries: Seq<(Seq<char>, bool)>) -> Seq<Seq<char>>
    decreases entries.len(),
{
    if entries.len() == 0 {
        Seq::empty()
    } else {
        let rest = json_stems(entries.drop_last());
        let e = entries.last();
        match json_stem(e.0) {
            Some(s) => if e.1 {
                rest.push(s)
            } else {
                rest
            },
            None => rest,
        }
    }
}

/// Directory entries as plain values.
pub open spec fn entries_view(v: Seq<(String, bool)>) -> Seq<(Seq<char>, bool)> {
    Seq::new(v.len(), |i: int| (v[i].0@, v[i].1))
}

/// The index of a node's store.
#[derive(Debug, Clone)]
pub struct Index {
    paths: Paths,
}

impl Index {
    /// The node home the index lives under.
    pub closed spec fn home(&self) -> Seq<char> {
        self.paths.home@
    }

    /// The index of the store at `paths` (whose directories the caller
    /// creates: see `Paths::dirs`).
    pub fn open(paths: &Paths) -> (ix: Index)
        ensures
            ix.home() == paths.home@,
    {
        Index { paths: Paths { home: paths.home.clone() } }
    }

    pub fn paths(&self) -> (p: &Paths)
        ensures
            p.home@ == self.home(),
    {
        &self.paths
    }

    /// `index/digests/<hex>.json`: the record of a blob.
    pub fn digest_path(&self, digest: &Digest) -> (p: String)
        ensures
            p@ == path_join(digests_dir(self.home()), digest_hex(digest@) + ".json"@),
    {
        let dir = self.paths.digests();
        let mut f = chars_of(digest.hex().as_str());
        push_str(&mut f, ".json");
        let name = string_of(&f);
        join_path(dir.as_str(), name.as_str())
    }

    /// `index/referrers/<subject-hex>`: the referrers of a manifest.
    pub fn referrers_dir(&self, subject: &Digest) -> (p: String)
        ensures
            p@ == path_join(referrers_root(self.home()), digest_hex(subject@)),
    {
        let ix = self.paths.index();
        proof {
            reveal_strlit("referrers");
        }
        let root = join_path(ix.as_str(), "referrers");
        let hex = subject.hex();
        join_path(root.as_str(), hex.as_str())
    }

    /// `index/referrers/<subject-hex>/<referrer-hex>.json`.
    pub fn referrer_path(&self, subject: &Digest, referrer: &Digest) -> (p: String)
        ensures
            p@ == path_join(
                path_join(referrers_root(self.home()), digest_hex(subject@)),
                digest_hex(referrer@) + ".json"@,
            ),
    {
        let dir = self.referrers_dir(subject);
        let mut f = chars_of(referrer.hex().as_str());
        push_str(&mut f, ".json");
        let name = string_of(&f);
        join_path(dir.as_str(), name.as_str())
    }

    /// For the file `file_name` under `index/referrers/<subject>/`: the
    /// digest record its manifest needs to stay, or `None` when its stem is
    /// not 64 lowercase hex characters (such a file is dropped).
    pub fn referrer_digest_file(&self, file_name: &str) -> (r: Option<String>)
        ensures
            match r {
                Some(p) => {
                    let stem = file_stem(file_name@);
                    &&& stem.len() == 64
                    &&& forall|i: int| 0 <= i < 64 ==> is_lower_hex(#[trigger] stem[i])
                    &&& p@ == path_join(digests_dir(self.home()), stem + ".json"@)
                },
                None => !(file_stem(file_name@).len() == 64 && forall|i: int|
                    0 <= i < 64 ==> is_lower_hex(#[trigger] file_stem(file_name@)[i])),
            },
    {
        let v = chars_of(file_name);
        let stem = match ext_dot_exec(&v) {
            Some(k) => slice_chars(&v, 0, k),
            None => v.clone(),
        };
        assert(stem@ == file_stem(file_name@));
        if stem.len() != 64 {
            return None;
        }
        let mut i: usize = 0;
        while i < 64
            invariant
                stem@.len() == 64,
                stem@ == file_stem(file_name@),
                0 <= i <= 64,
                forall|j: int| 0 <= j < i ==> is_lower_hex(#[trigger] stem@[j]),
            decreases 64 - i,
        {
            if !lower_hex(stem[i]) {
                assert(!is_lower_hex(stem@[i as int]));
                return None;
            }
            i = i + 1;
        }
        let mut f = stem.clone();
        push_str(&mut f, ".json");
        let name = string_of(&f);
        let dir = self.paths.digests();
        Some(join_path(dir.as_str(), name.as_str()))
    }

    /// `index/releases/<publisher>/<name>`, for a valid image name only.
    pub fn release_dir(&self, publisher: &PublisherId, name: &str) -> (r: Result<String, Error>)
        ensures
            r is Ok <==> valid_name(name@),
            match r {
                Ok(d) => {
                    &&& d@ == path_join(path_join(releases_dir(self.home()), hex_encode(publisher@)), name@)
                    &&& d@ == releases_dir(self.home()) + seq!['/'] + hex_encode(publisher@) + seq!['/'] + name@
                    &&& confined(name@)
                },
                Err(e) => e == Error::InvalidName,
            },
    {
        match validate_name(name) {
            Ok(()) => {},
            Err(e) => return Err(e),
        }
        proof {
            lemma_valid_name_confined(name@);
        }
        let root = self.paths.releases();
        let p = publisher.to_string();
        let pd = join_path(root.as_str(), p.as_str());
        proof {
            reveal_strlit("releases");
            assert(root@.last() == 's');
            assert(is_lower_hex(p@[0]) && is_lower_hex(p@[63]));
            assert(pd@ == root@ + seq!['/'] + p@);
            assert(pd@.last() == p@[63]);
        }
        let d = join_path(pd.as_str(), name);
        proof {
            assert(component_start(name@, 0));
            assert(name@[0] != '/');
            assert(path_join(root@, p@) == root@ + seq!['/'] + p@);
            assert(d@ == pd@ + seq!['/'] + name@);
        }
        Ok(d)
    }

    /// `index/releases/<publisher>/<name>/<tag>.json`, for a valid tag and
    /// image name only (the tag is checked first).
    pub fn release_path(&self, publisher: &PublisherId, name: &str, tag: &str) -> (r: Result<
        String,
        Error,
    >)
        ensures
            r is Ok <==> valid_tag(tag@) && valid_name(name@),
            match r {
                Ok(f) => {
                    &&& f@ == releases_dir(self.home()) + seq!['/'] + hex_encode(publisher@) + seq!['/'] + name@ + seq!['/'] + tag@ + ".json"@
                    &&& confined(name@)
                    &&& plain_component(tag@)
                },
                Err(e) => if !valid_tag(tag@) {
                    e == Error::InvalidTag
                } else {
                    e == Error::InvalidName
                },
            },
    {
        match validate_tag(tag) {
            Ok(()) => {},
            Err(e) => return Err(e),
        }
        proof {
            lemma_valid_tag_plain(tag@);
        }
        let dir = match self.release_dir(publisher, name) {
            Ok(d) => d,
            Err(e) => return Err(e),
        };
        let mut f = chars_of(tag);
        push_str(&mut f, ".json");
        let file = string_of(&f);
        let r = join_path(dir.as_str(), file.as_str());
        proof {
            assert(name@.last() != '/');
            assert(dir@.last() == name@.last());
        }
        Ok(r)
    }

    /// The tags held for `publisher/name`: the stems of the `.json` files
    /// among the entries `(file name, is a file)` of its release directory,
    /// sorted; refused for an invalid name.
    pub fn list_tags(&self, publisher: &PublisherId, name: &str, entries: &[(String, bool)]) -> (r:
        Result<Vec<String>, Error>)
        ensures
            r is Ok <==> valid_name(name@),
            match r {
                Ok(t) => texts_view(t@) == sorted_texts(json_stems(entries_view(entries@))),
                Err(e) => e == Error::InvalidName,
            },
    {
        match self.release_dir(publisher, name) {
            Ok(_) => {},
            Err(e) => return Err(e),
        }
        let mut tags: Vec<String> = Vec::new();
        let mut i: usize = 0;
        while i < entries.len()
            invariant
                0 <= i <= entries@.len(),
                texts_view(tags@) == json_stems(entries_view(entries@).take(i as int)),
            decreases entries@.len() - i,
        {
            let ghost before = tags@;
            assert(entries_view(entries@).take(i + 1).drop_last() =~= entries_view(entries@).take(
                i as int,
            ));
            assert(entries_view(entries@).take(i + 1).last() == (entries@[i as int].0@, entries@[i as int].1));
            if entries[i].1 {
                match json_file_stem(entries[i].0.as_str()) {
                    Some(s) => {
                        tags.push(s);
                        assert(texts_view(tags@) =~= texts_view(before).push(tags@.last()@));
                    },
                    None => {},
                }
            }
            i = i + 1;
        }
        assert(entries_view(entries@).take(entries@.len() as int) =~= entries_view(entries@));
        Ok(sort_texts(tags))
    }
}

/// Whether `new` is written over the record `existing` of the same
/// reference: always when there is none, else only if it supersedes it.
pub open spec fn stores_over(new: Release, existing: Option<Release>) -> bool {
    match existing {
        None => true,
        Some(old) => new.payload.timestamp > old.payload.timestamp || (new.payload.timestamp
            == old.payload.timestamp && new.payload.manifest.digest@
            != old.payload.manifest.digest@),
    }
}

/// Decides whether a release is stored: it is new, or it supersedes the
/// record already held.
pub fn should_store(new: &Release, existing: Option<&Release>) -> (r: bool)
    ensures
        r == stores_over(
            *new,
            match existing {
                Some(e) => Some(*e),
                None => None,
            },
        ),
{
    match existing {
        None => true,
        Some(old) => new.supersedes(old),
    }
}

/// The reference text a release is listed by.
pub open spec fn release_key(r: Release) -> Seq<char> {
    reference_text(r.payload.publisher@, r.payload.name@, Some(r.payload.tag@))
}

/// Releases in the order they are listed: by reference.
pub fn sort_releases(v: Vec<Release>) -> (r: Vec<Release>)
    ensures
        r@.to_multiset() == v@.to_multiset(),
        sorted_by_key(r@, |x: Release| release_key(x)),
{
    let key = |x: &Release| -> (s: String)
        ensures
            s@ == release_key(*x),
        { x.reference() };
    sort_by_text_key(v, key, Ghost(|x: Release| release_key(x)))
}

/// Referrers in the order they are listed: by digest.
pub fn sort_referrers(v: Vec<Referrer>) -> (r: Vec<Referrer>)
    ensures
        r@.to_multiset() == v@.to_multiset(),
        sorted_by_key(r@, |x: Referrer| x.digest@),
{
    let key = |x: &Referrer| -> (s: String)
        ensures
            s@ == x.digest@,
        { owned(x.digest.as_str()) };
    sort_by_text_key(v, key, Ghost(|x: Referrer| x.digest@))
}

/// Storing a release again over itself writes nothing: a release never
/// supersedes itself.
pub proof fn lemma_store_same_release(r: Release)
    ensures
        !stores_over(r, Some(r)),
{
}

/// A release with a newer timestamp is always stored over the old record.
pub proof fn lemma_newer_release_stored(new: Release, old: Release)
    requires
        new.payload.timestamp > old.payload.timestamp,
    ensures
        stores_over(new, Some(old)),
{
}

/// Checks a blob read back from the store against its record: the sha256
/// digest first, then the size.
pub fn check_blob(expected: &BlobRef, digest: &Digest, size: u64) -> (r: Result<(), Error>)
    ensures
        r == if digest@ != expected.digest@ {
            Err::<(), Error>(Error::DigestMismatch)
        } else if size != expected.size {
            Err::<(), Error>(Error::SizeMismatch)
        } else {
            Ok::<(), Error>(())
        },
{
    if *digest != expected.digest {
        Err(Error::DigestMismatch)
    } else if size != expected.size {
        Err(Error::SizeMismatch)
    } else {
        Ok(())
    }
}

} // verus!
