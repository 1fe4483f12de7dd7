//! On-disk layout of a node:
//!
//! ```text
//! $OCID_HOME (default ~/.ocid)
//! ├── secret.key                 ed25519 secret key (hex)
//! ├── config.toml                node configuration
//! ├── policy.toml                seeding policy: seeds, follows, aliases
//! ├── peers.json                 known peer addresses
//! ├── blobs/                     content-addressed blob store
//! ├── index/
//! │   ├── digests/<sha256>.json  sha256 -> {blake3, size}
//! │   └── releases/<publisher>/<name>/<tag>.json   signed release records
//! └── uploads/                   in-progress registry uploads
//! ```
//!
//! Paths are held as text; creating the directories is left to the caller.

use vstd::prelude::*;
use crate::error::Error;
use crate::text::{chars_of, push_chars, string_of};

verus! {

/// `base` joined with `rel` as `Path::join` does on Unix: an absolute `rel`
/// replaces `base`; otherwise a `/` goes between them unless `base` is empty
/// or already ends with one.
pub open spec fn path_join(base: Seq<char>, rel: Seq<char>) -> Seq<char> {
    if rel.len() > 0 && rel[0] == '/' {
        rel
    } else if base.len() == 0 {
        rel
    } else if base.last() == '/' {
        base + rel
    } else {
        base + seq!['/'] + rel
    }
}

/// Joins `rel` onto `base`.
pub fn join_path(base: &str, rel: &str) -> (p: String)
    ensures
        p@ == path_join(base@, rel@),
{
    let b = chars_of(base);
    let r = chars_of(rel);
    if r.len() > 0 && r[0] == '/' {
        return string_of(&r);
    }
    if b.len() == 0 {
        return string_of(&r);
    }
    let mut out = b.clone();
    if b[b.len() - 1] != '/' {
        out.push('/');
    }
    push_chars(&mut out, &r);
    string_of(&out)
}

/// The directory a node keeps its files in.
#[derive(Debug, Clone)]
pub struct Paths {
    pub home: String,
}

/// The node home chosen from `$OCID_HOME` (used when set and not empty) or
/// else `.ocid` in the user's home directory; `None` when there is neither.
pub open spec fn home_from_env(ocid_home: Option<Seq<char>>, user_home: Option<Seq<char>>) -> Option<
    Seq<char>,
> {
    match ocid_home {
        Some(v) if v.len() > 0 => Some(v),
        _ => match user_home {
            Some(h) => Some(path_join(h, ".ocid"@)),
            None => None,
        },
    }
}

/// The node home: an explicit `home`, else what `home_from_env` chooses.
pub open spec fn home_resolved(
    home: Option<Seq<char>>,
    ocid_home: Option<Seq<char>>,
    user_home: Option<Seq<char>>,
) -> Option<Seq<char>> {
    match home {
        Some(h) => Some(h),
        None => home_from_env(ocid_home, user_home),
    }
}

/// The characters of an optional string.
pub open spec fn opt_chars(o: Option<String>) -> Option<Seq<char>> {
    match o {
        Some(s) => Some(s@),
        None => None,
    }
}

impl Paths {
    /// The node home from the value of `$OCID_HOME` and the user's home
    /// directory, both read by the caller.
    pub fn from_env(ocid_home: Option<String>, user_home: Option<String>) -> (r: Result<
        Paths,
        Error,
    >)
        ensures
            match r {
                Ok(p) => home_from_env(opt_chars(ocid_home), opt_chars(user_home)) == Some(
                    p.home@,
                ),
                Err(e) => e == Error::NoHome && home_from_env(
                    opt_chars(ocid_home),
                    opt_chars(user_home),
                ) is None,
            },
    {
        match ocid_home {
            Some(v) => {
                let n = chars_of(v.as_str()).len();
                if n > 0 {
                    return Ok(Paths { home: v });
                }
            },
            None => {},
        }
        match user_home {
            Some(h) => {
                proof {
                    reveal_strlit(".ocid");
                }
                Ok(Paths { home: join_path(h.as_str(), ".ocid") })
            },
            None => Err(Error::NoHome),
        }
    }

    /// The node home: `home` when given, else from `$OCID_HOME` or the
    /// user's home directory.
    pub fn resolve(home: Option<String>, ocid_home: Option<String>, user_home: Option<String>) -> (r:
        Result<Paths, Error>)
        ensures
            match r {
                Ok(p) => home_resolved(
                    opt_chars(home),
                    opt_chars(ocid_home),
                    opt_chars(user_home),
                ) == Some(p.home@),
                Err(e) => e == Error::NoHome && home_resolved(
                    opt_chars(home),
                    opt_chars(ocid_home),
                    opt_chars(user_home),
                ) is None,
            },
    {
        match home {
            Some(h) => Ok(Paths { home: h }),
            None => Paths::from_env(ocid_home, user_home),
        }
    }

    pub fn secret_key(&self) -> (p: String)
        ensures
            p@ == path_join(self.home@, "secret.key"@),
    {
        join_path(self.home.as_str(), "secret.key")
    }

    pub fn config(&self) -> (p: String)
        ensures
            p@ == path_join(self.home@, "config.toml"@),
    {
        join_path(self.home.as_str(), "config.toml")
    }

    pub fn policy(&self) -> (p: String)
        ensures
            p@ == path_join(self.home@, "policy.toml"@),
    {
        join_path(self.home.as_str(), "policy.toml")
    }

    pub fn peers(&self) -> (p: String)
        ensures
            p@ == path_join(self.home@, "peers.json"@),
    {
        join_path(self.home.as_str(), "peers.json")
    }

    pub fn blobs(&self) -> (p: String)
        ensures
            p@ == path_join(self.home@, "blobs"@),
    {
        join_path(self.home.as_str(), "blobs")
    }

    pub fn index(&self) -> (p: String)
        ensures
            p@ == path_join(self.home@, "index"@),
    {
        join_path(self.home.as_str(), "index")
    }

    pub fn digests(&self) -> (p: String)
        ensures
            p@ == path_join(path_join(self.home@, "index"@), "digests"@),
    {
        let ix = self.index();
        join_path(ix.as_str(), "digests")
    }

    pub fn releases(&self) -> (p: String)
        ensures
            p@ == path_join(path_join(self.home@, "index"@), "releases"@),
    {
        let ix = self.index();
        join_path(ix.as_str(), "releases")
    }

    pub fn uploads(&self) -> (p: String)
        ensures
            p@ == path_join(self.home@, "uploads"@),
    {
        join_path(self.home.as_str(), "uploads")
    }

    /// The directories a node needs, parents before children.
    pub fn dirs(&self) -> (d: Vec<String>)
        ensures
            d@.len() == 5,
            d@[0]@ == self.home@,
            d@[1]@ == path_join(self.home@, "blobs"@),
            d@[2]@ == path_join(path_join(self.home@, "index"@), "digests"@),
            d@[3]@ == path_join(path_join(self.home@, "index"@), "releases"@),
            d@[4]@ == path_join(self.home@, "uploads"@),
    {
        let mut d: Vec<String> = Vec::new();
        d.push(self.home.clone());
        d.push(self.blobs());
        d.push(self.digests());
        d.push(self.releases());
        d.push(self.uploads());
        d
    }
}

} // verus!
