//! A BLAKE3 hash as the blob store uses it, written as lowercase hex in text
//! formats.

use vstd::prelude::*;
use crate::error::Error;
use crate::identity::to_array32;
use crate::text::{chars_of, hex_bytes, hex_decode, hex_encode, hex_string, lemma_hex_roundtrip};

verus! {

/// The 32 bytes of a BLAKE3 hash.
#[derive(Debug, Clone, Copy)]
pub struct Blake3 {
    bytes: [u8; 32],
}

impl View for Blake3 {
    type V = Seq<u8>;

    closed spec fn view(&self) -> Seq<u8> {
        self.bytes@
    }
}

impl PartialEq for Blake3 {
    fn eq(&self, other: &Self) -> (r: bool) {
        let mut i: usize = 0;
        while i < 32
            invariant
                0 <= i <= 32,
                self.bytes@.len() == 32,
                other.bytes@.len() == 32,
                forall|j: int| 0 <= j < i ==> self.bytes@[j] == other.bytes@[j],
            decreases 32 - i,
        {
            if self.bytes[i] != other.bytes[i] {
                return false;
            }
            i = i + 1;
        }
        assert(self.bytes@ =~= other.bytes@);
        true
    }
}

impl Eq for Blake3 {

}

impl vstd::std_specs::cmp::PartialEqSpecImpl for Blake3 {
    open spec fn obeys_eq_spec() -> bool {
        true
    }

    open spec fn eq_spec(&self, other: &Self) -> bool {
        self@ == other@
    }
}

/// How a hash text is read: hex (either case) of exactly 32 bytes.
pub open spec fn blake3_from_text(s: Seq<char>) -> Result<Seq<u8>, Error> {
    match hex_decode(s) {
        None => Err(Error::HashNotHex),
        Some(b) => if b.len() == 32 {
            Ok(b)
        } else {
            Err(Error::HashLength)
        },
    }
}

impl core::str::FromStr for Blake3 {
    type Err = Error;

    fn from_str(s: &str) -> (r: Result<Blake3, Error>)
        ensures
            match r {
                Ok(h) => blake3_from_text(s@) == Ok::<Seq<u8>, Error>(h@),
                Err(e) => blake3_from_text(s@) == Err::<Seq<u8>, Error>(e),
            },
    {
        Blake3::parse(s)
    }
}

impl Blake3 {
    pub fn from_bytes(bytes: [u8; 32]) -> (h: Blake3)
        ensures
            h@ == bytes@,
    {
        Blake3 { bytes }
    }

    pub fn as_bytes(&self) -> (b: &[u8; 32])
        ensures
            b@ == self@,
            b@.len() == 32,
    {
        &self.bytes
    }

    /// Lowercase hex, 64 characters.
    pub fn to_hex(&self) -> (s: String)
        ensures
            s@ == hex_encode(self@),
            blake3_from_text(s@) == Ok::<Seq<u8>, Error>(self@),
    {
        proof {
            lemma_hex_roundtrip(self.bytes@);
        }
        hex_string(self.bytes.as_slice())
    }

    /// The first 10 hex characters, for logs.
    pub fn fmt_short(&self) -> (s: String)
        ensures
            s@ == hex_encode(self@.subrange(0, 5)),
    {
        let mut b: Vec<u8> = Vec::new();
        let mut i: usize = 0;
        while i < 5
            invariant
                0 <= i <= 5,
                self.bytes@.len() == 32,
                b@ == self.bytes@.subrange(0, i as int),
            decreases 5 - i,
        {
            b.push(self.bytes[i]);
            i = i + 1;
        }
        hex_string(&b)
    }

    /// Reads hex (either case) of exactly 32 bytes.
    pub fn parse(s: &str) -> (r: Result<Blake3, Error>)
        ensures
            match r {
                Ok(h) => blake3_from_text(s@) == Ok::<Seq<u8>, Error>(h@),
                Err(e) => blake3_from_text(s@) == Err::<Seq<u8>, Error>(e),
            },
    {
        let v = chars_of(s);
        match hex_bytes(&v) {
            None => Err(Error::HashNotHex),
            Some(b) => {
                if b.len() != 32 {
                    return Err(Error::HashLength);
                }
                let a = to_array32(&b);
                assert(a@ =~= b@);
                Ok(Blake3 { bytes: a })
            },
        }
    }
}

} // verus!
