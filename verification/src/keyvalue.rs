//! Plain carriers of a key and of a value with their length-prefixed byte
//! encodings.
use crate::codec::u64_be;
use vstd::prelude::*;
use vstd::string::{StrSliceExecFns, StringSliceAdditionalSpecFns};
use vstd::utf8::encode_utf8;

verus! {

/// A key together with its byte length.
pub struct Key {
    pub key: String,
    pub length: usize,
}

impl Key {
    pub fn new(string: &str) -> (r: Self)
        requires
            encode_utf8(string@).len() <= usize::MAX,
        ensures
            r.key@ == string@,
            r.length == encode_utf8(string@).len(),
    {
        Key { key: string.to_owned(), length: string.len() }
    }

    /// The key's byte length (big-endian) followed by its bytes.
    pub fn to_bytes(self) -> (r: Vec<u8>)
        requires
            self.length == encode_utf8(self.key@).len(),
        ensures
            r@ == u64_be(self.length as u64) + encode_utf8(self.key@),
    {
        let mut r = crate::codec::u64_to_be(self.length as u64);
        let mut kb = self.key.as_str().as_bytes_vec();
        r.append(&mut kb);
        proof {
            assert(r@ =~= u64_be(self.length as u64) + encode_utf8(self.key@));
        }
        r
    }
}

/// A value together with its byte length and tombstone flag.
pub struct Value {
    pub value: String,
    pub length: usize,
    pub is_delete: bool,
}

impl Value {
    pub fn new(string: &str, _ts: i64, is_del: bool) -> (r: Self)
        requires
            encode_utf8(string@).len() <= usize::MAX,
        ensures
            r.value@ == string@,
            r.length == encode_utf8(string@).len(),
            r.is_delete == is_del,
    {
        Value { value: string.to_owned(), length: string.len(), is_delete: is_del }
    }

    /// The value's byte length (big-endian), its bytes, and one tombstone
    /// byte.
    pub fn to_bytes(self) -> (r: Vec<u8>)
        requires
            self.length == encode_utf8(self.value@).len(),
            self.length + 9 <= usize::MAX,
        ensures
            r@ == u64_be(self.length as u64) + encode_utf8(self.value@) + seq![
                if self.is_delete {
                    1u8
                } else {
                    0u8
                },
            ],
    {
        let mut r = crate::codec::u64_to_be(self.length as u64);
        let mut vb = self.value.as_str().as_bytes_vec();
        r.append(&mut vb);
        r.push(
            if self.is_delete {
                1
            } else {
                0
            },
        );
        proof {
            assert(r@ =~= u64_be(self.length as u64) + encode_utf8(self.value@) + seq![
                if self.is_delete {
                    1u8
                } else {
                    0u8
                },
            ]);
        }
        r
    }
}

} // verus!
