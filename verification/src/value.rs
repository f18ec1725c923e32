//! The in-memory carrier of a stored value: a payload string and a tombstone
//! flag, with its byte-segment round trip.
use crate::codec::{parse_val, val_bytes, val_fits, ValView};
use crate::error::ConvertError;
use vstd::prelude::*;
use vstd::string::{StrSliceExecFns, StringSliceAdditionalSpecFns};
use vstd::utf8::encode_utf8;

verus! {

/// A value as the store keeps it in memory.  A `deleted` value is a
/// tombstone: it hides the key, and its payload is empty when written by the
/// engine.
#[derive(Debug, PartialEq, Clone)]
pub struct Value {
    pub value: String,
    pub is_delete: bool,
}

impl View for Value {
    type V = ValView;

    open spec fn view(&self) -> ValView {
        ValView { payload: self.value@, deleted: self.is_delete }
    }
}

impl Value {
    /// Builds a value from a payload and a tombstone flag.
    pub fn new(string: &str, is_del: bool) -> (r: Self)
        ensures
            r@ == (ValView { payload: string@, deleted: is_del }),
    {
        Value { value: string.to_owned(), is_delete: is_del }
    }

    /// The byte length of this value's segment in a record frame: the
    /// payload length plus 8 for the length prefix and 1 for the tombstone.
    pub fn len(&self) -> (r: usize)
        requires
            val_fits(self@),
        ensures
            r == encode_utf8(self@.payload).len() + 9,
    {
        self.value.as_str().len() + 9
    }

    /// Whether this value is a tombstone.
    pub fn is_deleted(&self) -> (r: bool)
        ensures
            r == self@.deleted,
    {
        self.is_delete
    }

    /// The payload string.
    pub fn payload(&self) -> (r: String)
        ensures
            r@ == self@.payload,
    {
        self.value.clone()
    }

    /// A copy with the same contents.
    pub(crate) fn dup(&self) -> (r: Value)
        ensures
            r@ == self@,
    {
        Value { value: self.value.clone(), is_delete: self.is_delete }
    }

    /// Encodes the value segment: `value_len`, payload, tombstone byte.
    pub fn to_bytes(&self) -> (r: Vec<u8>)
        requires
            val_fits(self@),
        ensures
            r@ == val_bytes(self@),
    {
        let plen = self.value.as_str().len();
        let mut r = crate::codec::u64_to_be((plen + 1) as u64);
        let mut vb = self.value.as_str().as_bytes_vec();
        r.append(&mut vb);
        r.push(
            if self.is_delete {
                1
            } else {
                0
            },
        );
        proof {
            assert(r@ =~= val_bytes(self@));
        }
        r
    }

    /// Decodes a value segment, the exact bytes from `value_len` through the
    /// tombstone byte.  Fails on a truncated or oversized segment, a zero
    /// `value_len`, a non-UTF-8 payload, or a tombstone byte other than 0
    /// and 1.
    pub fn from_bytes(bytes: Vec<u8>) -> (r: Result<Self, ConvertError>)
        ensures
            match parse_val(bytes@) {
                Some(v) => r matches Ok(val) && val@ == v,
                None => r is Err,
            },
    {
        let n = bytes.len();
        if n < 9 {
            return Err(
                ConvertError::UnexpectedEof("the value segment is shorter than 9 bytes".to_owned()),
            );
        }
        let vlen64 = crate::codec::read_u64_be(&bytes, 0);
        if vlen64 == 0 {
            return Err(
                ConvertError::FailedBytesToValue("the value length prefix is zero".to_owned()),
            );
        }
        if vlen64 != (n - 8) as u64 {
            return Err(
                ConvertError::UnexpectedEof(
                    "the value length prefix does not match the segment".to_owned(),
                ),
            );
        }
        let plen = n - 9;
        let pb = crate::codec::copy_range(&bytes, 8, plen);
        let tb = bytes[n - 1];
        proof {
            assert(bytes@.subrange(0, 8) == bytes@.subrange(0int, 0int + 8));
            assert(pb@ == bytes@.subrange(8, 8 + (n - 8) - 1));
            assert(tb == bytes@[8 + (n - 8) - 1]);
        }
        if tb > 1 {
            return Err(
                ConvertError::FailedBytesToValue(
                    "the tombstone byte is neither 0 nor 1".to_owned(),
                ),
            );
        }
        match crate::codec::bytes_to_string(pb) {
            Some(s) => Ok(Value { value: s, is_delete: tb == 1 }),
            None => Err(
                ConvertError::FailedBytesToValue("the payload is not valid UTF-8".to_owned()),
            ),
        }
    }
}

/// Value round-trip: decoding the encoded segment of any encodable value
/// yields that value back.
pub proof fn lemma_value_round_trip(v: ValView)
    requires
        val_fits(v),
    ensures
        parse_val(val_bytes(v)) == Some(v),
{
    crate::codec::lemma_parse_val_of_val_bytes(v);
}

} // verus!
