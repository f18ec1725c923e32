//! A standalone record that also carries a timestamp, with its own
//! byte-frame round trip.
use crate::codec::{be_u64, bytes_to_string, copy_range, read_u64_be, u64_be, u64_to_be};
use crate::decimal::dec_digits;
use crate::error::RecordError;
use vstd::prelude::*;
use vstd::string::{StrSliceExecFns, StringExecFns, StringSliceAdditionalSpecFns};
use vstd::utf8::{decode_utf8, encode_utf8, valid_utf8};

verus! {

/// Model of a standalone record.
pub struct RecordView {
    pub key: Seq<char>,
    pub value: Seq<char>,
    pub timestamp: i64,
    pub is_delete: bool,
}

/// A record of a key, a value, the time it was written, and a tombstone
/// flag.
#[derive(Debug, PartialEq)]
pub struct Record {
    pub key: String,
    pub value: String,
    pub timestamp: i64,
    pub is_delete: bool,
}

impl View for Record {
    type V = RecordView;

    open spec fn view(&self) -> RecordView {
        RecordView {
            key: self.key@,
            value: self.value@,
            timestamp: self.timestamp,
            is_delete: self.is_delete,
        }
    }
}

/// The byte form of a record: key length, key, value length, value,
/// timestamp, tombstone byte — integers big-endian.
pub open spec fn record_bytes(r: RecordView) -> Seq<u8> {
    u64_be(encode_utf8(r.key).len() as u64) + encode_utf8(r.key) + u64_be(
        encode_utf8(r.value).len() as u64,
    ) + encode_utf8(r.value) + u64_be(r.timestamp as u64) + seq![
        if r.is_delete {
            1u8
        } else {
            0u8
        },
    ]
}

/// Machine bounds under which a record can be framed.
pub open spec fn record_fits(r: RecordView) -> bool {
    &&& encode_utf8(r.key).len() <= u64::MAX
    &&& encode_utf8(r.value).len() <= u64::MAX
    &&& 25 + encode_utf8(r.key).len() + encode_utf8(r.value).len() <= usize::MAX
}

/// Parses the record at the front of `b`; bytes after the frame are
/// ignored.  `None` on truncated data, a non-UTF-8 key or value, or a
/// tombstone byte other than 0 and 1.
pub open spec fn parse_record(b: Seq<u8>) -> Option<RecordView> {
    if b.len() < 8 {
        None
    } else {
        let klen = be_u64(b.subrange(0, 8)) as int;
        if b.len() < 16 + klen {
            None
        } else {
            let kb = b.subrange(8, 8 + klen);
            let vlen = be_u64(b.subrange(8 + klen, 16 + klen)) as int;
            if b.len() < 25 + klen + vlen {
                None
            } else {
                let vb = b.subrange(16 + klen, 16 + klen + vlen);
                let ts = be_u64(b.subrange(16 + klen + vlen, 24 + klen + vlen)) as i64;
                let tb = b[24 + klen + vlen];
                if valid_utf8(kb) && valid_utf8(vb) && tb <= 1 {
                    Some(
                        RecordView {
                            key: decode_utf8(kb),
                            value: decode_utf8(vb),
                            timestamp: ts,
                            is_delete: tb == 1,
                        },
                    )
                } else {
                    None
                }
            }
        }
    }
}

/// The tombstone byte of `b`, whatever its value, when everything before it
/// is well-formed.
pub open spec fn record_tomb_byte(b: Seq<u8>) -> Option<u8> {
    if b.len() < 8 {
        None
    } else {
        let klen = be_u64(b.subrange(0, 8)) as int;
        if b.len() < 16 + klen {
            None
        } else {
            let kb = b.subrange(8, 8 + klen);
            let vlen = be_u64(b.subrange(8 + klen, 16 + klen)) as int;
            if b.len() < 25 + klen + vlen {
                None
            } else {
                let vb = b.subrange(16 + klen, 16 + klen + vlen);
                if valid_utf8(kb) && valid_utf8(vb) {
                    Some(b[24 + klen + vlen])
                } else {
                    None
                }
            }
        }
    }
}

/// The message reported for a tombstone byte outside {0, 1}.
pub open spec fn invalid_tomb_msg(tb: u8) -> Seq<char> {
    "Invalid value '"@ + dec_digits(tb as nat) + "' is read. is_delete expect '0' or '1'"@
}

impl Record {
    /// Builds a record from its parts.
    pub fn new(k: &str, v: &str, timestamp: i64, is_delete: bool) -> (r: Self)
        ensures
            r@.key == k@,
            r@.value == v@,
            r@.timestamp == timestamp,
            r@.is_delete == is_delete,
    {
        Record { key: k.to_owned(), value: v.to_owned(), timestamp, is_delete }
    }

    /// Encodes the record as one byte frame.
    pub fn to_vec(self) -> (r: Vec<u8>)
        requires
            record_fits(self@),
        ensures
            r@ == record_bytes(self@),
    {
        let klen = self.key.as_str().len();
        let vlen = self.value.as_str().len();
        let mut r = u64_to_be(klen as u64);
        let mut kb = self.key.as_str().as_bytes_vec();
        r.append(&mut kb);
        let mut lb = u64_to_be(vlen as u64);
        r.append(&mut lb);
        let mut vb = self.value.as_str().as_bytes_vec();
        r.append(&mut vb);
        let mut tsb = u64_to_be(self.timestamp as u64);
        r.append(&mut tsb);
        r.push(
            if self.is_delete {
                1
            } else {
                0
            },
        );
        proof {
            assert(r@ =~= record_bytes(self@));
        }
        r
    }

    /// Decodes a record frame.  A tombstone byte outside {0, 1} is reported
    /// with the offending value in the message.
    pub fn from_vec(vec: Vec<u8>) -> (r: Result<Self, RecordError>)
        ensures
            match parse_record(vec@) {
                Some(rv) => r matches Ok(rec) && rec@ == rv,
                None => r is Err,
            },
            record_tomb_byte(vec@) is Some && record_tomb_byte(vec@).unwrap() > 1 ==> (r matches
            Err(e) && (e matches RecordError::FailedFromBytes(m) && m@ == invalid_tomb_msg(
                record_tomb_byte(vec@).unwrap(),
            ))),
    {
        let n = vec.len();
        if n < 8 {
            return Err(
                RecordError::FailedFromBytes("failed to read the key length: the data ends before it".to_owned()),
            );
        }
        let klen64 = read_u64_be(&vec, 0);
        proof {
            assert(vec@.subrange(0int, 0int + 8) == vec@.subrange(0, 8));
        }
        if n < 16 || klen64 > (n - 16) as u64 {
            return Err(
                RecordError::FailedFromBytes("failed to read the key: the data ends inside it".to_owned()),
            );
        }
        let klen = klen64 as usize;
        let kb = copy_range(&vec, 8, klen);
        let vlen64 = read_u64_be(&vec, 8 + klen);
        proof {
            assert(vec@.subrange((8 + klen) as int, (8 + klen) as int + 8) == vec@.subrange(
                8 + klen as int,
                16 + klen as int,
            ));
        }
        if n - 16 - klen < 9 || vlen64 > (n - 25 - klen) as u64 {
            return Err(
                RecordError::FailedFromBytes("failed to read the value: the data ends inside it".to_owned()),
            );
        }
        let vlen = vlen64 as usize;
        let vb = copy_range(&vec, 16 + klen, vlen);
        let ts64 = read_u64_be(&vec, 16 + klen + vlen);
        proof {
            assert(vec@.subrange((16 + klen + vlen) as int, (16 + klen + vlen) as int + 8)
                == vec@.subrange(16 + klen as int + vlen as int, 24 + klen as int + vlen as int));
        }
        let timestamp = #[verifier::truncate] (ts64 as i64);
        let tb = vec[24 + klen + vlen];
        let key = match bytes_to_string(kb) {
            Some(s) => s,
            None => {
                return Err(
                    RecordError::FailedFromBytes("the key is not valid UTF-8".to_owned()),
                );
            },
        };
        let value = match bytes_to_string(vb) {
            Some(s) => s,
            None => {
                return Err(
                    RecordError::FailedFromBytes("the value is not valid UTF-8".to_owned()),
                );
            },
        };
        if tb > 1 {
            let mut m = "Invalid value '".to_owned();
            let digits = crate::decimal::u8_to_string(tb);
            m.append(digits.as_str());
            m.append("' is read. is_delete expect '0' or '1'");
            return Err(RecordError::FailedFromBytes(m));
        }
        Ok(Record { key, value, timestamp, is_delete: tb == 1 })
    }
}

/// Round trip of the standalone record codec: parsing the encoding of any
/// record yields that record.
pub proof fn lemma_record_frame_round_trip(r: RecordView)
    requires
        record_fits(r),
    ensures
        parse_record(record_bytes(r)) == Some(r),
{
    broadcast use vstd::utf8::encode_utf8_valid_utf8, vstd::utf8::encode_utf8_decode_utf8;

    let kb = encode_utf8(r.key);
    let vb = encode_utf8(r.value);
    let klen = kb.len() as int;
    let vlen = vb.len() as int;
    let b = record_bytes(r);
    assert(b.len() == 25 + klen + vlen);
    assert(b.subrange(0, 8) =~= u64_be(klen as u64));
    crate::codec::lemma_be_u64_of_u64_be(klen as u64);
    assert(b.subrange(8, 8 + klen) =~= kb);
    assert(b.subrange(8 + klen, 16 + klen) =~= u64_be(vlen as u64));
    crate::codec::lemma_be_u64_of_u64_be(vlen as u64);
    assert(b.subrange(16 + klen, 16 + klen + vlen) =~= vb);
    assert(b.subrange(16 + klen + vlen, 24 + klen + vlen) =~= u64_be(r.timestamp as u64));
    crate::codec::lemma_be_u64_of_u64_be(r.timestamp as u64);
    let ts = r.timestamp;
    assert((ts as u64) as i64 == ts) by (bit_vector);
    assert(b[24 + klen + vlen] == if r.is_delete {
        1u8
    } else {
        0u8
    });
    assert(decode_utf8(kb) == r.key);
    assert(decode_utf8(vb) == r.value);
}

} // verus!
