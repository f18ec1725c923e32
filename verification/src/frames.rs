//! Encoding and decoding of whole record frames, shared by the write-ahead
//! log and the sorted tables.
use crate::codec::{
    bytes_to_string, copy_range, dec_frame, frame_bytes, frame_size, read_u64_be, rec_fits,
    u64_to_be, RecView, ValView,
};
use crate::error::ConvertError;
use crate::value::Value;
use vstd::prelude::*;
use vstd::string::{StrSliceExecFns, StringSliceAdditionalSpecFns};

verus! {

/// The record that a key and a value stand for.
pub open spec fn rec_of(k: Seq<char>, v: ValView) -> RecView {
    RecView { key: k, value: v }
}

/// Encodes one record frame: key length, key bytes, value segment.
pub fn encode_record(key: &str, value: &Value) -> (r: Vec<u8>)
    requires
        rec_fits(rec_of(key@, value@)),
    ensures
        r@ == frame_bytes(rec_of(key@, value@)),
        r@.len() == frame_size(rec_of(key@, value@)),
{
    let klen = key.len();
    let mut r = u64_to_be(klen as u64);
    let mut kb = key.as_bytes_vec();
    r.append(&mut kb);
    let mut vb = value.to_bytes();
    r.append(&mut vb);
    proof {
        assert(r@ =~= frame_bytes(rec_of(key@, value@)));
    }
    r
}

/// Decodes the record frame that starts at `offset`.  Returns the key, the
/// value, and the frame's byte length; fails exactly when no well-formed
/// frame starts there.
pub fn decode_record(data: &Vec<u8>, offset: usize) -> (r: Result<
    (String, Value, usize),
    ConvertError,
>)
    requires
        offset <= data@.len(),
    ensures
        match dec_frame(data@.skip(offset as int)) {
            Some((rec, n)) => r matches Ok((k, v, sz)) && k@ == rec.key && v@ == rec.value && sz
                == n,
            None => r is Err,
        },
{
    let n = data.len();
    let ghost b = data@.skip(offset as int);
    proof {
        assert(b.len() == n - offset);
    }
    let avail = n - offset;
    if avail < 8 {
        return Err(ConvertError::UnexpectedEof("the record's key length is cut short".to_owned()));
    }
    let klen64 = read_u64_be(data, offset);
    proof {
        assert(data@.subrange(offset as int, offset as int + 8) =~= b.subrange(0, 8));
    }
    if avail < 16 || klen64 > (avail - 16) as u64 {
        return Err(ConvertError::UnexpectedEof("the record's key is cut short".to_owned()));
    }
    let klen = klen64 as usize;
    let kb = copy_range(data, offset + 8, klen);
    proof {
        assert(kb@ =~= b.subrange(8, 8 + klen as int));
    }
    let vlen64 = read_u64_be(data, offset + 8 + klen);
    proof {
        assert(data@.subrange((offset + 8 + klen) as int, (offset + 8 + klen) as int + 8)
            =~= b.subrange(8 + klen as int, 16 + klen as int));
    }
    if vlen64 == 0 {
        return Err(
            ConvertError::FailedBytesToValue("the record's value length prefix is zero".to_owned()),
        );
    }
    if vlen64 > (avail - 16 - klen) as u64 {
        return Err(ConvertError::UnexpectedEof("the record's value is cut short".to_owned()));
    }
    let vlen = vlen64 as usize;
    let plen = vlen - 1;
    let pb = copy_range(data, offset + 16 + klen, plen);
    let tb = data[offset + 16 + klen + plen];
    proof {
        assert(pb@ =~= b.subrange(16 + klen as int, 16 + klen as int + plen as int));
        assert(tb == b[16 + klen as int + vlen as int - 1]);
    }
    if tb > 1 {
        return Err(
            ConvertError::FailedBytesToValue(
                "the record's tombstone byte is neither 0 nor 1".to_owned(),
            ),
        );
    }
    let key = match bytes_to_string(kb) {
        Some(s) => s,
        None => {
            return Err(
                ConvertError::FailedBytesToString("the record's key is not valid UTF-8".to_owned()),
            );
        },
    };
    let payload = match bytes_to_string(pb) {
        Some(s) => s,
        None => {
            return Err(
                ConvertError::FailedBytesToValue(
                    "the record's value is not valid UTF-8".to_owned(),
                ),
            );
        },
    };
    let sz: usize = 16 + klen + vlen;
    Ok((key, Value { value: payload, is_delete: tb == 1 }, sz))
}

/// Record round-trip: decoding the frame of any record yields that record
/// and consumes exactly the frame.
pub proof fn lemma_record_round_trip(k: Seq<char>, v: ValView)
    requires
        rec_fits(rec_of(k, v)),
    ensures
        dec_frame(frame_bytes(rec_of(k, v))) == Some((rec_of(k, v), frame_size(rec_of(k, v)))),
{
    crate::codec::lemma_dec_of_frame(rec_of(k, v), Seq::empty());
    assert(frame_bytes(rec_of(k, v)) + Seq::<u8>::empty() =~= frame_bytes(rec_of(k, v)));
}

} // verus!
