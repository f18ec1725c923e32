//! The write-ahead log: an append-only image of the log file's bytes, and
//! the replay that rebuilds the memtable from them at startup.
use crate::codec::{entries_lookup, frame_bytes, frame_size, lemma_dec_frame_bounds,
    lemma_lookup_push, parse_rest, rec_fits, RecView};
use crate::error::{IOError, KVSError};
use crate::frames::{decode_record, encode_record, rec_of};
use crate::memtable::Memtable;
use crate::sstable::joined_path;
use crate::value::Value;
use vstd::prelude::*;
use vstd::string::StringExecFns;

verus! {

/// The write-ahead log.  `data` mirrors the bytes of the log file at
/// `path`: a concatenation of record frames in write order.
#[derive(Debug, PartialEq)]
pub struct WriteAheadLog {
    pub path: String,
    pub data: Vec<u8>,
}

impl WriteAheadLog {
    /// Opens the log named `filename` inside `data_dir`, over the bytes the
    /// log file currently holds (none when it was just created).
    pub fn new(data_dir: &str, filename: &str, data: Vec<u8>) -> (r: Self)
        ensures
            r.path@ == joined_path(data_dir@, filename@),
            r.data@ == data@,
    {
        let mut path = data_dir.to_owned();
        path.append("/");
        path.append(filename);
        WriteAheadLog { path, data }
    }

    /// The path of the log file.
    pub fn path(&self) -> (r: &String)
        ensures
            r@ == self.path@,
    {
        &self.path
    }

    /// Appends one record frame, returning the number of bytes written.
    pub fn write(&mut self, key: &str, value: &Value) -> (r: Result<usize, IOError>)
        requires
            rec_fits(rec_of(key@, value@)),
        ensures
            final (self).path@ == old(self).path@,
            final (self).data@ == old(self).data@ + frame_bytes(rec_of(key@, value@)),
            r matches Ok(n) && n == frame_size(rec_of(key@, value@)),
    {
        let mut frame = encode_record(key, value);
        let n = frame.len();
        self.data.append(&mut frame);
        Ok(n)
    }

    /// Truncates the log to zero bytes.
    pub fn clear(&mut self) -> (r: Result<(), IOError>)
        ensures
            final (self).path@ == old(self).path@,
            final (self).data@ == Seq::<u8>::empty(),
            r is Ok,
    {
        self.data.clear();
        proof {
            assert(self.data@ =~= Seq::<u8>::empty());
        }
        Ok(())
    }

    /// Replays the log into a fresh memtable, applying records in write
    /// order so that the latest record for a key wins.  Fails exactly when
    /// the bytes are not a concatenation of well-formed frames (a partial
    /// trailing frame included).
    pub fn recovery(&self) -> (r: Result<Memtable, KVSError>)
        ensures
            match parse_rest(self.data@) {
                Some(rs) => r matches Ok(m) && m.wf() && (forall|k: Seq<char>| #[trigger]
                    m.lookup(k) == entries_lookup(rs, k)) && (forall|j: int|
                    0 <= j < m.recs().len() ==> rec_fits(#[trigger] m.recs()[j])),
                None => r is Err,
            },
    {
        let mut btm = Memtable::new();
        let size = self.data.len();
        let mut offset: usize = 0;
        let ghost mut parsed = Seq::<RecView>::empty();
        proof {
            assert(self.data@.skip(0) =~= self.data@);
            if parse_rest(self.data@) is Some {
                assert(parsed + parse_rest(self.data@).unwrap() =~= parse_rest(
                    self.data@,
                ).unwrap());
            }
            assert(btm.lookup(Seq::<char>::empty()) is None);
        }
        while offset < size
            invariant
                size == self.data@.len(),
                offset <= size,
                parse_rest(self.data@) == match parse_rest(self.data@.skip(offset as int)) {
                    Option::Some(rest) => Some(parsed + rest),
                    Option::None => Option::<Seq<RecView>>::None,
                },
                btm.wf(),
                forall|k: Seq<char>| #[trigger] btm.lookup(k) == entries_lookup(parsed, k),
                forall|j: int| 0 <= j < btm.recs().len() ==> rec_fits(#[trigger] btm.recs()[j]),
            decreases size - offset,
        {
            let ghost suffix = self.data@.skip(offset as int);
            let (key, value, sz) = match decode_record(&self.data, offset) {
                Ok(t) => t,
                Err(e) => {
                    proof {
                        assert(suffix.len() > 0);
                        assert(parse_rest(suffix) is None);
                    }
                    return Err(KVSError::FailedConvert(e));
                },
            };
            let ghost fr = crate::codec::dec_frame(suffix).unwrap().0;
            let ghost parsed0 = parsed;
            proof {
                lemma_dec_frame_bounds(suffix);
                assert(self.data@.skip(offset as int + sz as int) =~= suffix.skip(sz as int));
                let tail = parse_rest(self.data@.skip(offset as int + sz as int));
                if tail is Some {
                    assert(parsed0 + (seq![fr] + tail.unwrap()) =~= parsed0.push(fr)
                        + tail.unwrap());
                }
                parsed = parsed0.push(fr);
            }
            let ghost btm0 = btm;
            btm.insert(key, value);
            proof {
                assert forall|k: Seq<char>| #[trigger] btm.lookup(k) == entries_lookup(
                    parsed,
                    k,
                ) by {
                    lemma_lookup_push(parsed0, fr, k);
                }
                crate::codec::lemma_dec_frame_fits(suffix);
                assert(rec_fits(fr));
                assert forall|j: int| 0 <= j < btm.recs().len() implies rec_fits(
                    #[trigger] btm.recs()[j],
                ) by {
                    if btm.recs()[j] == (RecView { key: key@, value: value@ }) {
                        assert(rec_fits(fr));
                    } else {
                        let j0 = choose|j0: int|
                            0 <= j0 < btm0.recs().len() && btm.recs()[j] == btm0.recs()[j0];
                        assert(rec_fits(btm0.recs()[j0]));
                    }
                }
            }
            offset = offset + sz;
        }
        proof {
            assert(self.data@.skip(size as int) =~= Seq::<u8>::empty());
            assert(parse_rest(Seq::<u8>::empty()) == Some(Seq::<RecView>::empty()));
            assert(parsed + Seq::<RecView>::empty() =~= parsed);
            assert(parse_rest(self.data@) == Some(parsed));
        }
        Ok(btm)
    }
}

} // verus!
