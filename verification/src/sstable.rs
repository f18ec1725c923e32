//! Immutable sorted tables: an in-memory image of the table file's bytes
//! together with an index from each key to the offset of its record frame.
use crate::codec::{
    dec_frame, entries_lookup, frame_bytes, frame_size, lemma_dec_frame_bounds,
    lemma_dec_frame_prefix, lemma_dec_of_frame, lemma_lookup_absent, lemma_lookup_at,
    lemma_lookup_push, lemma_lookup_some_index, lemma_parse_rest_append, parse_rest, rec_fits,
    RecView, ValView,
};
use crate::error::{IOError, KVSError};
use crate::frames::{decode_record, encode_record, rec_of};
use crate::memtable::Memtable;
use crate::value::Value;
use vstd::prelude::*;
use vstd::string::{StrSliceExecFns, StringExecFns, StringSliceAdditionalSpecFns};

verus! {

/// One index entry: a key and the byte offset of its record frame.
pub struct IndexEntry {
    pub key: String,
    pub offset: usize,
}

/// The path of a file `name` inside the directory `dir`.
pub open spec fn joined_path(dir: Seq<char>, name: Seq<char>) -> Seq<char> {
    dir + "/"@ + name
}

/// An immutable sorted table: the file's bytes and the index built over
/// them.
pub struct SSTable {
    /// The path of the table's file, for removal during compaction.
    pub data_path: String,
    /// The file's name inside the data directory.
    pub file_name: String,
    /// The bytes of the table's file.
    pub data: Vec<u8>,
    /// For each key in the file, the offset of its (latest) record frame.
    pub index: Vec<IndexEntry>,
}

/// The index is faithful to the data: every index entry points at a
/// well-formed frame carrying its key whose value is what the whole record
/// sequence yields for that key, index keys are unique, and every record's
/// key has an index entry.
pub open spec fn index_ok(data: Seq<u8>, index: Seq<IndexEntry>, rs: Seq<RecView>) -> bool {
    &&& forall|i: int|
        0 <= i < index.len() ==> ((#[trigger] dec_frame(data.skip(index[i].offset as int)))
            matches Some(p) && index[i].offset <= data.len() && p.0.key == index[i].key@
            && entries_lookup(rs, p.0.key) == Some(p.0.value))
    &&& forall|i: int, j: int|
        0 <= i < j < index.len() ==> (#[trigger] index[i].key@) != (#[trigger] index[j].key@)
    &&& forall|j: int|
        #![trigger rs[j].key]
        0 <= j < rs.len() ==> exists|i: int|
            0 <= i < index.len() && (#[trigger] index[i].key@) == rs[j].key
}

impl SSTable {
    /// The records the table's bytes hold, in file order.
    pub open spec fn recs(self) -> Seq<RecView> {
        parse_rest(self.data@).unwrap()
    }

    /// The value the table stores for `k`, if any (tombstones included).
    pub open spec fn lookup(self, k: Seq<char>) -> Option<ValView> {
        entries_lookup(self.recs(), k)
    }

    /// Well-formedness: the bytes parse as record frames and the index is
    /// faithful to them.
    pub open spec fn wf(self) -> bool {
        &&& parse_rest(self.data@) is Some
        &&& index_ok(self.data@, self.index@, self.recs())
    }

    /// Seals a memtable into a new table named `<filename>.dat` inside
    /// `data_dir`: its records in ascending key order, and the index built
    /// while writing.
    #[verifier::rlimit(100)]
    pub fn create(data_dir: &str, memtable: &Memtable, filename: &str) -> (r: Result<
        SSTable,
        IOError,
    >)
        requires
            memtable.wf(),
            forall|j: int| 0 <= j < memtable.recs().len() ==> rec_fits(#[trigger] memtable.recs()[j]),
        ensures
            r matches Ok(t) && t.wf() && t.recs() == memtable.recs() && t.file_name@ == filename@
                + ".dat"@ && t.data_path@ == joined_path(data_dir@, filename@ + ".dat"@),
    {
        let mut name = filename.to_owned();
        name.append(".dat");
        let mut data_path = data_dir.to_owned();
        data_path.append("/");
        data_path.append(name.as_str());
        let mut data: Vec<u8> = Vec::new();
        let mut index: Vec<IndexEntry> = Vec::new();
        let n = memtable.entries.len();
        let ghost rs = memtable.recs();
        proof {
            crate::memtable::lemma_sorted_distinct(rs);
            assert(parse_rest(data@) == Some(Seq::<RecView>::empty())) by {
                assert(data@ =~= Seq::<u8>::empty());
            }
            assert(rs.subrange(0, 0) =~= Seq::<RecView>::empty());
        }
        let mut i: usize = 0;
        while i < n
            invariant
                memtable.wf(),
                forall|j: int|
                    0 <= j < memtable.recs().len() ==> rec_fits(#[trigger] memtable.recs()[j]),
                rs == memtable.recs(),
                n == rs.len(),
                i <= n,
                parse_rest(data@) == Some(rs.subrange(0, i as int)),
                index@.len() == i,
                forall|j: int| 0 <= j < i ==> (#[trigger] index@[j].key@) == rs[j].key,
                index_ok(data@, index@, rs.subrange(0, i as int)),
            decreases n - i,
        {
            let e = &memtable.entries[i];
            let offset = data.len();
            let ghost old_index = index@;
            proof {
                assert(rs[i as int] == rec_of(e.key@, e.value@));
            }
            index.push(IndexEntry { key: e.key.clone(), offset });
            let mut frame = encode_record(e.key.as_str(), &e.value);
            let ghost data0 = data@;
            let ghost fr = rs[i as int];
            data.append(&mut frame);
            proof {
                let pre = rs.subrange(0, i as int);
                let pre1 = rs.subrange(0, i as int + 1);
                assert(fr == rec_of(e.key@, e.value@));
                lemma_parse_rest_append(data0, fr);
                assert(data@ == data0 + frame_bytes(fr));
                assert(pre.push(fr) =~= pre1);
                assert(parse_rest(data@) == Some(pre1));
                crate::memtable::lemma_sorted_distinct(rs);
                assert(crate::codec::keys_distinct(pre1)) by {
                    assert forall|a: int, b: int| 0 <= a < b < pre1.len() implies pre1[a].key
                        != pre1[b].key by {
                        assert(pre1[a] == rs[a]);
                        assert(pre1[b] == rs[b]);
                    }
                }
                assert(index_ok(data@, index@, pre1)) by {
                    lemma_dec_of_frame(fr, Seq::<u8>::empty());
                    assert(data@.skip(offset as int) =~= frame_bytes(fr) + Seq::<u8>::empty());
                    assert(dec_frame(data@.skip(offset as int)) == Some((fr, frame_size(fr))));
                    lemma_lookup_at(pre1, i as int);
                    assert forall|j: int| 0 <= j < index@.len() - 1 implies ((#[trigger] dec_frame(
                        data@.skip(index@[j].offset as int),
                    )) matches Some(p) && index@[j].offset <= data@.len() && p.0.key
                        == index@[j].key@ && entries_lookup(pre1, p.0.key) == Some(p.0.value)) by {
                        assert(index@[j] == old_index[j]);
                        assert(dec_frame(data0.skip(index@[j].offset as int)) matches Some(p)
                            && p.0.key == index@[j].key@ && entries_lookup(pre, p.0.key) == Some(
                            p.0.value,
                        ));
                        lemma_dec_frame_prefix(data0.skip(index@[j].offset as int), frame_bytes(fr));
                        assert(data@.skip(index@[j].offset as int) =~= data0.skip(
                            index@[j].offset as int,
                        ) + frame_bytes(fr));
                        assert(pre1[j] == pre[j]);
                        lemma_lookup_push(pre, fr, index@[j].key@);
                    }
                    assert forall|j: int|
                        #![trigger pre1[j].key]
                        0 <= j < pre1.len() implies exists|ii: int|
                        0 <= ii < index@.len() && (#[trigger] index@[ii].key@) == pre1[j].key by {
                        assert(index@[j].key@ == rs[j].key);
                    }
                }
            }
            i = i + 1;
        }
        proof {
            assert(rs.subrange(0, n as int) =~= rs);
        }
        Ok(SSTable { data_path, file_name: name, data, index })
    }

    /// Opens a table from the bytes of a file `name` inside `data_dir`,
    /// rebuilding the index by scanning the frames.  Fails exactly when the
    /// bytes are not a concatenation of well-formed frames.
    pub fn from_file(data_dir: &str, name: String, data: Vec<u8>) -> (r: Result<SSTable, KVSError>)
        ensures
            match parse_rest(data@) {
                Some(rs) => r matches Ok(t) && t.wf() && t.recs() == rs && t.data@ == data@
                    && t.file_name@ == name@ && t.data_path@ == joined_path(data_dir@, name@),
                None => r is Err,
            },
    {
        let mut data_path = data_dir.to_owned();
        data_path.append("/");
        data_path.append(name.as_str());
        let size = data.len();
        let mut index: Vec<IndexEntry> = Vec::new();
        let ghost total = data@;
        let mut offset: usize = 0;
        let ghost mut parsed = Seq::<RecView>::empty();
        proof {
            assert(data@.skip(0) =~= data@);
            assert(parsed + parse_rest(data@).unwrap() =~= parse_rest(data@).unwrap());
        }
        while offset < size
            invariant
                size == data@.len(),
                offset <= size,
                parse_rest(data@) == match parse_rest(data@.skip(offset as int)) {
                    Option::Some(rest) => Some(parsed + rest),
                    Option::None => Option::<Seq<RecView>>::None,
                },
                index_ok(data@, index@, parsed),
            decreases size - offset,
        {
            let ghost suffix = data@.skip(offset as int);
            let (key, value, sz) = match decode_record(&data, offset) {
                Ok(t) => t,
                Err(e) => {
                    proof {
                        assert(suffix.len() > 0);
                        assert(parse_rest(suffix) is None);
                    }
                    return Err(KVSError::FailedConvert(e));
                },
            };
            let ghost fr = dec_frame(suffix).unwrap().0;
            let ghost parsed0 = parsed;
            proof {
                lemma_dec_frame_bounds(suffix);
                assert(data@.skip(offset as int + sz as int) =~= suffix.skip(sz as int));
                let tail = parse_rest(data@.skip(offset as int + sz as int));
                if tail is Some {
                    assert(parsed0 + (seq![fr] + tail.unwrap()) =~= parsed0.push(fr)
                        + tail.unwrap());
                }
                parsed = parsed0.push(fr);
            }
            match find_index(&index, key.as_str()) {
                Some(j) => {
                    let ghost index0 = index@;
                    let _ = self_index_remove(&mut index, j);
                    index.insert(j, IndexEntry { key, offset });
                    proof {
                        assert(index@ =~= index0.update(j as int, index@[j as int]));
                        lemma_index_ok_after_update(
                            data@,
                            index0,
                            index@,
                            parsed0,
                            fr,
                            j as int,
                            offset as int,
                        );
                    }
                },
                None => {
                    let ghost index0 = index@;
                    index.push(IndexEntry { key, offset });
                    proof {
                        assert(index@.drop_last() =~= index0);
                        lemma_index_ok_after_push(data@, index@, parsed0, fr, offset as int);
                    }
                },
            }
            offset = offset + sz;
        }
        proof {
            assert(data@.skip(size as int) =~= Seq::<u8>::empty());
            assert(parse_rest(Seq::<u8>::empty()) == Some(Seq::<RecView>::empty()));
            assert(parsed + Seq::<RecView>::empty() =~= parsed);
            assert(parse_rest(data@) == Some(parsed));
        }
        Ok(SSTable { data_path, file_name: name, data, index })
    }

    /// Looks a key up through the index and decodes its frame.  A present
    /// key may map to a tombstone; callers apply tombstone semantics.
    pub fn get(&self, key: &str) -> (r: Result<Option<Value>, KVSError>)
        requires
            self.wf(),
        ensures
            match self.lookup(key@) {
                Some(v) => r matches Ok(o) && o matches Some(val) && val@ == v,
                None => r matches Ok(o) && o is None,
            },
    {
        let n = self.index.len();
        let mut i: usize = 0;
        while i < n
            invariant
                self.wf(),
                n == self.index@.len(),
                i <= n,
                forall|j: int| 0 <= j < i ==> (#[trigger] self.index@[j].key@) != key@,
            decreases n - i,
        {
            let e = &self.index[i];
            if crate::codec::str_eq(key, e.key.as_str()) {
                let sz = self.data.len();
                proof {
                    assert(dec_frame(self.data@.skip(e.offset as int)) is Some);
                    lemma_dec_frame_bounds(self.data@.skip(e.offset as int));
                }
                match decode_record(&self.data, e.offset) {
                    Ok((_k, v, _sz)) => {
                        return Ok(Some(v));
                    },
                    Err(err) => {
                        proof {
                            assert(false);
                        }
                        return Err(KVSError::FailedConvert(err));
                    },
                }
            }
            i = i + 1;
        }
        proof {
            assert forall|j: int| 0 <= j < self.recs().len() implies self.recs()[j].key
                != key@ by {
                let ii = choose|ii: int|
                    0 <= ii < self.index@.len() && self.index@[ii].key@ == self.recs()[j].key;
                assert(self.index@[ii].key@ != key@);
            }
            lemma_lookup_absent(self.recs(), key@);
        }
        Ok(None)
    }

    /// The keys the index holds, in index order.
    pub fn keys(&self) -> (r: Vec<String>)
        ensures
            r@.len() == self.index@.len(),
            forall|i: int| 0 <= i < r@.len() ==> (#[trigger] r@[i]@) == self.index@[i].key@,
    {
        let mut r: Vec<String> = Vec::new();
        let n = self.index.len();
        let mut i: usize = 0;
        while i < n
            invariant
                n == self.index@.len(),
                i <= n,
                r@.len() == i,
                forall|j: int| 0 <= j < i ==> (#[trigger] r@[j]@) == self.index@[j].key@,
            decreases n - i,
        {
            let e = &self.index[i];
            r.push(e.key.clone());
            i = i + 1;
        }
        r
    }
}

/// Finds the position of a key in the index, if present.
fn find_index(index: &Vec<IndexEntry>, key: &str) -> (r: Option<usize>)
    ensures
        match r {
            Some(j) => j < index@.len() && index@[j as int].key@ == key@,
            None => forall|i: int| 0 <= i < index@.len() ==> (#[trigger] index@[i].key@) != key@,
        },
{
    let n = index.len();
    let mut i: usize = 0;
    while i < n
        invariant
            n == index@.len(),
            i <= n,
            forall|j: int| 0 <= j < i ==> (#[trigger] index@[j].key@) != key@,
        decreases n - i,
    {
        let e = &index[i];
        if crate::codec::str_eq(key, e.key.as_str()) {
            return Some(i);
        }
        i = i + 1;
    }
    None
}

/// Removes the index entry at `j`.
fn self_index_remove(index: &mut Vec<IndexEntry>, j: usize) -> (r: IndexEntry)
    requires
        j < old(index)@.len(),
    ensures
        final (index)@ == old(index)@.remove(j as int),
{
    index.remove(j)
}

/// After one more record is parsed and its key's index entry replaced, the
/// index is still faithful.
proof fn lemma_index_ok_after_update(
    data: Seq<u8>,
    index0: Seq<IndexEntry>,
    index1: Seq<IndexEntry>,
    parsed0: Seq<RecView>,
    fr: RecView,
    j: int,
    offset: int,
)
    requires
        index_ok(data, index0, parsed0),
        0 <= j < index0.len(),
        index1.len() == index0.len(),
        index1 == index0.update(j, index1[j]),
        index1[j].key@ == fr.key,
        index1[j].offset == offset,
        index0[j].key@ == fr.key,
        0 <= offset <= data.len(),
        dec_frame(data.skip(offset)) matches Some(p) && p.0 == fr,
    ensures
        index_ok(data, index1, parsed0.push(fr)),
{
    assert forall|i: int| 0 <= i < index1.len() implies ((#[trigger] dec_frame(
        data.skip(index1[i].offset as int),
    )) matches Some(p) && index1[i].offset <= data.len() && p.0.key == index1[i].key@
        && entries_lookup(parsed0.push(fr), p.0.key) == Some(p.0.value)) by {
        if i != j {
            assert(index1[i] == index0[i]);
            let p = dec_frame(data.skip(index0[i].offset as int)).unwrap();
            assert(index0[i].key@ != index0[j].key@);
            lemma_lookup_push(parsed0, fr, p.0.key);
        } else {
            lemma_lookup_push(parsed0, fr, fr.key);
        }
    }
    assert forall|i: int, j2: int| 0 <= i < j2 < index1.len() implies (#[trigger] index1[i].key@)
        != (#[trigger] index1[j2].key@) by {
        if i != j {
            assert(index1[i] == index0[i]);
        }
        if j2 != j {
            assert(index1[j2] == index0[j2]);
        }
    }
    assert forall|j2: int|
        #![trigger parsed0.push(fr)[j2].key]
        0 <= j2 < parsed0.push(fr).len() implies exists|i: int|
        0 <= i < index1.len() && (#[trigger] index1[i].key@) == parsed0.push(fr)[j2].key by {
        if j2 < parsed0.len() {
            assert(parsed0.push(fr)[j2] == parsed0[j2]);
            let ii = choose|ii: int|
                0 <= ii < index0.len() && index0[ii].key@ == parsed0[j2].key;
            assert(index1[ii].key@ == index0[ii].key@);
        } else {
            assert(index1[j].key@ == fr.key);
        }
    }
}

/// After one more record is parsed and a new index entry pushed for it, the
/// index is still faithful.
proof fn lemma_index_ok_after_push(
    data: Seq<u8>,
    index: Seq<IndexEntry>,
    parsed0: Seq<RecView>,
    fr: RecView,
    offset: int,
)
    requires
        index.len() >= 1,
        index_ok(data, index.drop_last(), parsed0),
        index.last().key@ == fr.key,
        index.last().offset == offset,
        0 <= offset <= data.len(),
        dec_frame(data.skip(offset)) matches Some(p) && p.0 == fr,
        forall|i: int| 0 <= i < index.len() - 1 ==> (#[trigger] index[i].key@) != fr.key,
    ensures
        index_ok(data, index, parsed0.push(fr)),
{
    assert forall|i: int| 0 <= i < index.len() implies ((#[trigger] dec_frame(
        data.skip(index[i].offset as int),
    )) matches Some(p) && index[i].offset <= data.len() && p.0.key == index[i].key@
        && entries_lookup(parsed0.push(fr), p.0.key) == Some(p.0.value)) by {
        if i < index.len() - 1 {
            assert(index.drop_last()[i] == index[i]);
            let p = dec_frame(data.skip(index[i].offset as int)).unwrap();
            lemma_lookup_push(parsed0, fr, p.0.key);
        } else {
            lemma_lookup_push(parsed0, fr, fr.key);
        }
    }
    assert forall|i: int, j2: int| 0 <= i < j2 < index.len() implies (#[trigger] index[i].key@)
        != (#[trigger] index[j2].key@) by {
        if j2 < index.len() - 1 {
            assert(index.drop_last()[i] == index[i]);
            assert(index.drop_last()[j2] == index[j2]);
        } else {
            assert(index.drop_last()[i] == index[i]);
        }
    }
    assert forall|j2: int|
        #![trigger parsed0.push(fr)[j2].key]
        0 <= j2 < parsed0.push(fr).len() implies exists|i: int|
        0 <= i < index.len() && (#[trigger] index[i].key@) == parsed0.push(fr)[j2].key by {
        if j2 < parsed0.len() {
            assert(parsed0.push(fr)[j2] == parsed0[j2]);
            let ii = choose|ii: int|
                0 <= ii < index.drop_last().len() && index.drop_last()[ii].key@ == parsed0[j2].key;
            assert(index[ii].key@ == parsed0[j2].key);
        } else {
            assert(index[index.len() - 1].key@ == fr.key);
        }
    }
}

} // verus!
