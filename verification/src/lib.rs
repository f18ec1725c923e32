//! A log-structured key-value store: an in-memory ordered memtable backed
//! by a write-ahead log and immutable sorted tables, with flush and
//! compaction.  The engine keeps an exact in-memory image of its files and
//! hands the disk operations to its caller as an ordered list of actions.
pub mod codec;
pub mod decimal;
pub mod error;
pub mod frames;
pub mod keyvalue;
pub mod memtable;
pub mod names;
pub mod record;
pub mod repl;
pub mod shell;
pub mod sstable;
pub mod tokens;
pub mod value;
pub mod wal;

use crate::codec::{dec_frame, entries_lookup, frame_bytes, lemma_lookup_push,
    lemma_parse_rest_append, parse_rest, rec_fits, RecView, ValView};
use crate::error::{IOError, KVSError};
use crate::frames::rec_of;
use crate::memtable::Memtable;
use crate::names::{key_le, name_key};
use crate::sstable::SSTable;
use crate::value::Value;
use crate::wal::WriteAheadLog;
use vstd::prelude::*;

verus! {

/// A table file as read from the data directory: its name and its bytes.
pub struct DataFile {
    pub name: String,
    pub data: Vec<u8>,
}

/// One disk operation the engine asks its caller to perform.  The caller
/// drains the pending actions after every engine call and applies them in
/// order; that order carries the store's durability guarantees.
pub enum DiskAction {
    /// Append these bytes to the write-ahead log file.
    AppendWal { bytes: Vec<u8> },
    /// Truncate the write-ahead log file to zero bytes.
    TruncateWal,
    /// Create or overwrite the table file `name` in the data directory.
    WriteTable { name: String, bytes: Vec<u8> },
    /// Remove the table file at this path.
    RemoveTable { path: String },
}

pub open spec fn act_is_append(a: DiskAction, bytes: Seq<u8>) -> bool {
    a matches DiskAction::AppendWal { bytes: b } && b@ == bytes
}

pub open spec fn act_is_trunc(a: DiskAction) -> bool {
    a is TruncateWal
}

pub open spec fn act_is_write(a: DiskAction, name: Seq<char>, bytes: Seq<u8>) -> bool {
    a matches DiskAction::WriteTable { name: n, bytes: b } && n@ == name && b@ == bytes
}

pub open spec fn act_is_remove(a: DiskAction, path: Seq<char>) -> bool {
    a matches DiskAction::RemoveTable { path: p } && p@ == path
}

/// The sort key of a table file: parsed from its name.
pub open spec fn file_key(f: DataFile) -> Option<u64> {
    name_key(f.name@)
}

/// Stable insertion of a file into an already-sorted sequence: it lands
/// after every file whose key is at or below its own.
pub open spec fn insert_file(t: Seq<DataFile>, f: DataFile) -> Seq<DataFile>
    decreases t.len(),
{
    if t.len() == 0 {
        seq![f]
    } else if key_le(file_key(t.last()), file_key(f)) {
        t.push(f)
    } else {
        insert_file(t.drop_last(), f).push(t.last())
    }
}

/// Stable insertion sort of table files by the timestamps in their names,
/// ascending, so that later-created tables come later.
pub open spec fn sort_files(s: Seq<DataFile>) -> Seq<DataFile>
    decreases s.len(),
{
    if s.len() == 0 {
        Seq::empty()
    } else {
        insert_file(sort_files(s.drop_last()), s.last())
    }
}

proof fn lemma_insert_file_at(t: Seq<DataFile>, f: DataFile, p: int)
    requires
        0 <= p <= t.len(),
        forall|q: int| p <= q < t.len() ==> !key_le(file_key(#[trigger] t[q]), file_key(f)),
        p > 0 ==> key_le(file_key(t[p - 1]), file_key(f)),
    ensures
        insert_file(t, f) == t.subrange(0, p).push(f) + t.subrange(p, t.len() as int),
    decreases t.len(),
{
    if t.len() == 0 {
        assert(t.subrange(0, 0).push(f) + t.subrange(0, 0) =~= seq![f]);
    } else if key_le(file_key(t.last()), file_key(f)) {
        assert(p == t.len()) by {
            if p < t.len() {
                assert(!key_le(file_key(t[t.len() - 1]), file_key(f)));
            }
        }
        assert(t.subrange(0, p).push(f) + t.subrange(p, t.len() as int) =~= t.push(f));
    } else {
        assert(p < t.len()) by {
            if p == t.len() {
                assert(key_le(file_key(t[p - 1]), file_key(f)));
            }
        }
        let t2 = t.drop_last();
        assert(forall|q: int| p <= q < t2.len() ==> t2[q] == t[q]);
        lemma_insert_file_at(t2, f, p);
        assert((t2.subrange(0, p).push(f) + t2.subrange(p, t2.len() as int)).push(t.last()) =~= t
            .subrange(0, p).push(f) + t.subrange(p, t.len() as int));
    }
}

/// Sorting an already-sorted sequence leaves it unchanged.
proof fn lemma_sort_files_sorted_id(s: Seq<DataFile>)
    requires
        forall|i: int, j: int|
            0 <= i < j < s.len() ==> key_le(file_key(#[trigger] s[i]), file_key(#[trigger] s[j])),
    ensures
        sort_files(s) == s,
    decreases s.len(),
{
    if s.len() > 0 {
        let t = s.drop_last();
        assert(forall|i: int| 0 <= i < t.len() ==> t[i] == s[i]);
        lemma_sort_files_sorted_id(t);
        if t.len() == 0 {
            assert(insert_file(t, s.last()) =~= s);
        } else {
            assert(key_le(file_key(t[t.len() - 1]), file_key(s.last())));
            assert(t.push(s.last()) =~= s);
        }
    }
}

fn find_insert_pos(v: &Vec<DataFile>, fk: &Option<u64>) -> (p: usize)
    ensures
        p <= v@.len(),
        forall|q: int| p <= q < v@.len() ==> !key_le(file_key(#[trigger] v@[q]), *fk),
        p > 0 ==> key_le(file_key(v@[p - 1]), *fk),
{
    let mut p = v.len();
    while p > 0
        invariant
            p <= v@.len(),
            forall|q: int| p <= q < v@.len() ==> !key_le(file_key(#[trigger] v@[q]), *fk),
        decreases p,
    {
        let e = &v[p - 1];
        let ek = crate::names::file_sort_key(e.name.as_str());
        proof {
            assert(ek == file_key(v@[p - 1]));
        }
        if crate::names::key_le_exec(&ek, fk) {
            return p;
        }
        p = p - 1;
    }
    0
}

fn sorted_insert(v: &mut Vec<DataFile>, f: DataFile)
    ensures
        final (v)@ == insert_file(old(v)@, f),
{
    let fk = crate::names::file_sort_key(f.name.as_str());
    let p = find_insert_pos(v, &fk);
    proof {
        lemma_insert_file_at(v@, f, p as int);
    }
    v.insert(p, f);
    proof {
        assert(old(v)@.insert(p as int, f) == old(v)@.subrange(0, p as int).push(f) + old(
            v,
        )@.subrange(p as int, old(v)@.len() as int));
    }
}

/// Sorts table files by the timestamps in their names, ascending, keeping
/// the given order among files whose names carry no timestamp or the same
/// one.
fn sort_data_files(files: Vec<DataFile>) -> (r: Vec<DataFile>)
    ensures
        r@ == sort_files(files@),
{
    let ghost orig = files@;
    let mut files = files;
    let mut r: Vec<DataFile> = Vec::new();
    let ghost mut done: int = 0;
    proof {
        assert(files@ =~= orig.skip(0));
        assert(r@ =~= sort_files(orig.subrange(0, 0))) by {
            assert(orig.subrange(0, 0) =~= Seq::<DataFile>::empty());
        }
    }
    while files.len() > 0
        invariant
            0 <= done <= orig.len(),
            files@ == orig.skip(done),
            r@ == sort_files(orig.subrange(0, done)),
        decreases files@.len(),
    {
        let f = files.remove(0);
        proof {
            assert(f == orig[done]);
            assert(files@ =~= orig.skip(done + 1));
        }
        sorted_insert(&mut r, f);
        proof {
            let pre1 = orig.subrange(0, done + 1);
            assert(pre1.drop_last() =~= orig.subrange(0, done));
            assert(pre1.last() == orig[done]);
            done = done + 1;
        }
    }
    proof {
        assert(orig.subrange(0, done) =~= orig);
    }
    r
}

/// The value the newest table holding `k` stores for it, if any: the last
/// table in the sequence is the newest.
pub open spec fn chain_lookup(tables: Seq<SSTable>, k: Seq<char>) -> Option<ValView>
    decreases tables.len(),
{
    if tables.len() == 0 {
        None
    } else {
        match tables.last().lookup(k) {
            Some(v) => Some(v),
            None => chain_lookup(tables.drop_last(), k),
        }
    }
}

/// Whether every table file parses and the log bytes parse, so that
/// opening an engine over them succeeds.
pub open spec fn recovery_ok(files: Seq<DataFile>, wal_data: Seq<u8>) -> bool {
    &&& parse_rest(wal_data) is Some
    &&& forall|i: int| 0 <= i < files.len() ==> parse_rest((#[trigger] files[i]).data@) is Some
}

/// A key-value store: the in-memory memtable, the write-ahead log, and the
/// list of sorted tables, oldest first.
pub struct KVS {
    /// In-memory buffer of recent writes.
    pub memtable: Memtable,
    /// Flush threshold: the memtable is flushed when it grows past this
    /// many entries.
    pub limit: usize,
    /// The directory holding the log and the table files.
    pub data_dir: String,
    /// The write-ahead log.
    pub wal: WriteAheadLog,
    /// The sorted tables, oldest first; the last one is the newest.
    pub sstables: Vec<SSTable>,
    /// Disk operations not yet handed to the caller.
    pub pending: Vec<DiskAction>,
}

impl KVS {
    /// The value stored for `k`: the memtable's if it holds the key, else
    /// the newest table's.  Tombstones included.
    pub open spec fn stored(self, k: Seq<char>) -> Option<ValView> {
        match self.memtable.lookup(k) {
            Some(v) => Some(v),
            None => chain_lookup(self.sstables@, k),
        }
    }

    /// The payload a lookup of `k` returns: a stored tombstone hides the
    /// key.
    pub open spec fn visible(self, k: Seq<char>) -> Option<Seq<char>> {
        match self.stored(k) {
            Some(v) => if v.deleted {
                None
            } else {
                Some(v.payload)
            },
            None => None,
        }
    }

    /// Well-formedness: every part is well-formed, and the memtable is
    /// exactly the replay of the write-ahead log, so a crash loses nothing.
    pub open spec fn wf(self) -> bool {
        &&& self.memtable.wf()
        &&& forall|i: int| 0 <= i < self.sstables@.len() ==> (#[trigger] self.sstables@[i]).wf()
        &&& parse_rest(self.wal.data@) is Some
        &&& forall|k: Seq<char>| #[trigger]
            self.memtable.lookup(k) == entries_lookup(parse_rest(self.wal.data@).unwrap(), k)
        &&& forall|j: int|
            0 <= j < self.memtable.recs().len() ==> rec_fits(#[trigger] self.memtable.recs()[j])
    }

    /// Opens the store over a data directory's contents with the default
    /// flush threshold of 1024 entries.  `data_files` are the `.dat` files
    /// found in the directory, `wal_data` the bytes of its `wal` file.
    pub fn new(data_dir: String, data_files: Vec<DataFile>, wal_data: Vec<u8>) -> (r: Result<
        KVS,
        KVSError,
    >)
        ensures
            r is Ok <==> recovery_ok(sort_files(data_files@), wal_data@),
            r matches Ok(e) ==> e.wf() && e.limit == 1024 && e.data_dir@ == data_dir@
                && e.wal.data@ == wal_data@ && e.pending@.len() == 0 && e.sstables@.len()
                == sort_files(data_files@).len() && (forall|i: int|
                0 <= i < e.sstables@.len() ==> (#[trigger] e.sstables@[i]).recs() == parse_rest(
                    sort_files(data_files@)[i].data@,
                ).unwrap() && e.sstables@[i].file_name@ == sort_files(data_files@)[i].name@
                    && e.sstables@[i].data@ == sort_files(data_files@)[i].data@) && (forall|
                k: Seq<char>,
            | #[trigger]
                e.memtable.lookup(k) == entries_lookup(parse_rest(wal_data@).unwrap(), k)) && (
            forall|k: Seq<char>| #[trigger]
                e.stored(k) == recovered_stored(data_files@, wal_data@, k)),
    {
        Self::with_limit(data_dir, data_files, wal_data, 1024)
    }

    /// Opens the store over a data directory's contents with the given
    /// flush threshold.
    pub fn with_limit(
        data_dir: String,
        data_files: Vec<DataFile>,
        wal_data: Vec<u8>,
        limit: usize,
    ) -> (r: Result<KVS, KVSError>)
        ensures
            r is Ok ==> recovery_ok(sort_files(data_files@), wal_data@),
            recovery_ok(sort_files(data_files@), wal_data@) ==> r is Ok,
            r matches Ok(e) ==> e.wf() && e.limit == limit && e.data_dir@ == data_dir@
                && e.wal.data@ == wal_data@ && e.pending@.len() == 0 && e.sstables@.len()
                == sort_files(data_files@).len() && (forall|i: int|
                0 <= i < e.sstables@.len() ==> (#[trigger] e.sstables@[i]).recs() == parse_rest(
                    sort_files(data_files@)[i].data@,
                ).unwrap() && e.sstables@[i].file_name@ == sort_files(data_files@)[i].name@
                    && e.sstables@[i].data@ == sort_files(data_files@)[i].data@) && (forall|
                k: Seq<char>,
            | #[trigger]
                e.memtable.lookup(k) == entries_lookup(parse_rest(wal_data@).unwrap(), k)) && (
            forall|k: Seq<char>| #[trigger]
                e.stored(k) == recovered_stored(data_files@, wal_data@, k)),
    {
        let ghost sorted_spec = sort_files(data_files@);
        let mut sorted = sort_data_files(data_files);
        let mut sstables: Vec<SSTable> = Vec::new();
        let ghost mut done: int = 0;
        proof {
            assert(sorted@ =~= sorted_spec.skip(0));
        }
        while sorted.len() > 0
            invariant
                sorted_spec == sort_files(data_files@),
                0 <= done <= sorted_spec.len(),
                sorted@ == sorted_spec.skip(done),
                sstables@.len() == done,
                forall|i: int|
                    0 <= i < done ==> parse_rest((#[trigger] sorted_spec[i]).data@) is Some,
                forall|i: int|
                    0 <= i < done ==> (#[trigger] sstables@[i]).wf() && sstables@[i].recs()
                        == parse_rest(sorted_spec[i].data@).unwrap() && sstables@[i].file_name@
                        == sorted_spec[i].name@ && sstables@[i].data@ == sorted_spec[i].data@,
            decreases sorted@.len(),
        {
            let f = sorted.remove(0);
            proof {
                assert(f == sorted_spec[done]);
                assert(sorted@ =~= sorted_spec.skip(done + 1));
            }
            let t = match SSTable::from_file(data_dir.as_str(), f.name, f.data) {
                Ok(t) => t,
                Err(e) => {
                    proof {
                        assert(parse_rest(sorted_spec[done].data@) is None);
                        assert(!recovery_ok(sorted_spec, wal_data@));
                    }
                    return Err(e);
                },
            };
            sstables.push(t);
            proof {
                done = done + 1;
            }
        }
        proof {
            assert(done == sorted_spec.len());
        }
        let wal = WriteAheadLog::new(data_dir.as_str(), "wal", wal_data);
        let memtable = match wal.recovery() {
            Ok(m) => m,
            Err(e) => {
                proof {
                    assert(parse_rest(wal.data@) is None);
                    assert(!recovery_ok(sorted_spec, wal.data@));
                }
                return Err(e);
            },
        };
        proof {
            assert(parse_rest(wal.data@) is Some);
            assert(recovery_ok(sorted_spec, wal.data@));
        }
        let e = KVS { memtable, limit, data_dir, wal, sstables, pending: Vec::new() };
        proof {
            assert forall|k: Seq<char>| #[trigger]
                e.stored(k) == recovered_stored(data_files@, wal_data@, k) by {
                lemma_chain_files_correspond(e.sstables@, sorted_spec, k);
            }
        }
        Ok(e)
    }

    /// Seals the memtable into a new table file named by the current Unix
    /// time and truncates the write-ahead log, in that order.  What a
    /// lookup of any key returns is unchanged.
    pub fn flush(&mut self) -> (r: Result<(), IOError>)
        requires
            old(self).wf(),
        ensures
            final (self).wf(),
            r is Ok,
            forall|k: Seq<char>| #[trigger] final (self).stored(k) == old(self).stored(k),
            forall|k: Seq<char>| #[trigger] final (self).visible(k) == old(self).visible(k),
            final (self).memtable.recs().len() == 0,
            final (self).wal.data@ == Seq::<u8>::empty(),
            final (self).sstables@.len() == old(self).sstables@.len() + 1,
            final (self).sstables@.subrange(0, old(self).sstables@.len() as int) == old(
                self,
            ).sstables@,
            forall|k: Seq<char>| #[trigger]
                final (self).sstables@.last().lookup(k) == old(self).memtable.lookup(k),
            final (self).data_dir == old(self).data_dir,
            final (self).limit == old(self).limit,
            final (self).pending@.len() == old(self).pending@.len() + 2,
            final (self).pending@.subrange(0, old(self).pending@.len() as int) == old(
                self,
            ).pending@,
            act_is_write(
                final (self).pending@[old(self).pending@.len() as int],
                final (self).sstables@.last().file_name@,
                final (self).sstables@.last().data@,
            ),
            act_is_trunc(final (self).pending@[old(self).pending@.len() as int + 1]),
    {
        let ghost tables0 = self.sstables@;
        let ghost pending0 = self.pending@;
        let ts = now_unix_seconds();
        let name = crate::decimal::i64_to_string(ts);
        let sst = match SSTable::create(self.data_dir.as_str(), &self.memtable, name.as_str()) {
            Ok(s) => s,
            Err(e) => {
                proof {
                    assert(false);
                }
                return Err(e);
            },
        };
        let len = sst.data.len();
        let bytes = crate::codec::copy_range(&sst.data, 0, len);
        proof {
            assert(bytes@ =~= sst.data@);
        }
        let fname = sst.file_name.clone();
        self.pending.push(DiskAction::WriteTable { name: fname, bytes });
        self.sstables.push(sst);
        let _ = self.wal.clear();
        self.memtable.clear();
        self.pending.push(DiskAction::TruncateWal);
        proof {
            assert(parse_rest(Seq::<u8>::empty()) == Some(Seq::<RecView>::empty()));
            assert(self.memtable.recs() =~= Seq::<RecView>::empty());
            assert(self.wf()) by {
                assert(forall|i: int|
                    0 <= i < tables0.len() ==> self.sstables@[i] == #[trigger] tables0[i]);
            }
            assert(self.sstables@.drop_last() =~= tables0);
            assert forall|k: Seq<char>| #[trigger] self.stored(k) == old(self).stored(k) by {
                assert(self.sstables@.last().lookup(k) == old(self).memtable.lookup(k));
                match old(self).memtable.lookup(k) {
                    Some(v) => {
                        assert(chain_lookup(self.sstables@, k) == Some(v));
                    },
                    None => {
                        assert(chain_lookup(self.sstables@, k) == chain_lookup(tables0, k));
                    },
                }
            }
            assert(self.pending@.subrange(0, pending0.len() as int) =~= pending0);
        }
        Ok(())
    }

    /// Inserts the pair into the store: the record goes to the write-ahead
    /// log first, then to the memtable; a memtable grown past the limit is
    /// flushed.
    fn put_key_value(&mut self, key: &str, value: Value) -> (r: Result<(), IOError>)
        requires
            old(self).wf(),
            rec_fits(rec_of(key@, value@)),
        ensures
            final (self).wf(),
            r is Ok,
            final (self).stored(key@) == Some(value@),
            forall|k2: Seq<char>|
                k2 != key@ ==> #[trigger] final (self).stored(k2) == old(self).stored(k2),
            final (self).data_dir == old(self).data_dir,
            final (self).limit == old(self).limit,
            final (self).pending@.len() > old(self).pending@.len(),
            final (self).pending@.subrange(0, old(self).pending@.len() as int) == old(
                self,
            ).pending@,
            act_is_append(
                final (self).pending@[old(self).pending@.len() as int],
                frame_bytes(rec_of(key@, value@)),
            ),
            final (self).pending@.len() == old(self).pending@.len() + 1 || (final (self).pending@.len()
                == old(self).pending@.len() + 3 && final (self).sstables@.len() > 0
                && act_is_write(
                final (self).pending@[old(self).pending@.len() as int + 1],
                final (self).sstables@.last().file_name@,
                final (self).sstables@.last().data@,
            ) && act_is_trunc(final (self).pending@[old(self).pending@.len() as int + 2])),
            (final (self).pending@.len() == old(self).pending@.len() + 3) <==> old(
                self,
            ).memtable.recs().len() + (if old(self).memtable.lookup(key@) is Some {
                0int
            } else {
                1int
            }) > old(self).limit,
    {
        let ghost rec = rec_of(key@, value@);
        let ghost wal0 = self.wal.data@;
        let ghost pending0 = self.pending@;
        let frame = crate::frames::encode_record(key, &value);
        let _ = self.wal.write(key, &value);
        self.pending.push(DiskAction::AppendWal { bytes: frame });
        let ghost mem0 = self.memtable;
        self.memtable.insert(key.to_owned(), value);
        proof {
            lemma_parse_rest_append(wal0, rec);
            assert forall|k: Seq<char>| #[trigger]
                self.memtable.lookup(k) == entries_lookup(
                    parse_rest(self.wal.data@).unwrap(),
                    k,
                ) by {
                lemma_lookup_push(parse_rest(wal0).unwrap(), rec, k);
            }
            assert forall|j: int| 0 <= j < self.memtable.recs().len() implies rec_fits(
                #[trigger] self.memtable.recs()[j],
            ) by {
                if self.memtable.recs()[j] != rec {
                    let j0 = choose|j0: int|
                        0 <= j0 < mem0.recs().len() && self.memtable.recs()[j] == mem0.recs()[j0];
                    assert(rec_fits(mem0.recs()[j0]));
                }
            }
            assert(self.wf());
            assert(self.pending@.subrange(0, pending0.len() as int) =~= pending0);
        }
        if self.limit < self.memtable.len() {
            let ghost mid = *self;
            let _ = self.flush();
            proof {
                assert forall|k2: Seq<char>|
                    k2 != key@ implies #[trigger] self.stored(k2) == old(self).stored(k2) by {
                    assert(self.stored(k2) == mid.stored(k2));
                }
                assert(self.stored(key@) == mid.stored(key@));
                assert(self.pending@.subrange(0, pending0.len() as int) =~= pending0) by {
                    assert(self.pending@.subrange(0, mid.pending@.len() as int) == mid.pending@);
                    assert forall|q: int| 0 <= q < pending0.len() implies self.pending@[q]
                        == pending0[q] by {
                        assert(self.pending@[q] == self.pending@.subrange(
                            0,
                            mid.pending@.len() as int,
                        )[q]);
                        assert(mid.pending@[q] == pending0[q]);
                    }
                }
                assert(self.pending@[pending0.len() as int] == mid.pending@[pending0.len() as int])
                    by {
                    assert(self.pending@[pending0.len() as int] == self.pending@.subrange(
                        0,
                        mid.pending@.len() as int,
                    )[pending0.len() as int]);
                }
            }
        }
        Ok(())
    }

    /// Inserts or overwrites the value for a key.
    pub fn put(&mut self, k: &str, v: &str) -> (r: Result<(), IOError>)
        requires
            old(self).wf(),
            rec_fits(rec_of(k@, ValView { payload: v@, deleted: false })),
        ensures
            final (self).wf(),
            r is Ok,
            final (self).visible(k@) == Some(v@),
            final (self).stored(k@) == Some(ValView { payload: v@, deleted: false }),
            forall|k2: Seq<char>|
                k2 != k@ ==> #[trigger] final (self).stored(k2) == old(self).stored(k2),
            forall|k2: Seq<char>|
                k2 != k@ ==> #[trigger] final (self).visible(k2) == old(self).visible(k2),
            final (self).data_dir == old(self).data_dir,
            final (self).limit == old(self).limit,
            final (self).pending@.len() > old(self).pending@.len(),
            final (self).pending@.subrange(0, old(self).pending@.len() as int) == old(
                self,
            ).pending@,
            act_is_append(
                final (self).pending@[old(self).pending@.len() as int],
                frame_bytes(rec_of(k@, ValView { payload: v@, deleted: false })),
            ),
    {
        let value = Value::new(v, false);
        self.put_key_value(k, value)
    }

    /// Writes a tombstone for a key: a later lookup misses it.  Deleting an
    /// absent key is not an error.
    pub fn delete(&mut self, k: &str) -> (r: Result<(), IOError>)
        requires
            old(self).wf(),
            rec_fits(rec_of(k@, ValView { payload: Seq::<char>::empty(), deleted: true })),
        ensures
            final (self).wf(),
            r is Ok,
            final (self).visible(k@) is None,
            final (self).stored(k@) == Some(
                ValView { payload: Seq::<char>::empty(), deleted: true },
            ),
            forall|k2: Seq<char>|
                k2 != k@ ==> #[trigger] final (self).stored(k2) == old(self).stored(k2),
            forall|k2: Seq<char>|
                k2 != k@ ==> #[trigger] final (self).visible(k2) == old(self).visible(k2),
            final (self).data_dir == old(self).data_dir,
            final (self).limit == old(self).limit,
            final (self).pending@.len() > old(self).pending@.len(),
            final (self).pending@.subrange(0, old(self).pending@.len() as int) == old(
                self,
            ).pending@,
            act_is_append(
                final (self).pending@[old(self).pending@.len() as int],
                frame_bytes(rec_of(k@, ValView { payload: Seq::<char>::empty(), deleted: true })),
            ),
    {
        let value = Value::new("", true);
        proof {
            reveal_strlit("");
            assert(""@ =~= Seq::<char>::empty());
        }
        self.put_key_value(k, value)
    }

    /// Looks a key up in the tables, newest first, and returns the first
    /// hit, tombstones included.
    fn get_from_sstable(&mut self, key: &str) -> (r: Result<Option<Value>, KVSError>)
        requires
            old(self).wf(),
        ensures
            *final (self) == *old(self),
            match chain_lookup(old(self).sstables@, key@) {
                Some(v) => r matches Ok(o) && (o matches Some(val) && val@ == v),
                None => r matches Ok(o) && o is None,
            },
    {
        let ghost s0 = *self;
        let n = self.sstables.len();
        let mut i = n;
        proof {
            assert(self.sstables@.subrange(0, n as int) =~= self.sstables@);
        }
        while i > 0
            invariant
                *self == s0,
                s0.wf(),
                i <= n,
                n == self.sstables@.len(),
                chain_lookup(s0.sstables@, key@) == chain_lookup(
                    s0.sstables@.subrange(0, i as int),
                    key@,
                ),
            decreases i,
        {
            let t = &self.sstables[i - 1];
            let ghost pre = s0.sstables@.subrange(0, i as int);
            proof {
                assert(pre.last() == s0.sstables@[i - 1]);
                assert(pre.drop_last() =~= s0.sstables@.subrange(0, i as int - 1));
            }
            match t.get(key) {
                Ok(Some(v)) => {
                    return Ok(Some(v));
                },
                Ok(None) => {},
                Err(e) => {
                    proof {
                        assert(false);
                    }
                    return Err(e);
                },
            }
            i = i - 1;
        }
        proof {
            assert(s0.sstables@.subrange(0, 0) =~= Seq::<SSTable>::empty());
        }
        Ok(None)
    }

    /// Looks a key up: the memtable first, then the tables newest first.  A
    /// stored tombstone hides the key, so the result is exactly the visible
    /// payload.
    pub fn get(&mut self, key: &str) -> (r: Result<Option<Value>, KVSError>)
        requires
            old(self).wf(),
        ensures
            *final (self) == *old(self),
            match old(self).stored(key@) {
                Some(v) => if v.deleted {
                    r matches Ok(o) && o is None
                } else {
                    r matches Ok(o) && (o matches Some(val) && val@ == v)
                },
                None => r matches Ok(o) && o is None,
            },
            r matches Ok(o) && (o matches Some(val) ==> old(self).visible(key@) == Some(
                val@.payload,
            )) && (o is None ==> old(self).visible(key@) is None),
    {
        match self.memtable.get(key) {
            Some(value) => {
                if value.is_deleted() {
                    return Ok(None);
                } else {
                    return Ok(Some(value));
                }
            },
            None => {},
        }
        let res = match self.get_from_sstable(key) {
            Ok(o) => o,
            Err(e) => {
                proof {
                    assert(false);
                }
                return Err(e);
            },
        };
        match res {
            Some(value) => {
                if value.is_deleted() {
                    Ok(None)
                } else {
                    Ok(Some(value))
                }
            },
            None => Ok(None),
        }
    }

    /// Merges every table into one ordered map, newest value winning;
    /// tombstones are kept like any other value.
    #[verifier::rlimit(100)]
    fn merge_tables(&self) -> (r: Result<Memtable, KVSError>)
        requires
            self.wf(),
        ensures
            r matches Ok(m) && m.wf() && (forall|k: Seq<char>| #[trigger]
                m.lookup(k) == chain_lookup(self.sstables@, k)) && (forall|j: int|
                0 <= j < m.recs().len() ==> rec_fits(#[trigger] m.recs()[j])),
    {
        let mut btm = Memtable::new();
        let n = self.sstables.len();
        let mut i: usize = 0;
        proof {
            assert(self.sstables@.subrange(0, 0) =~= Seq::<SSTable>::empty());
        }
        while i < n
            invariant
                self.wf(),
                i <= n,
                n == self.sstables@.len(),
                btm.wf(),
                forall|j: int| 0 <= j < btm.recs().len() ==> rec_fits(#[trigger] btm.recs()[j]),
                forall|k: Seq<char>| #[trigger]
                    btm.lookup(k) == chain_lookup(self.sstables@.subrange(0, i as int), k),
            decreases n - i,
        {
            let t = &self.sstables[i];
            let keys = t.keys();
            let tlen = t.data.len();
            let m = keys.len();
            let mut j: usize = 0;
            while j < m
                invariant
                    self.wf(),
                    i < n,
                    n == self.sstables@.len(),
                    t == &self.sstables@[i as int],
                    t.wf(),
                    tlen == t.data@.len(),
                    j <= m,
                    m == keys@.len(),
                    m == t.index@.len(),
                    forall|jj: int| 0 <= jj < m ==> (#[trigger] keys@[jj]@) == t.index@[jj].key@,
                    btm.wf(),
                    forall|jj: int|
                        0 <= jj < btm.recs().len() ==> rec_fits(#[trigger] btm.recs()[jj]),
                    forall|k: Seq<char>| #[trigger]
                        btm.lookup(k) == if (exists|jj: int|
                            0 <= jj < j && (#[trigger] t.index@[jj].key@) == k) {
                            t.lookup(k)
                        } else {
                            chain_lookup(self.sstables@.subrange(0, i as int), k)
                        },
                decreases m - j,
            {
                let kstr = &keys[j];
                let got = t.get(kstr.as_str());
                let ghost btm0 = btm;
                proof {
                    assert(t.index@[j as int].key@ == kstr@);
                    assert(dec_frame(t.data@.skip(t.index@[j as int].offset as int)) matches Some(
                        pp,
                    ) && pp.0.key == t.index@[j as int].key@ && entries_lookup(t.recs(), pp.0.key)
                        == Some(pp.0.value));
                    assert(entries_lookup(t.recs(), t.index@[j as int].key@) is Some);
                }
                match got {
                    Ok(Some(v)) => {
                        proof {
                            crate::codec::lemma_parse_rest_fits(t.data@);
                            crate::codec::lemma_lookup_some_index(t.recs(), kstr@);
                        }
                        btm.insert(kstr.clone(), v);
                        proof {
                            assert forall|jj: int| 0 <= jj < btm.recs().len() implies rec_fits(
                                #[trigger] btm.recs()[jj],
                            ) by {
                                if btm.recs()[jj] != (RecView { key: kstr@, value: v@ }) {
                                    let j0 = choose|j0: int|
                                        0 <= j0 < btm0.recs().len() && btm.recs()[jj]
                                            == btm0.recs()[j0];
                                    assert(rec_fits(btm0.recs()[j0]));
                                } else {
                                    let jr = choose|jr: int|
                                        0 <= jr < t.recs().len() && t.recs()[jr].key == kstr@
                                            && t.recs()[jr].value == entries_lookup(
                                            t.recs(),
                                            kstr@,
                                        ).unwrap();
                                    assert(rec_fits(t.recs()[jr]));
                                }
                            }
                        }
                    },
                    Ok(None) => {
                        proof {
                            assert(false);
                        }
                    },
                    Err(e) => {
                        proof {
                            assert(false);
                        }
                        return Err(e);
                    },
                }
                proof {
                    assert forall|k: Seq<char>| #[trigger]
                        btm.lookup(k) == if (exists|jj: int|
                            0 <= jj < j + 1 && (#[trigger] t.index@[jj].key@) == k) {
                            t.lookup(k)
                        } else {
                            chain_lookup(self.sstables@.subrange(0, i as int), k)
                        } by {
                        if k == kstr@ {
                            assert(t.index@[j as int].key@ == k);
                        } else {
                            assert(btm.lookup(k) == btm0.lookup(k));
                        }
                    }
                }
                j = j + 1;
            }
            proof {
                let pre1 = self.sstables@.subrange(0, i as int + 1);
                assert(pre1.last() == self.sstables@[i as int]);
                assert(pre1.drop_last() =~= self.sstables@.subrange(0, i as int));
                assert forall|k: Seq<char>| #[trigger]
                    btm.lookup(k) == chain_lookup(pre1, k) by {
                    match entries_lookup(t.recs(), k) {
                        Some(v) => {
                            crate::codec::lemma_lookup_some_index(t.recs(), k);
                            let jr = choose|jr: int|
                                0 <= jr < t.recs().len() && t.recs()[jr].key == k
                                    && t.recs()[jr].value == v;
                            let ii = choose|ii: int|
                                0 <= ii < t.index@.len() && t.index@[ii].key@ == t.recs()[jr].key;
                            assert(0 <= ii < j);
                        },
                        None => {
                            assert forall|jj: int| 0 <= jj < t.index@.len() implies (
                            #[trigger] t.index@[jj].key@) != k by {
                                if t.index@[jj].key@ == k {
                                    assert(dec_frame(
                                        t.data@.skip(t.index@[jj].offset as int),
                                    ) matches Some(pp) && pp.0.key == t.index@[jj].key@
                                        && entries_lookup(t.recs(), pp.0.key) == Some(pp.0.value));
                                    assert(entries_lookup(t.recs(), k) is Some);
                                }
                            }
                        },
                    }
                }
            }
            i = i + 1;
        }
        proof {
            assert(self.sstables@.subrange(0, n as int) =~= self.sstables@);
        }
        Ok(btm)
    }

    /// Merges every table into a single new one, newest value winning,
    /// removes the old table files, and installs the merged table.  What a
    /// lookup of any key returns is unchanged.
    #[verifier::rlimit(100)]
    pub fn compaction(&mut self) -> (r: Result<(), KVSError>)
        requires
            old(self).wf(),
        ensures
            final (self).wf(),
            r is Ok,
            forall|k: Seq<char>| #[trigger] final (self).stored(k) == old(self).stored(k),
            forall|k: Seq<char>| #[trigger] final (self).visible(k) == old(self).visible(k),
            final (self).sstables@.len() == 1,
            final (self).memtable == old(self).memtable,
            final (self).wal == old(self).wal,
            final (self).data_dir == old(self).data_dir,
            final (self).limit == old(self).limit,
            final (self).pending@.len() == old(self).pending@.len() + old(self).sstables@.len()
                + 1,
            final (self).pending@.subrange(0, old(self).pending@.len() as int) == old(
                self,
            ).pending@,
            forall|i: int|
                0 <= i < old(self).sstables@.len() ==> act_is_remove(
                    #[trigger] final (self).pending@[old(self).pending@.len() + i],
                    old(self).sstables@[i].data_path@,
                ),
            act_is_write(
                final (self).pending@[old(self).pending@.len() + old(self).sstables@.len() as int],
                final (self).sstables@[0].file_name@,
                final (self).sstables@[0].data@,
            ),
    {
        let ghost tables0 = self.sstables@;
        let ghost pending0 = self.pending@;
        let ghost mem0 = self.memtable;
        let ghost wal0 = self.wal;
        let ghost dir0 = self.data_dir;
        let ghost limit0 = self.limit;
        let btm = match self.merge_tables() {
            Ok(m) => m,
            Err(e) => {
                proof {
                    assert(false);
                }
                return Err(e);
            },
        };
        let n = self.sstables.len();
        let mut i: usize = 0;
        while i < n
            invariant
                i <= n,
                n == tables0.len(),
                self.sstables@ == tables0,
                self.memtable == mem0,
                self.wal == wal0,
                self.data_dir == dir0,
                self.limit == limit0,
                self.pending@.len() == pending0.len() + i,
                self.pending@.subrange(0, pending0.len() as int) == pending0,
                forall|q: int|
                    0 <= q < i ==> act_is_remove(
                        #[trigger] self.pending@[pending0.len() + q],
                        tables0[q].data_path@,
                    ),
            decreases n - i,
        {
            let ghost pend_pre = self.pending@;
            let t = &self.sstables[i];
            let p = t.data_path.clone();
            self.pending.push(DiskAction::RemoveTable { path: p });
            proof {
                assert(self.pending@.subrange(0, pending0.len() as int) =~= pending0) by {
                    assert forall|q: int| 0 <= q < pending0.len() implies self.pending@[q]
                        == pending0[q] by {
                        assert(self.pending@[q] == pend_pre[q]);
                        assert(pend_pre[q] == pend_pre.subrange(0, pending0.len() as int)[q]);
                    }
                }
            }
            i = i + 1;
        }
        self.sstables.clear();
        let ts = now_unix_seconds();
        let name = crate::decimal::i64_to_string(ts);
        let sst = match SSTable::create(self.data_dir.as_str(), &btm, name.as_str()) {
            Ok(s) => s,
            Err(e) => {
                proof {
                    assert(false);
                }
                return Err(KVSError::FailedIO(e));
            },
        };
        let len = sst.data.len();
        let bytes = crate::codec::copy_range(&sst.data, 0, len);
        proof {
            assert(bytes@ =~= sst.data@);
        }
        let fname = sst.file_name.clone();
        let ghost pend_pre2 = self.pending@;
        self.pending.push(DiskAction::WriteTable { name: fname, bytes });
        self.sstables.push(sst);
        proof {
            assert(self.sstables@.len() == 1);
            let t1 = self.sstables@[0];
            assert(forall|k: Seq<char>| #[trigger] t1.lookup(k) == btm.lookup(k));
            assert forall|k: Seq<char>| #[trigger] self.stored(k) == old(self).stored(k) by {
                assert(self.sstables@.last() == t1);
                assert(self.sstables@.drop_last() =~= Seq::<SSTable>::empty());
                assert(chain_lookup(Seq::<SSTable>::empty(), k) is None);
                assert(btm.lookup(k) == chain_lookup(tables0, k));
                match btm.lookup(k) {
                    Some(v) => {
                        assert(chain_lookup(self.sstables@, k) == Some(v));
                    },
                    None => {
                        assert(chain_lookup(self.sstables@, k) is None);
                    },
                }
            }
            assert(self.pending@.subrange(0, pending0.len() as int) =~= pending0) by {
                assert forall|q: int| 0 <= q < pending0.len() implies self.pending@[q]
                    == pending0[q] by {
                    assert(self.pending@[q] == pend_pre2[q]);
                    assert(pend_pre2[q] == pend_pre2.subrange(0, pending0.len() as int)[q]);
                }
            }
            assert forall|q: int| 0 <= q < tables0.len() implies act_is_remove(
                #[trigger] self.pending@[pending0.len() + q],
                tables0[q].data_path@,
            ) by {
                assert(self.pending@[pending0.len() + q] == pend_pre2[pending0.len() + q]);
            }
        }
        Ok(())
    }

    /// Hands out the disk operations queued since the last call, in the
    /// order they must be applied, and clears the queue.
    pub fn take_actions(&mut self) -> (r: Vec<DiskAction>)
        ensures
            r@ == old(self).pending@,
            final (self).pending@.len() == 0,
            final (self).memtable == old(self).memtable,
            final (self).limit == old(self).limit,
            final (self).data_dir == old(self).data_dir,
            final (self).wal == old(self).wal,
            final (self).sstables == old(self).sstables,
    {
        let mut out: Vec<DiskAction> = Vec::new();
        core::mem::swap(&mut out, &mut self.pending);
        out
    }
}

/// What a lookup of `k` finds among re-opened table files: the newest
/// (last) file holding the key wins.
pub open spec fn chain_files_lookup(files: Seq<DataFile>, k: Seq<char>) -> Option<ValView>
    decreases files.len(),
{
    if files.len() == 0 {
        None
    } else {
        match entries_lookup(parse_rest(files.last().data@).unwrap(), k) {
            Some(v) => Some(v),
            None => chain_files_lookup(files.drop_last(), k),
        }
    }
}

/// What a lookup of `k` finds after re-opening a store over these table
/// files and log bytes: the replayed log first, then the sorted tables
/// newest first.
pub open spec fn recovered_stored(files: Seq<DataFile>, wal_data: Seq<u8>, k: Seq<char>) -> Option<
    ValView,
> {
    match entries_lookup(parse_rest(wal_data).unwrap(), k) {
        Some(v) => Some(v),
        None => chain_files_lookup(sort_files(files), k),
    }
}

/// Tables whose records match the parsed files give the same chain lookup.
proof fn lemma_chain_files_correspond(tables: Seq<SSTable>, files: Seq<DataFile>, k: Seq<char>)
    requires
        tables.len() == files.len(),
        forall|i: int|
            0 <= i < tables.len() ==> (#[trigger] tables[i]).recs() == parse_rest(
                files[i].data@,
            ).unwrap(),
    ensures
        chain_lookup(tables, k) == chain_files_lookup(files, k),
    decreases tables.len(),
{
    if tables.len() > 0 {
        assert(tables[tables.len() - 1].recs() == parse_rest(
            files[files.len() - 1].data@,
        ).unwrap());
        assert(forall|i: int| 0 <= i < tables.len() - 1 ==> tables.drop_last()[i] == tables[i]);
        assert(forall|i: int| 0 <= i < files.len() - 1 ==> files.drop_last()[i] == files[i]);
        lemma_chain_files_correspond(tables.drop_last(), files.drop_last(), k);
    }
}

/// The table below `j` is shadowed: when every table newer than `j` misses
/// the key and table `j` holds it, the chain returns table `j`'s value.
proof fn lemma_chain_above(tables: Seq<SSTable>, k: Seq<char>, j: int)
    requires
        0 <= j < tables.len(),
        tables[j].lookup(k) is Some,
        forall|m: int| j < m < tables.len() ==> (#[trigger] tables[m]).lookup(k) is None,
    ensures
        chain_lookup(tables, k) == tables[j].lookup(k),
    decreases tables.len(),
{
    if j == tables.len() - 1 {
    } else {
        assert(tables[tables.len() - 1].lookup(k) is None);
        assert(tables.drop_last()[j] == tables[j]);
        assert(forall|m: int|
            j < m < tables.len() - 1 ==> tables.drop_last()[m] == #[trigger] tables[m]);
        lemma_chain_above(tables.drop_last(), k, j);
    }
}

impl KVS {
    /// The store's table files, in list order: each table's file name and
    /// bytes.
    pub open spec fn spec_table_files(self) -> Seq<DataFile> {
        self.sstables@.map_values(|t: SSTable| DataFile { name: t.file_name, data: t.data })
    }

    /// Recovery preserves visibility: a well-formed store re-opened over
    /// its own table files and log bytes answers every lookup as before,
    /// provided the timestamps in the table names do not decrease in
    /// creation order (two flushes in the same second, or a clock that ran
    /// backwards, can reorder the re-opened tables).  Together with the
    /// contract of `new`, which pins the re-opened store's lookups to
    /// `recovered_stored`, this closes the round trip.
    pub proof fn lemma_recovery_preserves_visibility(self, k: Seq<char>)
        requires
            self.wf(),
            forall|i: int, j: int|
                0 <= i < j < self.sstables@.len() ==> key_le(
                    name_key((#[trigger] self.sstables@[i]).file_name@),
                    name_key((#[trigger] self.sstables@[j]).file_name@),
                ),
        ensures
            recovery_ok(sort_files(self.spec_table_files()), self.wal.data@),
            recovered_stored(self.spec_table_files(), self.wal.data@, k) == self.stored(k),
    {
        let files = self.spec_table_files();
        assert forall|i: int, j: int| 0 <= i < j < files.len() implies key_le(
            file_key(#[trigger] files[i]),
            file_key(#[trigger] files[j]),
        ) by {
            assert(files[i].name == self.sstables@[i].file_name);
            assert(files[j].name == self.sstables@[j].file_name);
        }
        lemma_sort_files_sorted_id(files);
        assert forall|i: int| 0 <= i < files.len() implies parse_rest(
            (#[trigger] files[i]).data@,
        ) is Some by {
            assert(files[i].data == self.sstables@[i].data);
            assert(self.sstables@[i].wf());
        }
        assert forall|i: int|
            0 <= i < self.sstables@.len() implies (#[trigger] self.sstables@[i]).recs()
            == parse_rest(files[i].data@).unwrap() by {
            assert(files[i].data == self.sstables@[i].data);
        }
        lemma_chain_files_correspond(self.sstables@, files, k);
    }

    /// Newest wins across tables: when two tables both hold a key, every
    /// table newer than both misses it, and the memtable misses it too, a
    /// lookup returns what the newer of the two dictates — nothing for a
    /// tombstone, its payload otherwise.
    pub proof fn lemma_newest_wins(self, k: Seq<char>, i: int, j: int)
        requires
            self.wf(),
            0 <= i < j < self.sstables@.len(),
            self.sstables@[i].lookup(k) is Some,
            self.sstables@[j].lookup(k) is Some,
            forall|m: int|
                j < m < self.sstables@.len() ==> (#[trigger] self.sstables@[m]).lookup(k) is None,
            self.memtable.lookup(k) is None,
        ensures
            self.stored(k) == self.sstables@[j].lookup(k),
            self.visible(k) == (if self.sstables@[j].lookup(k).unwrap().deleted {
                Option::<Seq<char>>::None
            } else {
                Some(self.sstables@[j].lookup(k).unwrap().payload)
            }),
    {
        lemma_chain_above(self.sstables@, k, j);
    }
}

/// Relies on `chrono::Local::now`: reads the system clock; `timestamp` is
/// that moment as Unix-epoch seconds.  Nothing can be promised of the
/// value.
#[verifier::external_body]
fn now_unix_seconds() -> i64 {
    chrono::Local::now().timestamp()
}

} // verus!
