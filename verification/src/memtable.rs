//! The in-memory ordered buffer of recent writes: a vector of entries kept
//! strictly sorted by the byte order of their keys, with unique keys.
use crate::codec::{
    bytes_cmp, bytes_lt, entries_lookup, keys_distinct, lemma_bytes_lt_irrefl,
    lemma_bytes_lt_trans, lemma_lookup_absent, lemma_lookup_at, lemma_lookup_some_index, KeyOrd,
    RecView, ValView,
};
use crate::value::Value;
use vstd::prelude::*;
use vstd::string::{StrSliceExecFns, StringSliceAdditionalSpecFns};
use vstd::utf8::encode_utf8;

verus! {

/// One memtable entry: a key and its current value.
pub struct MemEntry {
    pub key: String,
    pub value: Value,
}

/// The in-memory ordered map absorbing recent writes.  Entries are sorted
/// strictly ascending by the byte order of their keys, so keys are unique.
pub struct Memtable {
    pub entries: Vec<MemEntry>,
}

/// The records are sorted strictly ascending by key bytes.
pub open spec fn sorted_by_keys(rs: Seq<RecView>) -> bool {
    forall|i: int, j: int|
        #![trigger encode_utf8(rs[i].key), encode_utf8(rs[j].key)]
        0 <= i < j < rs.len() ==> bytes_lt(encode_utf8(rs[i].key), encode_utf8(rs[j].key))
}

/// Strictly sorted records carry distinct keys.
pub proof fn lemma_sorted_distinct(rs: Seq<RecView>)
    requires
        sorted_by_keys(rs),
    ensures
        keys_distinct(rs),
{
    assert forall|i: int, j: int| 0 <= i < j < rs.len() implies rs[i].key != rs[j].key by {
        assert(bytes_lt(encode_utf8(rs[i].key), encode_utf8(rs[j].key)));
        if rs[i].key == rs[j].key {
            lemma_bytes_lt_irrefl(encode_utf8(rs[i].key));
        }
    }
}

impl Memtable {
    /// The records this memtable holds, in key order.
    pub open spec fn recs(self) -> Seq<RecView> {
        self.entries@.map_values(|e: MemEntry| RecView { key: e.key@, value: e.value@ })
    }

    /// The value stored for `k`, if any (tombstones included).
    pub open spec fn lookup(self, k: Seq<char>) -> Option<ValView> {
        entries_lookup(self.recs(), k)
    }

    /// Well-formedness: entries strictly sorted by key bytes.
    pub open spec fn wf(self) -> bool {
        sorted_by_keys(self.recs())
    }

    /// An empty memtable.
    pub fn new() -> (r: Self)
        ensures
            r.wf(),
            r.recs() == Seq::<RecView>::empty(),
    {
        let r = Memtable { entries: Vec::new() };
        proof {
            assert(r.recs() =~= Seq::<RecView>::empty());
        }
        r
    }

    /// The number of entries.
    pub fn len(&self) -> (r: usize)
        ensures
            r == self.recs().len(),
    {
        self.entries.len()
    }

    /// Removes every entry.
    pub fn clear(&mut self)
        ensures
            final (self).wf(),
            final (self).recs() == Seq::<RecView>::empty(),
    {
        self.entries.clear();
        proof {
            assert(final (self).recs() =~= Seq::<RecView>::empty());
        }
    }

    /// Finds the place of a key: the index `p` such that every entry at or
    /// after `p` has key bytes above `kb`, and the entry just before `p`,
    /// if any, has key bytes at or below `kb`.
    fn find_pos(&self, kb: &[u8]) -> (r: (usize, bool))
        requires
            self.wf(),
        ensures
            r.0 <= self.recs().len(),
            forall|j: int|
                r.0 <= j < self.recs().len() ==> bytes_lt(
                    kb@,
                    #[trigger] encode_utf8(self.recs()[j].key),
                ),
            r.1 ==> r.0 >= 1 && encode_utf8(self.recs()[r.0 - 1].key) == kb@,
            !r.1 && r.0 >= 1 ==> bytes_lt(encode_utf8(self.recs()[r.0 - 1].key), kb@),
    {
        let mut p = self.entries.len();
        while p > 0
            invariant
                self.wf(),
                p <= self.recs().len(),
                forall|j: int|
                    p <= j < self.recs().len() ==> bytes_lt(
                        kb@,
                        #[trigger] encode_utf8(self.recs()[j].key),
                    ),
            decreases p,
        {
            let e = &self.entries[p - 1];
            let c = bytes_cmp(kb, e.key.as_str().as_bytes());
            proof {
                assert(self.recs()[p - 1].key == e.key@);
            }
            match c {
                KeyOrd::Less => {
                    p = p - 1;
                },
                KeyOrd::Equal => {
                    return (p, true);
                },
                KeyOrd::Greater => {
                    return (p, false);
                },
            }
        }
        (0, false)
    }

    /// Inserts a value for a key, overwriting any value the key had.
    pub fn insert(&mut self, key: String, value: Value)
        requires
            old(self).wf(),
        ensures
            final (self).wf(),
            forall|k2: Seq<char>|
                #[trigger] final (self).lookup(k2) == if k2 == key@ {
                    Some(value@)
                } else {
                    old(self).lookup(k2)
                },
            final (self).recs().len() == old(self).recs().len() + (if old(self).lookup(key@)
                is Some {
                0int
            } else {
                1int
            }),
            forall|j: int|
                0 <= j < final (self).recs().len() ==> ((#[trigger] final (self).recs()[j])
                    == (RecView { key: key@, value: value@ }) || (exists|j0: int|
                    0 <= j0 < old(self).recs().len() && final (self).recs()[j] == old(
                        self,
                    ).recs()[j0])),
    {
        let ghost rs0 = old(self).recs();
        let ghost r = RecView { key: key@, value: value@ };
        let ghost kbs = encode_utf8(key@);
        let (p, eq) = self.find_pos(key.as_str().as_bytes());
        proof {
            lemma_sorted_distinct(rs0);
        }
        if eq {
            let _ = self.entries.remove(p - 1);
            self.entries.insert(p - 1, MemEntry { key, value });
            proof {
                let rs1 = self.recs();
                assert(rs1 =~= rs0.update(p - 1, r));
                assert(rs0[p - 1].key == key@) by {
                    crate::codec::lemma_encode_utf8_injective(rs0[p - 1].key, key@);
                }
                assert(sorted_by_keys(rs1)) by {
                    assert forall|i: int, j: int|
                        #![trigger encode_utf8(rs1[i].key), encode_utf8(rs1[j].key)]
                        0 <= i < j < rs1.len() implies bytes_lt(
                        encode_utf8(rs1[i].key),
                        encode_utf8(rs1[j].key),
                    ) by {
                        assert(encode_utf8(rs1[i].key) == encode_utf8(rs0[i].key));
                        assert(encode_utf8(rs1[j].key) == encode_utf8(rs0[j].key));
                    }
                }
                lemma_sorted_distinct(rs1);
                lemma_lookup_at(rs1, p - 1);
                lemma_lookup_at(rs0, p - 1);
                assert forall|k2: Seq<char>| #[trigger]
                    self.lookup(k2) == if k2 == key@ {
                        Some(value@)
                    } else {
                        old(self).lookup(k2)
                    } by {
                    if k2 != key@ {
                        lookup_update_other(rs0, rs1, p - 1, k2);
                    }
                }
                assert forall|j: int|
                    #![trigger rs1[j]]
                    0 <= j < rs1.len() implies (rs1[j] == r || (exists|j0: int|
                    0 <= j0 < rs0.len() && rs1[j] == rs0[j0])) by {
                    if j != p - 1 {
                        assert(rs1[j] == rs0[j]);
                    }
                }
            }
        } else {
            self.entries.insert(p, MemEntry { key, value });
            proof {
                let rs1 = self.recs();
                assert(rs1 =~= rs0.insert(p as int, r));
                assert(rs0.insert(p as int, r) == rs0.subrange(0, p as int).push(r)
                    + rs0.subrange(p as int, rs0.len() as int));
                assert forall|q: int| 0 <= q < p implies #[trigger] rs1[q] == rs0[q] by {
                    assert(rs1[q] == rs0.subrange(0, p as int).push(r)[q]);
                    assert(rs1[q] == rs0.subrange(0, p as int)[q]);
                }
                assert forall|q: int| p < q < rs1.len() implies #[trigger] rs1[q] == rs0[q
                    - 1] by {
                    assert(rs1[q] == rs0.subrange(p as int, rs0.len() as int)[q - p - 1]);
                }
                assert(rs1[p as int] == rs0.subrange(0, p as int).push(r)[p as int]);
                assert(rs1[p as int] == r);
                assert forall|j: int| 0 <= j < p implies bytes_lt(
                    #[trigger] encode_utf8(rs0[j].key),
                    kbs,
                ) by {
                    if j < p - 1 {
                        lemma_bytes_lt_trans(
                            encode_utf8(rs0[j].key),
                            encode_utf8(rs0[p - 1].key),
                            kbs,
                        );
                    }
                }
                assert(sorted_by_keys(rs1)) by {
                    assert forall|i: int, j: int|
                        #![trigger encode_utf8(rs1[i].key), encode_utf8(rs1[j].key)]
                        0 <= i < j < rs1.len() implies bytes_lt(
                        encode_utf8(rs1[i].key),
                        encode_utf8(rs1[j].key),
                    ) by {
                        if i < p && j == p {
                            assert(rs1[i] == rs0[i]);
                        } else if i == p && j > p {
                            assert(rs1[j] == rs0[j - 1]);
                        } else if i < p && j > p {
                            assert(rs1[i] == rs0[i]);
                            assert(rs1[j] == rs0[j - 1]);
                        } else if i > p && j > p {
                            assert(rs1[i] == rs0[i - 1]);
                            assert(rs1[j] == rs0[j - 1]);
                        } else {
                            assert(rs1[i] == rs0[i]);
                            assert(rs1[j] == rs0[j]);
                        }
                    }
                }
                lemma_sorted_distinct(rs1);
                lemma_lookup_at(rs1, p as int);
                assert forall|j: int| 0 <= j < rs0.len() implies rs0[j].key != key@ by {
                    if rs0[j].key == key@ {
                        assert(encode_utf8(rs0[j].key) == kbs);
                        lemma_bytes_lt_irrefl(kbs);
                    }
                }
                lemma_lookup_absent(rs0, key@);
                assert forall|k2: Seq<char>| #[trigger]
                    self.lookup(k2) == if k2 == key@ {
                        Some(value@)
                    } else {
                        old(self).lookup(k2)
                    } by {
                    if k2 != key@ {
                        lookup_insert_other(rs0, rs1, p as int, k2);
                    }
                }
                assert forall|j: int|
                    #![trigger rs1[j]]
                    0 <= j < rs1.len() implies (rs1[j] == r || (exists|j0: int|
                    0 <= j0 < rs0.len() && rs1[j] == rs0[j0])) by {
                    if j < p {
                        assert(rs1[j] == rs0[j]);
                    } else if j > p {
                        assert(rs1[j] == rs0[j - 1]);
                    }
                }
            }
        }
    }

    /// Looks a key up, returning a copy of its value (tombstones included).
    pub fn get(&self, key: &str) -> (r: Option<Value>)
        ensures
            match self.lookup(key@) {
                Some(v) => r matches Some(val) && val@ == v,
                None => r is None,
            },
    {
        let n = self.entries.len();
        let mut i = n;
        proof {
            assert(self.recs().subrange(0, n as int) =~= self.recs());
        }
        while i > 0
            invariant
                i <= n,
                n == self.recs().len(),
                entries_lookup(self.recs(), key@) == entries_lookup(
                    self.recs().subrange(0, i as int),
                    key@,
                ),
            decreases i,
        {
            let e = &self.entries[i - 1];
            if crate::codec::str_eq(key, e.key.as_str()) {
                proof {
                    let pre = self.recs().subrange(0, i as int);
                    assert(pre.last() == self.recs()[i - 1]);
                }
                return Some(e.value.dup());
            }
            proof {
                let pre = self.recs().subrange(0, i as int);
                assert(pre.last() == self.recs()[i - 1]);
                assert(pre.drop_last() =~= self.recs().subrange(0, i as int - 1));
            }
            i = i - 1;
        }
        proof {
            assert(self.recs().subrange(0, 0) =~= Seq::<RecView>::empty());
        }
        None
    }
}

/// Updating one record leaves the lookup of every other key unchanged.
proof fn lookup_update_other(rs0: Seq<RecView>, rs1: Seq<RecView>, p: int, k: Seq<char>)
    requires
        keys_distinct(rs0),
        keys_distinct(rs1),
        rs0.len() == rs1.len(),
        0 <= p < rs0.len(),
        rs1 == rs0.update(p, rs1[p]),
        rs0[p].key == rs1[p].key,
        k != rs0[p].key,
    ensures
        entries_lookup(rs1, k) == entries_lookup(rs0, k),
{
    match entries_lookup(rs0, k) {
        Some(v) => {
            lemma_lookup_some_index(rs0, k);
            let j = choose|j: int| 0 <= j < rs0.len() && rs0[j].key == k && rs0[j].value == v;
            assert(j != p);
            assert(rs1[j] == rs0[j]);
            lemma_lookup_at(rs1, j);
        },
        None => {
            assert forall|j: int| 0 <= j < rs1.len() implies rs1[j].key != k by {
                if rs1[j].key == k {
                    assert(j != p);
                    assert(rs1[j] == rs0[j]);
                    lemma_lookup_at(rs0, j);
                }
            }
            lemma_lookup_absent(rs1, k);
        },
    }
}

/// Inserting a record leaves the lookup of every other key unchanged.
proof fn lookup_insert_other(rs0: Seq<RecView>, rs1: Seq<RecView>, p: int, k: Seq<char>)
    requires
        keys_distinct(rs0),
        keys_distinct(rs1),
        0 <= p <= rs0.len(),
        rs1 == rs0.insert(p, rs1[p]),
        k != rs1[p].key,
    ensures
        entries_lookup(rs1, k) == entries_lookup(rs0, k),
{
    let e = rs1[p];
    assert(rs0.insert(p, e) == rs0.subrange(0, p).push(e) + rs0.subrange(p, rs0.len() as int));
    assert forall|q: int| 0 <= q < p implies #[trigger] rs1[q] == rs0[q] by {
        assert(rs1[q] == rs0.subrange(0, p).push(e)[q]);
        assert(rs1[q] == rs0.subrange(0, p)[q]);
    }
    assert forall|q: int| p < q < rs1.len() implies #[trigger] rs1[q] == rs0[q - 1] by {
        assert(rs1[q] == rs0.subrange(p, rs0.len() as int)[q - p - 1]);
    }
    match entries_lookup(rs0, k) {
        Some(v) => {
            lemma_lookup_some_index(rs0, k);
            let j = choose|j: int| 0 <= j < rs0.len() && rs0[j].key == k && rs0[j].value == v;
            if j < p {
                assert(rs1[j] == rs0[j]);
                lemma_lookup_at(rs1, j);
            } else {
                assert(rs1[j + 1] == rs0[j]);
                lemma_lookup_at(rs1, j + 1);
            }
        },
        None => {
            assert forall|j: int| 0 <= j < rs1.len() implies rs1[j].key != k by {
                if rs1[j].key == k {
                    assert(j != p);
                    if j < p {
                        assert(rs1[j] == rs0[j]);
                        lemma_lookup_at(rs0, j);
                    } else {
                        assert(rs1[j] == rs0[j - 1]);
                        lemma_lookup_at(rs0, j - 1);
                    }
                }
            }
            lemma_lookup_absent(rs1, k);
        },
    }
}

} // verus!
