//! Byte-level model of the on-disk record frame, and the helpers every other
//! module shares: big-endian 64-bit integers, lexicographic byte order, and
//! UTF-8 conversions.
use vstd::prelude::*;
use vstd::utf8::{decode_utf8, encode_utf8, valid_utf8};

verus! {

/// Mathematical model of a stored value: a payload and a tombstone flag.
pub struct ValView {
    pub payload: Seq<char>,
    pub deleted: bool,
}

/// Mathematical model of one stored record: a key and its value.
pub struct RecView {
    pub key: Seq<char>,
    pub value: ValView,
}

// ---------------------------------------------------------------------------
// Big-endian 64-bit integers
// ---------------------------------------------------------------------------
/// The eight big-endian bytes of `x`.
pub open spec fn u64_be(x: u64) -> Seq<u8> {
    seq![
        (x >> 56) as u8,
        (x >> 48) as u8,
        (x >> 40) as u8,
        (x >> 32) as u8,
        (x >> 24) as u8,
        (x >> 16) as u8,
        (x >> 8) as u8,
        x as u8,
    ]
}

/// The value of eight big-endian bytes.
pub open spec fn be_u64(s: Seq<u8>) -> u64
    recommends
        s.len() == 8,
{
    (((s[0] as u64) << 56) | ((s[1] as u64) << 48) | ((s[2] as u64) << 40) | ((s[3] as u64) << 32)
        | ((s[4] as u64) << 24) | ((s[5] as u64) << 16) | ((s[6] as u64) << 8) | (s[7] as u64)) as u64
}

pub proof fn lemma_be_u64_of_u64_be(x: u64)
    ensures
        be_u64(u64_be(x)) == x,
{
    assert((((((x >> 56) as u8) as u64) << 56) | ((((x >> 48) as u8) as u64) << 48) | ((((x >> 40)
        as u8) as u64) << 40) | ((((x >> 32) as u8) as u64) << 32) | ((((x >> 24) as u8) as u64)
        << 24) | ((((x >> 16) as u8) as u64) << 16) | ((((x >> 8) as u8) as u64) << 8) | ((x
        as u8) as u64)) == x) by (bit_vector);
}

/// The eight big-endian bytes of `x`, as a vector.
pub fn u64_to_be(x: u64) -> (r: Vec<u8>)
    ensures
        r@ == u64_be(x),
{
    let mut r: Vec<u8> = Vec::new();
    r.push((x >> 56) as u8);
    r.push((x >> 48) as u8);
    r.push((x >> 40) as u8);
    r.push((x >> 32) as u8);
    r.push((x >> 24) as u8);
    r.push((x >> 16) as u8);
    r.push((x >> 8) as u8);
    r.push(x as u8);
    proof {
        assert(r@ =~= u64_be(x));
    }
    r
}

/// Reads the big-endian 64-bit integer stored at `off`.
pub fn read_u64_be(data: &Vec<u8>, off: usize) -> (x: u64)
    requires
        off + 8 <= data@.len(),
        data@.len() <= usize::MAX,
    ensures
        x == be_u64(data@.subrange(off as int, off as int + 8)),
{
    let x = (((data[off] as u64) << 56) | ((data[off + 1] as u64) << 48) | ((data[off + 2] as u64)
        << 40) | ((data[off + 3] as u64) << 32) | ((data[off + 4] as u64) << 24) | ((data[off + 5]
        as u64) << 16) | ((data[off + 6] as u64) << 8) | (data[off + 7] as u64));
    proof {
        let s = data@.subrange(off as int, off as int + 8);
        assert(s[0] == data@[off as int]);
        assert(s[7] == data@[off as int + 7]);
    }
    x
}

/// Copies `count` bytes of `data` starting at `start`.
pub fn copy_range(data: &Vec<u8>, start: usize, count: usize) -> (r: Vec<u8>)
    requires
        start + count <= data@.len(),
        data@.len() <= usize::MAX,
    ensures
        r@ == data@.subrange(start as int, start as int + count as int),
{
    let mut r: Vec<u8> = Vec::new();
    let mut i: usize = 0;
    while i < count
        invariant
            i <= count,
            start + count <= data@.len(),
            data@.len() <= usize::MAX,
            r@ == data@.subrange(start as int, start as int + i as int),
        decreases count - i,
    {
        let b = data[start + i];
        r.push(b);
        proof {
            assert(r@ =~= data@.subrange(start as int, start as int + i as int + 1));
        }
        i = i + 1;
    }
    r
}

// ---------------------------------------------------------------------------
// Lexicographic byte order
// ---------------------------------------------------------------------------
/// Strict lexicographic (byte-wise) order on byte sequences.
pub open spec fn bytes_lt(a: Seq<u8>, b: Seq<u8>) -> bool
    decreases a.len() + b.len(),
{
    if b.len() == 0 {
        false
    } else if a.len() == 0 {
        true
    } else if a[0] < b[0] {
        true
    } else {
        a[0] == b[0] && bytes_lt(a.drop_first(), b.drop_first())
    }
}

pub proof fn lemma_bytes_lt_irrefl(a: Seq<u8>)
    ensures
        !bytes_lt(a, a),
    decreases a.len(),
{
    if a.len() > 0 {
        lemma_bytes_lt_irrefl(a.drop_first());
    }
}

pub proof fn lemma_bytes_lt_asym(a: Seq<u8>, b: Seq<u8>)
    requires
        bytes_lt(a, b),
    ensures
        !bytes_lt(b, a),
        a != b,
    decreases a.len() + b.len(),
{
    if a.len() > 0 && b.len() > 0 && a[0] == b[0] {
        lemma_bytes_lt_asym(a.drop_first(), b.drop_first());
        assert(a != b) by {
            assert(a.drop_first() != b.drop_first());
            if a == b {
                assert(a.drop_first() =~= b.drop_first());
            }
        }
    } else if bytes_lt(a, b) && a.len() > 0 {
        assert(a != b) by {
            if a == b {
                assert(a[0] == b[0]);
            }
        }
    }
}

pub proof fn lemma_bytes_lt_trans(a: Seq<u8>, b: Seq<u8>, c: Seq<u8>)
    requires
        bytes_lt(a, b),
        bytes_lt(b, c),
    ensures
        bytes_lt(a, c),
    decreases a.len() + b.len() + c.len(),
{
    if a.len() > 0 && b.len() > 0 && c.len() > 0 {
        if a[0] == b[0] && b[0] == c[0] {
            lemma_bytes_lt_trans(a.drop_first(), b.drop_first(), c.drop_first());
        }
    }
}

/// Three-way comparison result for keys.
#[derive(PartialEq, Eq, Structural)]
pub enum KeyOrd {
    Less,
    Equal,
    Greater,
}

/// If two sequences agree up to position `i` and differ there, the one with
/// the smaller byte is lexicographically smaller.
pub proof fn lemma_bytes_lt_from_diff(a: Seq<u8>, b: Seq<u8>, i: int)
    requires
        0 <= i < a.len(),
        i < b.len(),
        a.subrange(0, i) == b.subrange(0, i),
        a[i] < b[i],
    ensures
        bytes_lt(a, b),
    decreases i,
{
    if i == 0 {
    } else {
        assert(a[0] == a.subrange(0, i)[0]);
        assert(a[0] == b[0]);
        assert(a.drop_first().subrange(0, i - 1) =~= b.drop_first().subrange(0, i - 1)) by {
            assert forall|j: int| 0 <= j < i - 1 implies a.drop_first()[j] == b.drop_first()[j] by {
                assert(a[j + 1] == a.subrange(0, i)[j + 1]);
            }
        }
        assert(a.drop_first()[i - 1] == a[i]);
        lemma_bytes_lt_from_diff(a.drop_first(), b.drop_first(), i - 1);
    }
}

/// A proper prefix is lexicographically smaller.
pub proof fn lemma_bytes_lt_proper_prefix(a: Seq<u8>, b: Seq<u8>)
    requires
        a.len() < b.len(),
        a == b.subrange(0, a.len() as int),
    ensures
        bytes_lt(a, b),
    decreases a.len(),
{
    if a.len() > 0 {
        assert(a[0] == b.subrange(0, a.len() as int)[0]);
        assert(a.drop_first() =~= b.drop_first().subrange(0, a.len() - 1)) by {
            assert forall|j: int| 0 <= j < a.len() - 1 implies a.drop_first()[j]
                == b.drop_first()[j] by {
                assert(a[j + 1] == b.subrange(0, a.len() as int)[j + 1]);
            }
        }
        lemma_bytes_lt_proper_prefix(a.drop_first(), b.drop_first());
    }
}

/// Compares two byte strings lexicographically.
pub fn bytes_cmp(a: &[u8], b: &[u8]) -> (r: KeyOrd)
    ensures
        (r == KeyOrd::Less) <==> bytes_lt(a@, b@),
        (r == KeyOrd::Equal) <==> a@ == b@,
        (r == KeyOrd::Greater) <==> bytes_lt(b@, a@),
{
    let alen = a.len();
    let blen = b.len();
    let mut i: usize = 0;
    while i < alen && i < blen
        invariant
            alen == a@.len(),
            blen == b@.len(),
            i <= alen,
            i <= blen,
            a@.subrange(0, i as int) =~= b@.subrange(0, i as int),
        decreases alen - i,
    {
        let x = a[i];
        let y = b[i];
        if x < y {
            proof {
                lemma_bytes_lt_from_diff(a@, b@, i as int);
                lemma_bytes_lt_asym(a@, b@);
            }
            return KeyOrd::Less;
        } else if y < x {
            proof {
                lemma_bytes_lt_from_diff(b@, a@, i as int);
                lemma_bytes_lt_asym(b@, a@);
            }
            return KeyOrd::Greater;
        }
        proof {
            assert(a@.subrange(0, i as int + 1) =~= b@.subrange(0, i as int + 1));
        }
        i = i + 1;
    }
    if alen == blen {
        proof {
            assert forall|j: int| 0 <= j < a@.len() implies a@[j] == b@[j] by {
                assert(a@[j] == a@.subrange(0, i as int)[j]);
                assert(b@[j] == b@.subrange(0, i as int)[j]);
            }
            assert(a@ =~= b@);
            lemma_bytes_lt_irrefl(a@);
        }
        KeyOrd::Equal
    } else if alen < blen {
        proof {
            assert(a@ =~= b@.subrange(0, a@.len() as int));
            lemma_bytes_lt_proper_prefix(a@, b@);
            lemma_bytes_lt_asym(a@, b@);
        }
        KeyOrd::Less
    } else {
        proof {
            assert(b@ =~= a@.subrange(0, b@.len() as int));
            lemma_bytes_lt_proper_prefix(b@, a@);
            lemma_bytes_lt_asym(b@, a@);
        }
        KeyOrd::Greater
    }
}

// ---------------------------------------------------------------------------
// UTF-8 conversions
// ---------------------------------------------------------------------------
/// The UTF-8 encoding is injective: equal encodings mean equal strings.
pub proof fn lemma_encode_utf8_injective(a: Seq<char>, b: Seq<char>)
    requires
        encode_utf8(a) == encode_utf8(b),
    ensures
        a == b,
{
    broadcast use vstd::utf8::encode_utf8_decode_utf8;

    assert(decode_utf8(encode_utf8(a)) == a);
    assert(decode_utf8(encode_utf8(b)) == b);
}

/// Tests two string slices for equality.
pub fn str_eq(a: &str, b: &str) -> (r: bool)
    ensures
        r == (a@ == b@),
{
    let ab = a.as_bytes();
    let bb = b.as_bytes();
    let r = matches!(bytes_cmp(ab, bb), KeyOrd::Equal);
    proof {
        if ab@ == bb@ {
            lemma_encode_utf8_injective(a@, b@);
        }
    }
    r
}

// ---------------------------------------------------------------------------
// The record frame
// ---------------------------------------------------------------------------
/// The value segment of a frame: `value_len` (payload length plus one,
/// big-endian), the payload bytes, then a single tombstone byte.
pub open spec fn val_bytes(v: ValView) -> Seq<u8> {
    u64_be((encode_utf8(v.payload).len() + 1) as u64) + encode_utf8(v.payload) + seq![
        if v.deleted {
            1u8
        } else {
            0u8
        },
    ]
}

/// Machine bounds under which a value can be encoded.
pub open spec fn val_fits(v: ValView) -> bool {
    &&& encode_utf8(v.payload).len() + 1 <= u64::MAX
    &&& encode_utf8(v.payload).len() + 9 <= usize::MAX
}

/// One record frame: the key length (big-endian), the key bytes, then the
/// value segment.
pub open spec fn frame_bytes(r: RecView) -> Seq<u8> {
    u64_be(encode_utf8(r.key).len() as u64) + encode_utf8(r.key) + val_bytes(r.value)
}

/// The byte length of the frame of `r`.
pub open spec fn frame_size(r: RecView) -> int {
    17 + encode_utf8(r.key).len() as int + encode_utf8(r.value.payload).len() as int
}

/// Machine bounds under which a record can be framed.
pub open spec fn rec_fits(r: RecView) -> bool {
    &&& val_fits(r.value)
    &&& encode_utf8(r.key).len() <= u64::MAX
    &&& frame_size(r) <= usize::MAX
}

/// Decodes the frame at the front of `b`: the record it holds and the number
/// of bytes it occupies.  `None` when `b` starts with no well-formed frame
/// (truncated, a non-UTF-8 key or payload, a zero value length, or a
/// tombstone byte other than 0 and 1).
pub open spec fn dec_frame(b: Seq<u8>) -> Option<(RecView, int)> {
    if b.len() < 8 {
        None
    } else {
        let klen = be_u64(b.subrange(0, 8)) as int;
        if b.len() < 16 + klen {
            None
        } else {
            let kb = b.subrange(8, 8 + klen);
            let vlen = be_u64(b.subrange(8 + klen, 16 + klen)) as int;
            if vlen < 1 || b.len() < 16 + klen + vlen {
                None
            } else {
                let pb = b.subrange(16 + klen, 16 + klen + (vlen - 1));
                let tb = b[16 + klen + vlen - 1];
                if valid_utf8(kb) && valid_utf8(pb) && tb <= 1 {
                    Some(
                        (
                            RecView {
                                key: decode_utf8(kb),
                                value: ValView { payload: decode_utf8(pb), deleted: tb == 1 },
                            },
                            16 + klen + vlen,
                        ),
                    )
                } else {
                    None
                }
            }
        }
    }
}

pub proof fn lemma_dec_frame_bounds(b: Seq<u8>)
    requires
        dec_frame(b) is Some,
    ensures
        17 <= dec_frame(b).unwrap().1 <= b.len(),
{
}

/// Appending bytes after a decodable frame does not change how it decodes.
pub proof fn lemma_dec_frame_prefix(b: Seq<u8>, ext: Seq<u8>)
    requires
        dec_frame(b) is Some,
    ensures
        dec_frame(b + ext) == dec_frame(b),
{
    let c = b + ext;
    let klen = be_u64(b.subrange(0, 8)) as int;
    assert(c.subrange(0, 8) =~= b.subrange(0, 8));
    assert(c.subrange(8, 8 + klen) =~= b.subrange(8, 8 + klen));
    assert(c.subrange(8 + klen, 16 + klen) =~= b.subrange(8 + klen, 16 + klen));
    let vlen = be_u64(b.subrange(8 + klen, 16 + klen)) as int;
    assert(c.subrange(16 + klen, 16 + klen + (vlen - 1)) =~= b.subrange(
        16 + klen,
        16 + klen + (vlen - 1),
    ));
    assert(c[16 + klen + vlen - 1] == b[16 + klen + vlen - 1]);
}

/// Decoding the frame of `r` recovers `r`, whatever bytes follow the frame.
pub proof fn lemma_dec_of_frame(r: RecView, rest: Seq<u8>)
    requires
        rec_fits(r),
    ensures
        dec_frame(frame_bytes(r) + rest) == Some((r, frame_size(r))),
{
    broadcast use vstd::utf8::encode_utf8_valid_utf8, vstd::utf8::encode_utf8_decode_utf8;

    let kb = encode_utf8(r.key);
    let pb = encode_utf8(r.value.payload);
    let klen = kb.len() as int;
    let plen = pb.len() as int;
    let tb: u8 = if r.value.deleted {
        1u8
    } else {
        0u8
    };
    let f = frame_bytes(r) + rest;
    assert(frame_bytes(r).len() == 17 + klen + plen);
    assert(f.subrange(0, 8) =~= u64_be(klen as u64));
    lemma_be_u64_of_u64_be(klen as u64);
    assert(be_u64(f.subrange(0, 8)) as int == klen);
    assert(f.len() >= 16 + klen);
    assert(f.subrange(8, 8 + klen) =~= kb);
    assert(f.subrange(8 + klen, 16 + klen) =~= u64_be((plen + 1) as u64));
    lemma_be_u64_of_u64_be((plen + 1) as u64);
    assert(be_u64(f.subrange(8 + klen, 16 + klen)) as int == plen + 1);
    assert(f.len() >= 16 + klen + (plen + 1));
    assert(f.subrange(16 + klen, 16 + klen + plen) =~= pb);
    assert(f[16 + klen + plen] == tb);
    assert(valid_utf8(kb));
    assert(valid_utf8(pb));
    assert(decode_utf8(kb) == r.key);
    assert(decode_utf8(pb) == r.value.payload);
    assert((tb == 1) == r.value.deleted);
}

/// Parses `b` as exactly one value segment: `value_len`, the payload, and
/// the tombstone byte, with nothing left over.
pub open spec fn parse_val(b: Seq<u8>) -> Option<ValView> {
    if b.len() < 9 {
        None
    } else {
        let vlen = be_u64(b.subrange(0, 8)) as int;
        if vlen < 1 || b.len() != 8 + vlen {
            None
        } else {
            let pb = b.subrange(8, 8 + vlen - 1);
            let tb = b[8 + vlen - 1];
            if valid_utf8(pb) && tb <= 1 {
                Some(ValView { payload: decode_utf8(pb), deleted: tb == 1 })
            } else {
                None
            }
        }
    }
}

/// Parsing the value segment of `v` recovers `v`.
pub proof fn lemma_parse_val_of_val_bytes(v: ValView)
    requires
        val_fits(v),
    ensures
        parse_val(val_bytes(v)) == Some(v),
{
    broadcast use vstd::utf8::encode_utf8_valid_utf8, vstd::utf8::encode_utf8_decode_utf8;

    let pb = encode_utf8(v.payload);
    let plen = pb.len() as int;
    let b = val_bytes(v);
    assert(b.len() == 9 + plen);
    assert(b.subrange(0, 8) =~= u64_be((plen + 1) as u64));
    lemma_be_u64_of_u64_be((plen + 1) as u64);
    assert(be_u64(b.subrange(0, 8)) as int == plen + 1);
    assert(b.subrange(8, 8 + plen) =~= pb);
    assert(b[8 + plen] == if v.deleted {
        1u8
    } else {
        0u8
    });
    assert(valid_utf8(pb));
    assert(decode_utf8(pb) == v.payload);
}

/// Parses `b` as a concatenation of frames.  `None` when some prefix is not
/// a well-formed frame (in particular when a partial frame trails the data).
pub open spec fn parse_rest(b: Seq<u8>) -> Option<Seq<RecView>>
    decreases b.len(),
{
    if b.len() == 0 {
        Some(Seq::empty())
    } else {
        match dec_frame(b) {
            Option::None => None,
            Option::Some((r, n)) => {
                if 0 < n <= b.len() {
                    match parse_rest(b.skip(n)) {
                        Option::None => None,
                        Option::Some(rs) => Some(seq![r] + rs),
                    }
                } else {
                    None
                }
            },
        }
    }
}

/// Appending one more frame to fully-parsing data appends its record.
#[verifier::rlimit(100)]
pub proof fn lemma_parse_rest_append(a: Seq<u8>, r: RecView)
    requires
        parse_rest(a) is Some,
        rec_fits(r),
    ensures
        parse_rest(a + frame_bytes(r)) == Some(parse_rest(a).unwrap().push(r)),
    decreases a.len(),
{
    let f = frame_bytes(r);
    if a.len() == 0 {
        lemma_dec_of_frame(r, Seq::empty());
        assert(a + f =~= f + Seq::<u8>::empty());
        let n = frame_size(r);
        assert(dec_frame(a + f) == Some((r, n)));
        assert((a + f).len() == n);
        assert((a + f).skip(n) =~= Seq::<u8>::empty());
        assert(parse_rest(Seq::<u8>::empty()) == Some(Seq::<RecView>::empty()));
        assert(parse_rest((a + f).skip(n)) == Some(Seq::<RecView>::empty()));
        assert(parse_rest(a + f) == Some(seq![r] + Seq::<RecView>::empty()));
        assert(parse_rest(a) == Some(Seq::<RecView>::empty()));
        assert(seq![r] + Seq::<RecView>::empty() =~= parse_rest(a).unwrap().push(r));
    } else {
        let (r0, n0) = dec_frame(a).unwrap();
        lemma_dec_frame_bounds(a);
        let rs0 = parse_rest(a.skip(n0)).unwrap();
        assert(parse_rest(a).unwrap() == seq![r0] + rs0);
        lemma_dec_frame_prefix(a, f);
        assert(dec_frame(a + f) == Some((r0, n0)));
        assert((a + f).skip(n0) =~= a.skip(n0) + f);
        lemma_parse_rest_append(a.skip(n0), r);
        assert(parse_rest((a + f).skip(n0)) == Some(rs0.push(r)));
        assert(seq![r0] + rs0.push(r) =~= (seq![r0] + rs0).push(r));
        assert(parse_rest(a + f) == Some((seq![r0] + rs0).push(r)));
    }
}

/// A record decoded from real data fits the machine bounds.
pub proof fn lemma_dec_frame_fits(b: Seq<u8>)
    requires
        b.len() <= usize::MAX,
        dec_frame(b) is Some,
    ensures
        rec_fits(dec_frame(b).unwrap().0),
{
    broadcast use vstd::utf8::decode_utf8_encode_utf8;

    let klen = be_u64(b.subrange(0, 8)) as int;
    let kb = b.subrange(8, 8 + klen);
    let vlen = be_u64(b.subrange(8 + klen, 16 + klen)) as int;
    let pb = b.subrange(16 + klen, 16 + klen + (vlen - 1));
    assert(encode_utf8(decode_utf8(kb)) == kb);
    assert(encode_utf8(decode_utf8(pb)) == pb);
}

/// Every record parsed from real data fits the machine bounds.
pub proof fn lemma_parse_rest_fits(b: Seq<u8>)
    requires
        b.len() <= usize::MAX,
        parse_rest(b) is Some,
    ensures
        forall|j: int|
            0 <= j < parse_rest(b).unwrap().len() ==> rec_fits(#[trigger] parse_rest(b).unwrap()[j]),
    decreases b.len(),
{
    if b.len() == 0 {
    } else {
        let (r, n) = dec_frame(b).unwrap();
        lemma_dec_frame_fits(b);
        lemma_parse_rest_fits(b.skip(n));
        let rs = parse_rest(b).unwrap();
        let rest = parse_rest(b.skip(n)).unwrap();
        assert(rs == seq![r] + rest);
        assert forall|j: int| 0 <= j < rs.len() implies rec_fits(#[trigger] rs[j]) by {
            if j == 0 {
                assert(rs[0] == r);
            } else {
                assert(rs[j] == rest[j - 1]);
            }
        }
    }
}

// ---------------------------------------------------------------------------
// Looking a key up in a sequence of records
// ---------------------------------------------------------------------------
/// The value the latest record for `k` holds, if any: later records override
/// earlier ones.
pub open spec fn entries_lookup(rs: Seq<RecView>, k: Seq<char>) -> Option<ValView>
    decreases rs.len(),
{
    if rs.len() == 0 {
        None
    } else if rs.last().key == k {
        Some(rs.last().value)
    } else {
        entries_lookup(rs.drop_last(), k)
    }
}

/// No two records carry the same key.
pub open spec fn keys_distinct(rs: Seq<RecView>) -> bool {
    forall|i: int, j: int| 0 <= i < j < rs.len() ==> rs[i].key != rs[j].key
}

/// Appending a record overrides exactly its own key.
pub proof fn lemma_lookup_push(rs: Seq<RecView>, r: RecView, k: Seq<char>)
    ensures
        entries_lookup(rs.push(r), k) == if r.key == k {
            Some(r.value)
        } else {
            entries_lookup(rs, k)
        },
{
    assert(rs.push(r).drop_last() =~= rs);
}

/// With distinct keys, every record is the one its key looks up to.
pub proof fn lemma_lookup_at(rs: Seq<RecView>, i: int)
    requires
        keys_distinct(rs),
        0 <= i < rs.len(),
    ensures
        entries_lookup(rs, rs[i].key) == Some(rs[i].value),
    decreases rs.len(),
{
    if i == rs.len() - 1 {
    } else {
        assert(rs.last().key != rs[i].key);
        assert(rs.drop_last()[i] == rs[i]);
        lemma_lookup_at(rs.drop_last(), i);
    }
}

/// A key no record carries looks up to nothing.
pub proof fn lemma_lookup_absent(rs: Seq<RecView>, k: Seq<char>)
    requires
        forall|i: int| 0 <= i < rs.len() ==> rs[i].key != k,
    ensures
        entries_lookup(rs, k) is None,
    decreases rs.len(),
{
    if rs.len() > 0 {
        lemma_lookup_absent(rs.drop_last(), k);
    }
}

/// A successful lookup comes from some record with that key.
pub proof fn lemma_lookup_some_index(rs: Seq<RecView>, k: Seq<char>)
    requires
        entries_lookup(rs, k) is Some,
    ensures
        exists|i: int|
            0 <= i < rs.len() && rs[i].key == k && rs[i].value == entries_lookup(rs, k).unwrap(),
    decreases rs.len(),
{
    if rs.last().key == k {
        assert(rs[rs.len() - 1].key == k);
    } else {
        lemma_lookup_some_index(rs.drop_last(), k);
        let i = choose|i: int|
            0 <= i < rs.drop_last().len() && rs.drop_last()[i].key == k && rs.drop_last()[i].value
                == entries_lookup(rs.drop_last(), k).unwrap();
        assert(rs[i] == rs.drop_last()[i]);
    }
}

/// Relies on `String::from_utf8`: it succeeds exactly on valid UTF-8 input,
/// and then returns the string whose characters are the decoding of the bytes
/// (so its byte representation is the input itself).
#[verifier::external_body]
pub(crate) fn bytes_to_string(bytes: Vec<u8>) -> (r: Option<String>)
    ensures
        r is Some <==> valid_utf8(bytes@),
        r matches Some(s) ==> s@ == decode_utf8(bytes@),
{
    match String::from_utf8(bytes) {
        Ok(s) => Some(s),
        Err(_) => None,
    }
}

} // verus!
