//! Table file names: the `.dat` extension filter and the numeric sort key
//! parsed from a file name's timestamp stem.
use vstd::prelude::*;
use vstd::string::StrSliceExecFns;

verus! {

/// Whether `c` is a decimal digit.
pub open spec fn is_digit_char(c: char) -> bool {
    48 <= c as u32 <= 57
}

/// The numeric value of a digit string, most significant digit first.
pub open spec fn digits_val(s: Seq<char>) -> int
    decreases s.len(),
{
    if s.len() == 0 {
        0
    } else {
        digits_val(s.drop_last()) * 10 + ((s.last() as u32) - 48)
    }
}

/// Whether every character is a decimal digit.
pub open spec fn all_digits(s: Seq<char>) -> bool {
    forall|i: int| 0 <= i < s.len() ==> is_digit_char(#[trigger] s[i])
}

/// Whether a file name is a table file name: a non-empty stem followed by
/// `.dat`.
pub open spec fn is_dat_name(name: Seq<char>) -> bool {
    name.len() >= 5 && name.subrange(name.len() - 4, name.len() as int) == ".dat"@
}

/// The sort key of a table file name: the numeric value of its stem when
/// the stem is all digits and fits in a 64-bit integer; nothing otherwise.
pub open spec fn name_key(name: Seq<char>) -> Option<u64> {
    if is_dat_name(name) && all_digits(name.subrange(0, name.len() - 4)) && digits_val(
        name.subrange(0, name.len() - 4),
    ) <= u64::MAX {
        Some(digits_val(name.subrange(0, name.len() - 4)) as u64)
    } else {
        None
    }
}

/// Sort keys ordered with unkeyed names first.
pub open spec fn key_le(a: Option<u64>, b: Option<u64>) -> bool {
    match (a, b) {
        (Option::None, _) => true,
        (Option::Some(_), Option::None) => false,
        (Option::Some(x), Option::Some(y)) => x <= y,
    }
}

/// The value of a digit string is nonnegative.
proof fn lemma_digits_val_nonneg(s: Seq<char>)
    requires
        all_digits(s),
    ensures
        digits_val(s) >= 0,
    decreases s.len(),
{
    if s.len() > 0 {
        assert(all_digits(s.drop_last())) by {
            assert(forall|i: int| 0 <= i < s.len() - 1 ==> s.drop_last()[i] == s[i]);
        }
        lemma_digits_val_nonneg(s.drop_last());
        assert(is_digit_char(s.last()));
    }
}

/// A prefix of a digit string is worth no more than the whole.
proof fn lemma_digits_val_prefix(s: Seq<char>, j: int)
    requires
        all_digits(s),
        0 <= j <= s.len(),
    ensures
        digits_val(s.subrange(0, j)) <= digits_val(s),
    decreases s.len() - j,
{
    if j == s.len() {
        assert(s.subrange(0, j) =~= s);
    } else {
        lemma_digits_val_prefix(s, j + 1);
        let a = s.subrange(0, j);
        let b = s.subrange(0, j + 1);
        assert(b.drop_last() =~= a);
        assert(all_digits(b)) by {
            assert(forall|i: int| 0 <= i < b.len() ==> b[i] == s[i]);
        }
        assert(is_digit_char(b.last()));
        lemma_digits_val_nonneg(a);
        assert(digits_val(b) == digits_val(a) * 10 + ((b.last() as u32) - 48));
        assert(digits_val(a) * 10 >= digits_val(a)) by (nonlinear_arith)
            requires
                digits_val(a) >= 0,
        ;
    }
}

/// Whether a file name carries the `.dat` extension of a table file.
pub fn is_data_file(name: &str) -> (r: bool)
    ensures
        r == is_dat_name(name@),
{
    let n = name.unicode_len();
    if n < 5 {
        return false;
    }
    proof {
        reveal_strlit(".dat");
    }
    let r = name.get_char(n - 4) == '.' && name.get_char(n - 3) == 'd' && name.get_char(n - 2)
        == 'a' && name.get_char(n - 1) == 't';
    proof {
        let tail = name@.subrange(name@.len() - 4, name@.len() as int);
        if r {
            assert(tail =~= ".dat"@);
        } else {
            assert(tail[0] == name@[name@.len() - 4]);
            assert(tail[1] == name@[name@.len() - 3]);
            assert(tail[2] == name@[name@.len() - 2]);
            assert(tail[3] == name@[name@.len() - 1]);
            assert(tail != ".dat"@);
        }
    }
    r
}

/// The sort key of a table file name.
pub fn file_sort_key(name: &str) -> (r: Option<u64>)
    ensures
        r == name_key(name@),
{
    if !is_data_file(name) {
        return None;
    }
    let n = name.unicode_len();
    let ghost stem = name@.subrange(0, name@.len() - 4);
    let mut acc: u64 = 0;
    let mut i: usize = 0;
    while i < n - 4
        invariant
            is_dat_name(name@),
            n == name@.len(),
            n >= 5,
            stem == name@.subrange(0, name@.len() - 4),
            i <= n - 4,
            all_digits(stem.subrange(0, i as int)),
            acc == digits_val(stem.subrange(0, i as int)),
        decreases n - 4 - i,
    {
        let c = name.get_char(i);
        let u = c as u32;
        proof {
            assert(stem[i as int] == name@[i as int]);
        }
        if u < 48 || u > 57 {
            proof {
                assert(!is_digit_char(stem[i as int]));
                assert(!all_digits(stem));
            }
            return None;
        }
        let d = (u - 48) as u64;
        let ghost pre = stem.subrange(0, i as int);
        let ghost pre1 = stem.subrange(0, i as int + 1);
        proof {
            assert(pre1.drop_last() =~= pre);
            assert(pre1.last() == stem[i as int]);
            assert(all_digits(pre1)) by {
                assert(forall|q: int| 0 <= q < pre1.len() ==> pre1[q] == stem[q]);
            }
            assert(digits_val(pre1) == digits_val(pre) * 10 + d);
        }
        if acc > (u64::MAX - d) / 10 {
            proof {
                assert(digits_val(pre1) > u64::MAX) by (nonlinear_arith)
                    requires
                        digits_val(pre1) == digits_val(pre) * 10 + d,
                        digits_val(pre) == acc,
                        acc > (u64::MAX - d) / 10,
                        0 <= d <= 9,
                ;
                if all_digits(stem) && digits_val(stem) <= u64::MAX {
                    lemma_digits_val_prefix(stem, i as int + 1);
                }
            }
            return None;
        }
        proof {
            assert(acc * 10 + d <= u64::MAX) by (nonlinear_arith)
                requires
                    0 <= acc <= (u64::MAX - d) / 10,
                    0 <= d <= 9,
            ;
        }
        acc = acc * 10 + d;
        i = i + 1;
    }
    proof {
        assert(stem.subrange(0, stem.len() as int) =~= stem);
        lemma_digits_val_nonneg(stem);
    }
    Some(acc)
}

/// Decides `key_le` on two sort keys.
pub fn key_le_exec(a: &Option<u64>, b: &Option<u64>) -> (r: bool)
    ensures
        r == key_le(*a, *b),
{
    match (a, b) {
        (Option::None, _) => true,
        (Option::Some(_), Option::None) => false,
        (Option::Some(x), Option::Some(y)) => *x <= *y,
    }
}

} // verus!
