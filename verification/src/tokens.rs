//! Splitting a command line into whitespace-separated tokens.
use vstd::prelude::*;
use vstd::string::{StrSliceExecFns, StringSliceAdditionalSpecFns};

verus! {

/// The whitespace that separates command tokens.
pub open spec fn is_space_char(c: char) -> bool {
    c == ' ' || c == '\t' || c == '\n' || c == '\r'
}

/// Tokenization of `s` with `cur` as the partially read current token.
pub open spec fn tok_rec(s: Seq<char>, cur: Seq<char>) -> Seq<Seq<char>>
    decreases s.len(),
{
    if s.len() == 0 {
        if cur.len() == 0 {
            Seq::empty()
        } else {
            seq![cur]
        }
    } else if is_space_char(s[0]) {
        if cur.len() == 0 {
            tok_rec(s.drop_first(), cur)
        } else {
            seq![cur] + tok_rec(s.drop_first(), Seq::empty())
        }
    } else {
        tok_rec(s.drop_first(), cur.push(s[0]))
    }
}

/// The whitespace-separated tokens of a line, in order.
pub open spec fn split_ws(s: Seq<char>) -> Seq<Seq<char>> {
    tok_rec(s, Seq::empty())
}

/// The views of a vector of strings.
pub open spec fn token_views(v: Seq<String>) -> Seq<Seq<char>> {
    v.map_values(|t: String| t@)
}

/// Splits a line into its whitespace-separated tokens.
pub fn split_tokens(input: &str) -> (r: Vec<String>)
    ensures
        token_views(r@) == split_ws(input@),
{
    let n = input.unicode_len();
    let mut r: Vec<String> = Vec::new();
    let mut i: usize = 0;
    let mut start: usize = 0;
    let mut in_tok: bool = false;
    proof {
        assert(input@.skip(0) =~= input@);
        assert(token_views(r@) =~= Seq::<Seq<char>>::empty());
        assert(Seq::<Seq<char>>::empty() + tok_rec(input@, Seq::empty()) =~= tok_rec(
            input@,
            Seq::empty(),
        ));
    }
    while i < n
        invariant
            n == input@.len(),
            i <= n,
            in_tok ==> start < i,
            !in_tok ==> split_ws(input@) == token_views(r@) + tok_rec(
                input@.skip(i as int),
                Seq::empty(),
            ),
            in_tok ==> split_ws(input@) == token_views(r@) + tok_rec(
                input@.skip(i as int),
                input@.subrange(start as int, i as int),
            ),
        decreases n - i,
    {
        let c = input.get_char(i);
        let sp = c == ' ' || c == '\t' || c == '\n' || c == '\r';
        let ghost suf = input@.skip(i as int);
        proof {
            assert(suf[0] == input@[i as int]);
            assert(suf.drop_first() =~= input@.skip(i as int + 1));
        }
        if sp {
            if in_tok {
                let ghost cur = input@.subrange(start as int, i as int);
                let tok = input.substring_char(start, i).to_owned();
                let ghost r0 = r@;
                r.push(tok);
                in_tok = false;
                proof {
                    assert(tok_rec(suf, cur) == seq![cur] + tok_rec(suf.drop_first(), Seq::empty()));
                    assert(token_views(r@) =~= token_views(r0).push(cur));
                    assert(token_views(r0) + (seq![cur] + tok_rec(
                        input@.skip(i as int + 1),
                        Seq::empty(),
                    )) =~= token_views(r@) + tok_rec(input@.skip(i as int + 1), Seq::empty()));
                }
            }
        } else {
            if !in_tok {
                start = i;
                in_tok = true;
                proof {
                    assert(Seq::<char>::empty().push(c) =~= input@.subrange(
                        start as int,
                        i as int + 1,
                    ));
                }
            } else {
                proof {
                    assert(input@.subrange(start as int, i as int).push(c) =~= input@.subrange(
                        start as int,
                        i as int + 1,
                    ));
                }
            }
        }
        i = i + 1;
    }
    if in_tok {
        let ghost cur = input@.subrange(start as int, n as int);
        let tok = input.substring_char(start, n).to_owned();
        let ghost r0 = r@;
        r.push(tok);
        proof {
            assert(input@.skip(n as int) =~= Seq::<char>::empty());
            assert(tok_rec(Seq::<char>::empty(), cur) == seq![cur]);
            assert(token_views(r@) =~= token_views(r0).push(cur));
            assert(token_views(r0) + seq![cur] =~= token_views(r@));
        }
    } else {
        proof {
            assert(input@.skip(n as int) =~= Seq::<char>::empty());
            assert(token_views(r@) + Seq::<Seq<char>>::empty() =~= token_views(r@));
        }
    }
    r
}

} // verus!
