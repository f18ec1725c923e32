//! Parsing of interactive commands: `put K V`, `get K`, `delete K`, `exit`.
use crate::codec::str_eq;
use crate::error::ParseError;
use crate::tokens::{split_tokens, split_ws, token_views};
use vstd::prelude::*;

verus! {

/// Whether an operation takes this many arguments: `put` two, `get` and
/// `delete` one, `exit` none.  An unknown operation is an error.
pub fn check_args(operation: &str, args_len: usize) -> (r: Result<bool, ParseError>)
    ensures
        operation@ == "put"@ ==> (r matches Ok(b) && b == (args_len == 2)),
        operation@ == "get"@ || operation@ == "delete"@ ==> (r matches Ok(b) && b == (args_len
            == 1)),
        operation@ == "exit"@ ==> (r matches Ok(b) && b == (args_len == 0)),
        operation@ != "put"@ && operation@ != "get"@ && operation@ != "delete"@ && operation@
            != "exit"@ ==> (r matches Err(e) && (e matches ParseError::CommandNotDefine(s) && s@
            == operation@)),
{
    proof {
        reveal_strlit("put");
        reveal_strlit("get");
        reveal_strlit("delete");
        reveal_strlit("exit");
        assert("put"@.len() == 3 && "get"@.len() == 3 && "delete"@.len() == 6 && "exit"@.len()
            == 4);
        assert("put"@ != "get"@) by {
            if "put"@ == "get"@ {
                assert("put"@[0] == "get"@[0]);
            }
        }
    }
    if str_eq(operation, "put") {
        Ok(args_len == 2)
    } else if str_eq(operation, "get") || str_eq(operation, "delete") {
        Ok(args_len == 1)
    } else if str_eq(operation, "exit") {
        Ok(args_len == 0)
    } else {
        Err(ParseError::CommandNotDefine(operation.to_owned()))
    }
}

/// Whether the tokens name a known operation with the right number of
/// arguments.
pub open spec fn arity_ok(toks: Seq<Seq<char>>) -> bool
    recommends
        toks.len() > 0,
{
    ||| (toks[0] == "put"@ && toks.len() == 3)
    ||| ((toks[0] == "get"@ || toks[0] == "delete"@) && toks.len() == 2)
    ||| (toks[0] == "exit"@ && toks.len() == 1)
}

/// Whether the first token names a known operation.
pub open spec fn known_op(toks: Seq<Seq<char>>) -> bool
    recommends
        toks.len() > 0,
{
    toks[0] == "put"@ || toks[0] == "get"@ || toks[0] == "delete"@ || toks[0] == "exit"@
}

/// Splits a line and checks it: an empty line gives no operation; a known
/// operation with the right number of arguments gives the operation and
/// the arguments; a known operation with the wrong number is invalid; an
/// unknown operation is an error.
pub fn parse_input(input: String) -> (r: Result<(Option<String>, Vec<String>), ParseError>)
    ensures
        ({
            let toks = split_ws(input@);
            if toks.len() == 0 {
                r matches Ok(p) && p.0 is None && p.1@.len() == 0
            } else if !known_op(toks) {
                r matches Err(e) && (e matches ParseError::CommandNotDefine(s) && s@ == toks[0])
            } else if arity_ok(toks) {
                r matches Ok(p) && (p.0 matches Some(o) && o@ == toks[0]) && token_views(p.1@)
                    == toks.subrange(1, toks.len() as int)
            } else {
                r matches Err(e) && e is InvalidArguments
            }
        }),
{
    let toks = split_tokens(input.as_str());
    let ghost tv = split_ws(input@);
    let n = toks.len();
    if n == 0 {
        return Ok((None, Vec::new()));
    }
    let mut toks = toks;
    let operation = toks.remove(0);
    let args = toks;
    proof {
        assert(operation@ == tv[0]);
        assert(token_views(args@) =~= tv.subrange(1, tv.len() as int));
    }
    if n > 3 {
        match check_args(operation.as_str(), usize::MAX) {
            Err(e) => Err(e),
            Ok(_) => Err(ParseError::InvalidArguments),
        }
    } else {
        match check_args(operation.as_str(), args.len()) {
            Err(e) => Err(e),
            Ok(true) => Ok((Some(operation), args)),
            Ok(false) => Err(ParseError::InvalidArguments),
        }
    }
}

} // verus!
