//! Checking of commands typed into the remote shell before they are sent.
use crate::codec::str_eq;
use crate::tokens::{split_tokens, split_ws};
use vstd::prelude::*;
use vstd::string::StringExecFns;

verus! {

/// An error of the remote shell's command check.
#[derive(Debug, PartialEq)]
pub enum CommandError {
    /// The named command is not defined.
    CommandNotDefine(String),
}

impl CommandError {
    /// The text of this error.
    pub open spec fn spec_message(&self) -> Seq<char> {
        match self {
            CommandError::CommandNotDefine(cmd) => "ParseError: The command '"@ + cmd@
                + "' is not defined."@,
        }
    }

    /// Renders the error as text.
    pub fn message(&self) -> (r: String)
        ensures
            r@ == self.spec_message(),
    {
        match self {
            CommandError::CommandNotDefine(cmd) => {
                let mut s = "ParseError: The command '".to_owned();
                s.append(cmd.as_str());
                s.append("' is not defined.");
                s
            },
        }
    }
}

/// Whether an operation takes this many arguments: `put` two, `get` and
/// `delete` one, `exit` none.  An unknown operation is an error.
pub fn check_args(operation: &str, args_len: usize) -> (r: Result<bool, CommandError>)
    ensures
        operation@ == "put"@ ==> (r matches Ok(b) && b == (args_len == 2)),
        operation@ == "get"@ || operation@ == "delete"@ ==> (r matches Ok(b) && b == (args_len
            == 1)),
        operation@ == "exit"@ ==> (r matches Ok(b) && b == (args_len == 0)),
        operation@ != "put"@ && operation@ != "get"@ && operation@ != "delete"@ && operation@
            != "exit"@ ==> (r matches Err(e) && (e matches CommandError::CommandNotDefine(s) && s@
            == operation@)),
{
    proof {
        reveal_strlit("put");
        reveal_strlit("get");
        reveal_strlit("delete");
        reveal_strlit("exit");
        assert("put"@.len() == 3 && "get"@.len() == 3 && "delete"@.len() == 6 && "exit"@.len()
            == 4);
        assert("put"@ != "get"@) by {
            if "put"@ == "get"@ {
                assert("put"@[0] == "get"@[0]);
            }
        }
    }
    if str_eq(operation, "put") {
        Ok(args_len == 2)
    } else if str_eq(operation, "get") || str_eq(operation, "delete") {
        Ok(args_len == 1)
    } else if str_eq(operation, "exit") {
        Ok(args_len == 0)
    } else {
        Err(CommandError::CommandNotDefine(operation.to_owned()))
    }
}

/// Splits a line and checks it: an empty line gives no verdict; an unknown
/// operation is an error; otherwise the operation is returned with whether
/// its argument count is right.
pub fn check_input(input: &str) -> (r: Result<(String, Option<bool>), CommandError>)
    ensures
        ({
            let toks = split_ws(input@);
            if toks.len() == 0 {
                r matches Ok(p) && p.0@ == Seq::<char>::empty() && p.1 is None
            } else if !crate::repl::known_op(toks) {
                r matches Err(e) && (e matches CommandError::CommandNotDefine(s) && s@ == toks[0])
            } else {
                r matches Ok(p) && p.0@ == toks[0] && (p.1 matches Some(b) && b
                    == crate::repl::arity_ok(toks))
            }
        }),
{
    let toks = split_tokens(input);
    let ghost tv = split_ws(input@);
    let n = toks.len();
    if n == 0 {
        return Ok((String::new(), None));
    }
    let mut toks = toks;
    let operation = toks.remove(0);
    proof {
        assert(operation@ == tv[0]);
    }
    let alen: usize = if n == 1 {
        0
    } else if n <= 3 {
        n - 1
    } else {
        usize::MAX
    };
    match check_args(operation.as_str(), alen) {
        Ok(b) => Ok((operation, Some(b))),
        Err(e) => Err(e),
    }
}

} // verus!
