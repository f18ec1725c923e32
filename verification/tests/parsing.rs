//! Tests of the command parsers.
use kvs::error::ParseError;
use kvs::repl;
use kvs::shell;
use kvs::shell::CommandError;

#[test]
fn test_check_input() {
    // empty input
    let input1: String = String::new();
    let (opr, check_res) = shell::check_input(&input1).unwrap();
    assert_eq!(opr, String::from(""));
    assert_eq!(check_res, None);

    // a bare command
    let input2: String = String::from("exit");
    let (opr, check_res) = shell::check_input(&input2).unwrap();
    assert_eq!(opr, String::from("exit"));
    assert_eq!(check_res, Some(true));

    // a command with one argument
    let input3 = String::from("get k1");
    let (opr, check_res) = shell::check_input(&input3).unwrap();
    assert_eq!(opr, String::from("get"));
    assert_eq!(check_res, Some(true));

    // a command with two arguments
    let input4: String = String::from("put k1 value1");
    let (opr, check_res) = shell::check_input(&input4).unwrap();
    assert_eq!(opr, String::from("put"));
    assert_eq!(check_res, Some(true));

    // a command with three arguments (wrong arity)
    let input5: String = String::from("put k1 value1 error");
    let (opr, check_res) = shell::check_input(&input5).unwrap();
    assert_eq!(opr, String::from("put"));
    assert_eq!(check_res, Some(false));
}

#[test]
fn kvsh_test_check_args() {
    // put
    assert_eq!(shell::check_args("put", 1), Ok(false));
    assert_eq!(shell::check_args("put", 2), Ok(true));
    assert_eq!(shell::check_args("put", 3), Ok(false));

    // get, delete
    assert_eq!(shell::check_args("get", 1), Ok(true));
    assert_eq!(shell::check_args("get", 2), Ok(false));
    assert_eq!(shell::check_args("delete", 1), Ok(true));
    assert_eq!(shell::check_args("delete", 2), Ok(false));

    // exit
    assert_eq!(shell::check_args("exit", 0), Ok(true));
    assert_eq!(shell::check_args("exit", 1), Ok(false));

    // an unknown command
    assert_eq!(
        shell::check_args("error", 0),
        Err(CommandError::CommandNotDefine("error".to_string()))
    )
}

#[test]
fn test_parse_input() {
    let empty_vec: Vec<String> = Vec::new();

    // empty input
    let input1 = String::new();
    let (cmd1, args1) = repl::parse_input(input1).unwrap();
    assert_eq!(cmd1, None);
    assert_eq!(args1, empty_vec);

    // a bare command
    let input2 = String::from("exit");
    let (cmd2, args2) = repl::parse_input(input2).unwrap();
    assert_eq!(cmd2, Some("exit".to_string()));
    assert_eq!(args2, empty_vec);

    // a command with one argument
    let input3 = String::from("get k1");
    let (cmd3, args3) = repl::parse_input(input3).unwrap();
    assert_eq!(cmd3, Some("get".to_string()));
    assert_eq!(args3, vec!["k1".to_string()]);

    // a command with two arguments
    let input4 = String::from("put k1 value1");
    let (cmd4, args4) = repl::parse_input(input4).unwrap();
    assert_eq!(cmd4, Some("put".to_string()));
    assert_eq!(args4, vec!["k1".to_string(), "value1".to_string()]);

    // a command with three arguments (wrong arity)
    let input5 = String::from("put k1 value1 error");
    let err = repl::parse_input(input5).unwrap_err();
    assert_eq!(err, ParseError::InvalidArguments);
}

#[test]
fn main_test_check_args() {
    // put
    assert_eq!(repl::check_args("put", 1), Ok(false));
    assert_eq!(repl::check_args("put", 2), Ok(true));
    assert_eq!(repl::check_args("put", 3), Ok(false));

    // get, delete
    assert_eq!(repl::check_args("get", 1), Ok(true));
    assert_eq!(repl::check_args("get", 2), Ok(false));
    assert_eq!(repl::check_args("delete", 1), Ok(true));
    assert_eq!(repl::check_args("delete", 2), Ok(false));

    // exit
    assert_eq!(repl::check_args("exit", 0), Ok(true));
    assert_eq!(repl::check_args("exit", 1), Ok(false));

    // an unknown command
    assert_eq!(
        repl::check_args("error", 0),
        Err(ParseError::CommandNotDefine("error".to_string()))
    )
}

#[test]
fn tokens_split_whitespace() {
    let toks = kvs::tokens::split_tokens("  put \t k1\n v1  ");
    assert_eq!(toks, vec!["put".to_string(), "k1".to_string(), "v1".to_string()]);
    let none: Vec<String> = Vec::new();
    assert_eq!(kvs::tokens::split_tokens("   "), none);
    assert_eq!(kvs::tokens::split_tokens(""), none);
    assert_eq!(kvs::tokens::split_tokens("one"), vec!["one".to_string()]);
}
