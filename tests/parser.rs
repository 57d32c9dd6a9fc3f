use yafp::errors::Error;
use yafp::order::name_less;
use yafp::{Outcome, Parser};

fn args(items: &[&str]) -> Vec<String> {
    items.iter().map(|x| x.to_string()).collect()
}

fn remaining_of(outcome: Outcome) -> Vec<String> {
    match outcome {
        Outcome::Remaining(v) => v,
        Outcome::Exit(m) => panic!("unexpected exit: {:?}", m),
    }
}

#[test]
fn simple() {
    let cmd_args = args(&["head", "-verbose", "-num", "1", "-opt", "val", "file.txt"]);

    let mut parser = Parser::from_vec(cmd_args);
    parser.bool_flag("verbose", "this is used to get verbose output");
    parser.required_flag("num", "this is used to set a numeric value");
    parser.required_flag("opt", "this is an optional flag (optional)");

    let mut remaining = remaining_of(parser.finalize().unwrap());
    assert_eq!(remaining.is_empty(), false);
    assert_eq!(remaining.len(), 1);
    assert_eq!(remaining.remove(0), "file.txt");

    let verbose: Option<bool> = parser.get_value("verbose");
    assert_eq!(Some(true), verbose);

    let num: Option<i32> = parser.get_value("num");
    assert_eq!(Some(1), num);

    let opt: Option<String> = parser.get_value("opt");
    assert_eq!(Some(String::from("val")), opt);

    let help = parser.help();
    assert_eq!(
        help,
        [
            "Usage: head [options...]\n",
            "  -num value\n\tthis is used to set a numeric value\n",
            "  -opt value\n\tthis is an optional flag (optional)\n",
            "  -verbose\n\tthis is used to get verbose output\n",
        ]
        .concat(),
    )
}

#[test]
fn optional_not_given() {
    let cmd_args = args(&["head"]);

    let mut parser = Parser::from_vec(cmd_args);
    parser.optional_flag("num", "this is used to set a numeric value (optional)");

    // With no tokens after the command name, parsing asks to stop with the help text.
    let outcome = parser.finalize().unwrap();
    assert_eq!(
        outcome,
        Outcome::Exit(Some(String::from(
            "Usage: head [options...]\n  -num value\n\tthis is used to set a numeric value (optional)\n"
        )))
    );

    let num: Option<i32> = parser.get_value("num");
    assert_eq!(None, num);
}

#[test]
fn required_not_given() {
    let cmd_args = args(&["head", "file.txt"]);

    let mut parser = Parser::from_vec(cmd_args);
    parser.required_flag("num", "this is used to set a numeric value");

    let result = parser.finalize();
    assert_eq!(result.is_err(), true);
    assert_eq!(result, Err(Error::MissingArgument(String::from("num"))));

    let num: Option<i32> = parser.get_value("num");
    assert_eq!(None, num);
}

#[test]
fn optional_flag_absent_still_parses() {
    let mut parser = Parser::from_vec(args(&["head", "file.txt"]));
    parser.optional_flag("num", "a number");
    let remaining = remaining_of(parser.finalize().unwrap());
    assert_eq!(remaining, vec![String::from("file.txt")]);
    assert_eq!(parser.get_value::<i32>("num"), None);
    assert_eq!(parser.value_text("num"), None);
}

#[test]
fn value_flag_as_last_token() {
    let mut parser = Parser::from_vec(args(&["head", "file.txt", "-num"]));
    parser.required_flag("num", "a number");
    let result = parser.finalize();
    assert_eq!(result, Err(Error::MissingValue(String::from("num"))));
}

#[test]
fn optional_value_flag_as_last_token() {
    let mut parser = Parser::from_vec(args(&["head", "-name"]));
    parser.optional_flag("name", "a name");
    assert_eq!(
        parser.finalize(),
        Err(Error::MissingValue(String::from("name")))
    );
}

#[test]
fn missing_value_keeps_earlier_values() {
    let mut parser = Parser::from_vec(args(&["head", "-verbose", "-num"]));
    parser.bool_flag("verbose", "verbose output");
    parser.required_flag("num", "a number");
    assert!(parser.finalize().is_err());
    assert_eq!(parser.get_value::<bool>("verbose"), Some(true));
}

#[test]
fn first_missing_required_is_reported() {
    let mut parser = Parser::from_vec(args(&["head", "-b", "2"]));
    parser.required_flag("a", "first");
    parser.required_flag("b", "second");
    parser.required_flag("c", "third");
    assert_eq!(
        parser.finalize(),
        Err(Error::MissingArgument(String::from("a")))
    );
    assert_eq!(parser.get_value::<i64>("b"), Some(2));
}

#[test]
fn redeclaring_replaces_kind_and_usage() {
    let mut parser = Parser::from_vec(args(&["head", "-x", "v"]));
    parser.bool_flag("x", "first");
    parser.optional_flag("x", "second");
    assert_eq!(parser.get_value::<bool>("x"), None);
    assert_eq!(parser.help_flags(), "  -x value\n\tsecond\n");
    let remaining = remaining_of(parser.finalize().unwrap());
    assert!(remaining.is_empty());
    assert_eq!(parser.value_text("x"), Some(String::from("v")));
}

#[test]
fn redeclaring_as_boolean_sets_false() {
    let mut parser = Parser::from_vec(args(&["head", "a"]));
    parser.optional_flag("x", "first");
    parser.bool_flag("x", "second");
    assert_eq!(parser.get_value::<bool>("x"), Some(false));
    assert_eq!(parser.help_flags(), "  -x\n\tsecond\n");
}

#[test]
fn help_lists_flags_by_name() {
    let mut parser = Parser::from_vec(args(&["head", "a"]));
    parser.bool_flag("verbose", "v");
    parser.optional_flag("opt", "o");
    parser.required_flag("num", "n");
    assert_eq!(
        parser.help_flags(),
        "  -num value\n\tn\n  -opt value\n\to\n  -verbose\n\tv\n"
    );
}

#[test]
fn help_order_is_by_character_code() {
    let mut parser = Parser::from_vec(args(&["head", "a"]));
    parser.bool_flag("b", "4");
    parser.bool_flag("ab", "3");
    parser.bool_flag("a", "2");
    parser.bool_flag("B", "1");
    assert_eq!(
        parser.help_flags(),
        "  -B\n\t1\n  -a\n\t2\n  -ab\n\t3\n  -b\n\t4\n"
    );
}

#[test]
fn help_flags_with_no_flags() {
    let parser = Parser::from_vec(args(&["tool"]));
    assert_eq!(parser.help_flags(), "\n");
    assert_eq!(parser.help(), "Usage: tool [options...]\n\n");
}

#[test]
fn bool_flag_unset_is_false() {
    let mut parser = Parser::from_vec(args(&["head", "file.txt"]));
    parser.bool_flag("verbose", "this is used to get verbose output");
    let remaining = remaining_of(parser.finalize().unwrap());
    assert_eq!(remaining, vec![String::from("file.txt")]);
    assert_eq!(parser.get_value::<bool>("verbose"), Some(false));
}

#[test]
fn required_flag_set() {
    let mut parser = Parser::from_vec(args(&["head", "-file", "file.txt"]));
    parser.required_flag("file", "this is used to set the path for a file");
    let remaining = remaining_of(parser.finalize().unwrap());
    assert!(remaining.is_empty());
    let file: Option<String> = parser.get_value("file");
    assert_eq!(Some(String::from("file.txt")), file);
}

#[test]
fn unparsable_value_reads_as_none() {
    let mut parser = Parser::from_vec(args(&["head", "-num", "abc"]));
    parser.required_flag("num", "a number");
    assert!(parser.finalize().is_ok());
    assert_eq!(parser.get_value::<i32>("num"), None);
    assert_eq!(parser.get_value::<String>("num"), Some(String::from("abc")));
}

#[test]
fn undeclared_flag_reads_as_none() {
    let parser = Parser::from_vec(args(&["head", "a"]));
    assert_eq!(parser.get_value::<String>("nothing"), None);
    assert_eq!(parser.value_text("nothing"), None);
}

#[test]
fn unknown_flag_asks_to_exit_silently() {
    let mut parser = Parser::from_vec(args(&["head", "a", "-x", "b"]));
    parser.bool_flag("verbose", "v");
    assert_eq!(parser.finalize(), Ok(Outcome::Exit(None)));
}

#[test]
fn help_flag_asks_to_exit_with_help() {
    let mut parser = Parser::from_vec(args(&["head", "-help"]));
    parser.bool_flag("verbose", "this is used to get verbose output");
    assert_eq!(
        parser.finalize(),
        Ok(Outcome::Exit(Some(String::from(
            "Usage: head [options...]\n  -verbose\n\tthis is used to get verbose output\n"
        ))))
    );
}

#[test]
fn declared_help_flag_is_an_ordinary_flag() {
    let mut parser = Parser::from_vec(args(&["head", "-help"]));
    parser.bool_flag("help", "show help");
    let remaining = remaining_of(parser.finalize().unwrap());
    assert!(remaining.is_empty());
    assert_eq!(parser.get_value::<bool>("help"), Some(true));
}

#[test]
fn custom_help_replaces_default() {
    let mut parser = Parser::from_vec(args(&["head", "-verbose", "file.txt"]));
    parser.bool_flag("verbose", "this is used to get verbose output");

    let command = parser.command.to_string();
    let help_flags = parser.help_flags();
    parser.set_help_fn(move || {
        let help_string = format!("Usage: {} [options...] <file>", command);
        format!("{}\n{}", help_string, help_flags)
    });

    assert!(parser.finalize().is_ok());
    assert_eq!(
        parser.help(),
        "Usage: head [options...] <file>\n  -verbose\n\tthis is used to get verbose output\n"
    );
}

#[test]
fn default_help_names_command() {
    let mut parser = Parser::from_vec(args(&["head", "-verbose", "file.txt"]));
    parser.bool_flag("verbose", "this is used to get verbose output");
    assert!(parser.finalize().is_ok());
    assert_eq!(
        parser.help(),
        "Usage: head [options...]\n  -verbose\n\tthis is used to get verbose output\n"
    );
}

#[test]
fn positional_tokens_keep_their_order() {
    let mut parser = Parser::from_vec(args(&["cp", "a", "-n", "3", "b", "c"]));
    parser.optional_flag("n", "count");
    let remaining = remaining_of(parser.finalize().unwrap());
    assert_eq!(remaining, args(&["a", "b", "c"]));
    assert_eq!(parser.get_value::<u8>("n"), Some(3));
}

#[test]
fn value_may_start_with_dash() {
    let mut parser = Parser::from_vec(args(&["calc", "-n", "-5"]));
    parser.required_flag("n", "a number");
    assert!(parser.finalize().is_ok());
    assert_eq!(parser.get_value::<i32>("n"), Some(-5));
}

#[test]
fn finalize_twice_parses_again() {
    let mut parser = Parser::from_vec(args(&["head", "-n", "1", "x"]));
    parser.required_flag("n", "a number");
    let first = parser.finalize();
    let second = parser.finalize();
    assert_eq!(first, second);
    assert_eq!(first, Ok(Outcome::Remaining(args(&["x"]))));
}

#[test]
fn command_is_first_argument() {
    let parser = Parser::from_vec(args(&["my-tool", "a"]));
    assert_eq!(parser.command, "my-tool");
}

#[test]
fn error_messages() {
    assert_eq!(
        Error::MissingArgument(String::from("num")).message(),
        "argument 'num' is required"
    );
    assert_eq!(
        Error::MissingValue(String::from("num")).message(),
        "argument 'num' requires a value"
    );
}

#[test]
fn name_order_compares_characters() {
    assert!(name_less("a", "ab"));
    assert!(!name_less("ab", "a"));
    assert!(name_less("B", "a"));
    assert!(name_less("", "a"));
    assert!(!name_less("same", "same"));
    assert!(name_less("num", "opt"));
}
