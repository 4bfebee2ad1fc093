use seahorse::context::NOT_FOUND;
use seahorse::flag::{INVALID_FLOAT, INVALID_INT, MISSING_VALUE};
use seahorse::{Context, Flag, FlagType, FlagValue};

fn tokens(words: &[&str]) -> Vec<String> {
    words.iter().map(|w| w.to_string()).collect()
}

fn all_four() -> Vec<Flag> {
    vec![
        Flag::new("bool", "", FlagType::Bool),
        Flag::new("string", "", FlagType::String),
        Flag::new("int", "", FlagType::Int),
        Flag::new("float", "", FlagType::Float),
    ]
}

#[test]
fn context_test() {
    let args = vec![
        "cli".to_string(),
        "command".to_string(),
        "args".to_string(),
        "--bool".to_string(),
        "--string".to_string(),
        "test".to_string(),
        "--int".to_string(),
        "100".to_string(),
        "--float".to_string(),
        "1.23".to_string(),
    ];
    let flags = vec![
        Flag::new("bool", "", FlagType::Bool),
        Flag::new("string", "", FlagType::String),
        Flag::new("int", "", FlagType::Int),
        Flag::new("float", "", FlagType::Float),
    ];
    let context = Context::new(args, Some(flags));

    assert_eq!(true, context.bool_flag("bool"));

    match context.string_flag("string") {
        Some(Ok(val)) => assert_eq!("test".to_string(), val),
        _ => assert!(false),
    }

    match context.int_flag("int") {
        Ok(val) => assert_eq!(100, val),
        _ => assert!(false),
    }

    match context.float_flag("float") {
        Ok(val) => assert_eq!(1.23, val.parse::<f64>().unwrap()),
        _ => assert!(false),
    }
}

#[test]
fn end_to_end_leaves_the_positional_arguments() {
    let args = tokens(&[
        "cli", "command", "args", "--bool", "--string", "test", "--int", "100", "--float", "1.23",
    ]);
    let context = Context::new(args, Some(all_four()));
    assert_eq!(tokens(&["cli", "command", "args"]), context.args);
    assert_eq!(&tokens(&["cli", "command", "args"]), context.args());
    assert_eq!(Ok("1.23".to_string()), context.float_flag("float"));
    assert_eq!(Some(Ok("test".to_string())), context.string_flag("string"));
    assert_eq!(Ok(100), context.int_flag("int"));
}

#[test]
fn flags_between_positional_arguments_are_taken_out() {
    let args = tokens(&["--int", "7", "cli", "--bool", "command", "--string", "s", "args"]);
    let context = Context::new(args, Some(all_four()));
    assert_eq!(tokens(&["cli", "command", "args"]), context.args);
    assert!(context.bool_flag("bool"));
    assert_eq!(Ok(7), context.int_flag("int"));
    assert_eq!(Some(Ok("s".to_string())), context.string_flag("string"));
    assert_eq!(Err(NOT_FOUND.to_string()), context.float_flag("float"));
}

#[test]
fn the_order_of_declaration_does_not_matter_on_a_plain_command_line() {
    let args = tokens(&["a", "--float", "2.5e3", "b", "--int", "-12", "--bool", "c"]);
    let mut reversed = all_four();
    reversed.reverse();
    let one = Context::new(args.clone(), Some(all_four()));
    let other = Context::new(args, Some(reversed));
    assert_eq!(tokens(&["a", "b", "c"]), one.args);
    assert_eq!(one.args, other.args);
    for name in ["bool", "string", "int", "float"] {
        assert_eq!(one.bool_flag(name), other.bool_flag(name));
        assert_eq!(one.string_flag(name), other.string_flag(name));
        assert_eq!(one.int_flag(name), other.int_flag(name));
        assert_eq!(one.float_flag(name), other.float_flag(name));
    }
    assert_eq!(Ok(-12), one.int_flag("int"));
    assert_eq!(Ok("2.5e3".to_string()), one.float_flag("float"));
}

#[test]
fn a_second_trigger_stays_among_the_arguments() {
    let args = tokens(&["--bool", "x", "--bool"]);
    let context = Context::new(args, Some(vec![Flag::new("bool", "", FlagType::Bool)]));
    assert_eq!(tokens(&["x", "--bool"]), context.args);
    assert!(context.bool_flag("bool"));
}

#[test]
fn bool_flag_is_set_by_its_trigger_only() {
    let flags = || Some(vec![Flag::new("bool", "", FlagType::Bool)]);
    assert!(Context::new(tokens(&["--bool"]), flags()).bool_flag("bool"));
    assert!(Context::new(tokens(&["a", "b", "--bool"]), flags()).bool_flag("bool"));
    assert!(Context::new(tokens(&["--bool", "a", "b"]), flags()).bool_flag("bool"));
    assert!(!Context::new(tokens(&["a", "b"]), flags()).bool_flag("bool"));
    assert!(!Context::new(tokens(&["bool", "-bool", "---bool", "--boo", "--bool "]), flags())
        .bool_flag("bool"));
    assert!(!Context::new(tokens(&[]), flags()).bool_flag("bool"));
}

#[test]
fn a_bool_flag_takes_no_value() {
    let context = Context::new(
        tokens(&["--bool", "false"]),
        Some(vec![Flag::new("bool", "", FlagType::Bool)]),
    );
    assert!(context.bool_flag("bool"));
    assert_eq!(tokens(&["false"]), context.args);
    assert_eq!(Some(&Ok(FlagValue::Bool(true))), context.result_flag_value("bool"));
}

#[test]
fn typed_flags_give_their_values_back() {
    let args = tokens(&["--string", "", "--int", "-9223372036854775808", "--float", "-.5E-3"]);
    let context = Context::new(args, Some(all_four()));
    assert!(context.args.is_empty());
    assert_eq!(Some(Ok(String::new())), context.string_flag("string"));
    if isize::BITS == 64 {
        assert_eq!(Ok(isize::MIN), context.int_flag("int"));
    } else {
        assert_eq!(Err(INVALID_INT.to_string()), context.int_flag("int"));
    }
    assert_eq!(Ok("-.5E-3".to_string()), context.float_flag("float"));
    assert_eq!(
        Some(&Ok(FlagValue::Float("-.5E-3".to_string()))),
        context.result_flag_value("float")
    );
}

#[test]
fn a_value_that_is_no_number_is_an_error() {
    let args = tokens(&["--int", "ten", "--float", "1.2.3", "rest"]);
    let context = Context::new(args, Some(all_four()));
    assert_eq!(tokens(&["rest"]), context.args);
    assert_eq!(Err("flag value is not an integer".to_string()), context.int_flag("int"));
    assert_eq!(Err("flag value is not a number".to_string()), context.float_flag("float"));
    assert_eq!(INVALID_INT, "flag value is not an integer");
    assert_eq!(INVALID_FLOAT, "flag value is not a number");
    assert_eq!(Some(Err(INVALID_INT.to_string())), context.string_flag("int"));
    assert_eq!(Err(INVALID_FLOAT.to_string()), context.int_flag("float"));
    assert_eq!(Err(INVALID_INT.to_string()), context.float_flag("int"));
    assert!(!context.bool_flag("int"));
    assert_eq!(
        Some(&Err(INVALID_INT.to_string())),
        context.result_flag_value("int")
    );
}

#[test]
fn trigger_in_last_place_has_no_value() {
    let args = tokens(&["cli", "command", "args", "--bool", "--string"]);
    let flags = vec![
        Flag::new("bool", "", FlagType::Bool),
        Flag::new("string", "", FlagType::String),
    ];
    let context = Context::new(args, Some(flags));
    assert_eq!(tokens(&["cli", "command", "args"]), context.args);
    assert!(context.bool_flag("bool"));
    assert_eq!(Some(Err("flag value is missing".to_string())), context.string_flag("string"));
    assert_eq!(Err(MISSING_VALUE.to_string()), context.int_flag("string"));
    assert_eq!(Err(MISSING_VALUE.to_string()), context.float_flag("string"));
    assert!(!context.bool_flag("string"));
}

#[test]
fn a_lone_trigger_has_no_value() {
    for flag_type in [FlagType::String, FlagType::Int, FlagType::Float] {
        let context = Context::new(tokens(&["--x"]), Some(vec![Flag::new("x", "", flag_type)]));
        assert!(context.args.is_empty());
        assert_eq!(Some(&Err(MISSING_VALUE.to_string())), context.result_flag_value("x"));
        assert_eq!(Some(Err(MISSING_VALUE.to_string())), context.string_flag("x"));
        assert_eq!(Err(MISSING_VALUE.to_string()), context.int_flag("x"));
        assert_eq!(Err(MISSING_VALUE.to_string()), context.float_flag("x"));
    }
}

#[test]
fn unknown_names_miss() {
    let context = Context::new(
        tokens(&["cli", "--bool", "--other"]),
        Some(vec![Flag::new("bool", "", FlagType::Bool)]),
    );
    assert_eq!(false, context.bool_flag("other"));
    assert_eq!(Some(Err(String::new())), context.string_flag("other"));
    assert_eq!(Err(NOT_FOUND.to_string()), context.int_flag("other"));
    assert_eq!(Err("hoge".to_string()), context.float_flag("other"));
    assert_eq!(None, context.result_flag_value("other"));
    assert_eq!(tokens(&["cli", "--other"]), context.args);
}

#[test]
fn without_declarations_nothing_is_taken_out() {
    let context = Context::new(tokens(&["cli", "--bool", "--int", "1"]), None);
    assert_eq!(tokens(&["cli", "--bool", "--int", "1"]), context.args);
    assert_eq!(false, context.bool_flag("bool"));
    assert_eq!(Some(Err(String::new())), context.string_flag("bool"));
    assert_eq!(Err("hoge".to_string()), context.int_flag("int"));
    assert_eq!(Err("hoge".to_string()), context.float_flag("int"));
    assert_eq!(None, context.result_flag_value("int"));
}

#[test]
fn an_empty_list_of_declarations_finds_nothing() {
    let context = Context::new(tokens(&["cli", "--bool"]), Some(Vec::new()));
    assert_eq!(tokens(&["cli", "--bool"]), context.args);
    assert_eq!(false, context.bool_flag("bool"));
    assert_eq!(None, context.result_flag_value("bool"));
}

#[test]
fn a_declared_flag_that_is_omitted_misses() {
    let context = Context::new(tokens(&["cli", "--bool"]), Some(all_four()));
    assert_eq!(Some(Err(String::new())), context.string_flag("string"));
    assert_eq!(Err(NOT_FOUND.to_string()), context.int_flag("int"));
    assert_eq!(Err(NOT_FOUND.to_string()), context.float_flag("float"));
    assert_eq!(None, context.result_flag_value("int"));
}

#[test]
fn a_value_of_another_type_misses() {
    let args = tokens(&["--bool", "--string", "5", "--int", "5", "--float", "5"]);
    let context = Context::new(args, Some(all_four()));
    assert_eq!(Some(Err(String::new())), context.string_flag("int"));
    assert_eq!(Some(Err(String::new())), context.string_flag("bool"));
    assert_eq!(Some(Err(String::new())), context.string_flag("float"));
    assert_eq!(Err(NOT_FOUND.to_string()), context.int_flag("string"));
    assert_eq!(Err(NOT_FOUND.to_string()), context.int_flag("float"));
    assert_eq!(Err(NOT_FOUND.to_string()), context.int_flag("bool"));
    assert_eq!(Err(NOT_FOUND.to_string()), context.float_flag("int"));
    assert_eq!(Err(NOT_FOUND.to_string()), context.float_flag("string"));
    assert!(!context.bool_flag("string"));
    assert!(!context.bool_flag("int"));
    assert!(!context.bool_flag("float"));
}

#[test]
fn a_trigger_after_a_typed_flag_is_its_value() {
    let args = tokens(&["--string", "--bool", "x"]);
    let flags = vec![
        Flag::new("string", "", FlagType::String),
        Flag::new("bool", "", FlagType::Bool),
    ];
    let context = Context::new(args, Some(flags));
    assert_eq!(Some(Ok("--bool".to_string())), context.string_flag("string"));
    assert!(!context.bool_flag("bool"));
    assert_eq!(tokens(&["x"]), context.args);
}

#[test]
fn flags_are_resolved_in_the_order_of_declaration() {
    let args = tokens(&["--string", "--bool", "x"]);
    let flags = vec![
        Flag::new("bool", "", FlagType::Bool),
        Flag::new("string", "", FlagType::String),
    ];
    let context = Context::new(args, Some(flags));
    assert!(context.bool_flag("bool"));
    assert_eq!(Some(Ok("x".to_string())), context.string_flag("string"));
    assert!(context.args.is_empty());
}

#[test]
fn the_last_declaration_of_a_name_wins() {
    let args = tokens(&["--x", "1", "--x", "two", "rest"]);
    let flags = vec![Flag::new("x", "", FlagType::Int), Flag::new("x", "", FlagType::String)];
    let context = Context::new(args, Some(flags));
    assert_eq!(Some(Ok("two".to_string())), context.string_flag("x"));
    assert_eq!(Err(NOT_FOUND.to_string()), context.int_flag("x"));
    assert_eq!(tokens(&["rest"]), context.args);
}

#[test]
fn an_earlier_declaration_stays_where_the_later_finds_nothing() {
    let args = tokens(&["--x", "1", "rest"]);
    let flags = vec![Flag::new("x", "", FlagType::Int), Flag::new("x", "", FlagType::String)];
    let context = Context::new(args, Some(flags));
    assert_eq!(Ok(1), context.int_flag("x"));
    assert_eq!(Some(Err(String::new())), context.string_flag("x"));
    assert_eq!(tokens(&["rest"]), context.args);
}
