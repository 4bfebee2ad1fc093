use seahorse::flag::{INVALID_FLOAT, INVALID_INT, MISSING_VALUE};
use seahorse::{Flag, FlagType, FlagValue};

fn list(words: &[&str]) -> Vec<String> {
    words.iter().map(|w| w.to_string()).collect()
}

#[test]
fn new_keeps_what_it_is_given() {
    let flag = Flag::new("int", "cli cmd [arg] --int [int]", FlagType::Int);
    assert_eq!("int", flag.name);
    assert_eq!("cli cmd [arg] --int [int]", flag.usage);
    assert_eq!(FlagType::Int, flag.flag_type);
}

#[test]
fn option_index_is_the_first_position_of_the_trigger() {
    let flag = Flag::new("bool", "", FlagType::Bool);
    assert_eq!(Some(0), flag.option_index(&list(&["--bool"])));
    assert_eq!(Some(2), flag.option_index(&list(&["a", "bool", "--bool", "--bool"])));
    assert_eq!(None, flag.option_index(&list(&["a", "bool", "-bool", "--bool=1", "--Bool"])));
    assert_eq!(None, flag.option_index(&list(&[])));
}

#[test]
fn option_index_of_an_empty_name_is_the_double_hyphen() {
    let flag = Flag::new("", "", FlagType::Bool);
    assert_eq!(Some(1), flag.option_index(&list(&["-", "--", "---"])));
}

#[test]
fn option_index_compares_whole_characters() {
    let flag = Flag::new("größe", "", FlagType::Int);
    assert_eq!(Some(1), flag.option_index(&list(&["--grosse", "--größe"])));
}

#[test]
fn value_of_a_bool_flag_is_true() {
    let flag = Flag::new("bool", "", FlagType::Bool);
    assert_eq!(Ok(FlagValue::Bool(true)), flag.value(None));
    assert_eq!(Ok(FlagValue::Bool(true)), flag.value(Some("false".to_string())));
}

#[test]
fn value_of_a_string_flag_is_the_token() {
    let flag = Flag::new("string", "", FlagType::String);
    assert_eq!(Ok(FlagValue::String("test".to_string())), flag.value(Some("test".to_string())));
    assert_eq!(Ok(FlagValue::String(String::new())), flag.value(Some(String::new())));
    assert_eq!(Err(MISSING_VALUE.to_string()), flag.value(None));
}

#[test]
fn value_of_an_int_flag_is_the_number() {
    let flag = Flag::new("int", "", FlagType::Int);
    assert_eq!(Ok(FlagValue::Int(100)), flag.value(Some("100".to_string())));
    assert_eq!(Ok(FlagValue::Int(-100)), flag.value(Some("-100".to_string())));
    assert_eq!(Err(INVALID_INT.to_string()), flag.value(Some("1.5".to_string())));
    assert_eq!(Err(INVALID_INT.to_string()), flag.value(Some(String::new())));
    assert_eq!(Err(MISSING_VALUE.to_string()), flag.value(None));
}

#[test]
fn value_of_a_float_flag_is_the_literal() {
    let flag = Flag::new("float", "", FlagType::Float);
    assert_eq!(Ok(FlagValue::Float("1.23".to_string())), flag.value(Some("1.23".to_string())));
    assert_eq!(Ok(FlagValue::Float("-INF".to_string())), flag.value(Some("-INF".to_string())));
    assert_eq!(Err(INVALID_FLOAT.to_string()), flag.value(Some("1,23".to_string())));
    assert_eq!(Err(INVALID_FLOAT.to_string()), flag.value(Some(String::new())));
    assert_eq!(Err(MISSING_VALUE.to_string()), flag.value(None));
}

#[test]
fn error_texts() {
    assert_eq!("flag value is missing", MISSING_VALUE);
    assert_eq!("flag value is not an integer", INVALID_INT);
    assert_eq!("flag value is not a number", INVALID_FLOAT);
}
