use dmi_metadata::error::{DmiError, Expected, ParseError};
use dmi_metadata::parser::key_value::{key, key_value, Dirs, Key, KeyValue};
use dmi_metadata::parser::number::Number;
use dmi_metadata::parser::values::Value;

fn num(x: f32) -> Number {
    Number::parse(&format!("{}", x)).unwrap()
}

fn nums(xs: &[f32]) -> Vec<Number> {
    xs.iter().map(|x| num(*x)).collect()
}

#[test]
fn version() {
    assert_eq!(
        key_value(r#"version = 4.0"#),
        Ok(("", (KeyValue::Version(num(4.0)))))
    );
}

#[test]
fn width() {
    assert_eq!(key_value(r#"width = 32"#), Ok(("", (KeyValue::Width(32)))));
}

#[test]
fn height() {
    assert_eq!(
        key_value(r#"height = 32"#),
        Ok(("", (KeyValue::Height(32))))
    );
}

#[test]
fn state() {
    assert_eq!(
        key_value(r#"state = "meow""#),
        Ok(("", KeyValue::State("meow".to_string())))
    );
}

#[test]
fn dirs() {
    assert_eq!(
        key_value(r#"dirs = 4"#),
        Ok(("", (KeyValue::Dirs(Dirs::Four))))
    );
}

#[test]
fn frames() {
    assert_eq!(key_value(r#"frames = 2"#), Ok(("", KeyValue::Frames(2))));
}

#[test]
fn key_value_delay() {
    assert_eq!(
        key_value(r#"delay = 1,2,3"#),
        Ok(("", KeyValue::Delay(nums(&[1.0, 2.0, 3.0]))))
    );
}

#[test]
fn loop_flag() {
    assert_eq!(key_value(r#"loop = 1"#), Ok(("", KeyValue::Loop(1))));
}

#[test]
fn rewind() {
    assert_eq!(key_value(r#"rewind = 1"#), Ok(("", KeyValue::Rewind(1))));
}

#[test]
fn movement() {
    assert_eq!(
        key_value(r#"movement = 1"#),
        Ok(("", KeyValue::Movement(1)))
    );
}

#[test]
fn hotspot() {
    assert_eq!(
        key_value(r#"hotspot = 13,12,1"#),
        Ok(("", KeyValue::Hotspot(nums(&[13.0, 12.0, 1.0]))))
    );
}

#[test]
fn test_evil_delay() {
    let evil_delay = r#"delay = 1,2,5.4,3"#;
    assert_eq!(
        key_value(evil_delay),
        Ok(("", (KeyValue::Delay(nums(&[1.0, 2.0, 5.4, 3.0])))))
    );
}

#[test]
fn every_integer_key_takes_its_number() {
    for n in [0u32, 1, 7, 10, 32, 99, 100, 4096, 4294967295] {
        assert_eq!(key_value(&format!("width = {}", n)), Ok(("", KeyValue::Width(n))));
        assert_eq!(key_value(&format!("height = {}", n)), Ok(("", KeyValue::Height(n))));
        assert_eq!(key_value(&format!("frames = {}", n)), Ok(("", KeyValue::Frames(n))));
        assert_eq!(key_value(&format!("loop = {}", n)), Ok(("", KeyValue::Loop(n))));
        assert_eq!(key_value(&format!("rewind = {}", n)), Ok(("", KeyValue::Rewind(n))));
        assert_eq!(key_value(&format!("movement = {}", n)), Ok(("", KeyValue::Movement(n))));
    }
}

#[test]
fn dirs_takes_one_four_and_eight_only() {
    assert_eq!(key_value("dirs = 1"), Ok(("", KeyValue::Dirs(Dirs::One))));
    assert_eq!(key_value("dirs = 4"), Ok(("", KeyValue::Dirs(Dirs::Four))));
    assert_eq!(key_value("dirs = 8"), Ok(("", KeyValue::Dirs(Dirs::Eight))));
    assert_eq!(
        key_value("dirs = 2"),
        Err(ParseError { rest: "dirs = 2", error: DmiError::InvalidDirs(2) })
    );
    assert_eq!(
        key_value("dirs = 0"),
        Err(ParseError { rest: "dirs = 0", error: DmiError::InvalidDirs(0) })
    );
}

#[test]
fn dirs_converts_to_and_from_numbers() {
    assert_eq!(Dirs::try_from(1), Ok(Dirs::One));
    assert_eq!(Dirs::try_from(4), Ok(Dirs::Four));
    assert_eq!(Dirs::try_from(8), Ok(Dirs::Eight));
    assert_eq!(Dirs::try_from(3), Err(DmiError::InvalidDirs(3)));
    assert_eq!(u32::from(Dirs::One), 1);
    assert_eq!(u32::from(Dirs::Four), 4);
    assert_eq!(u32::from(Dirs::Eight), 8);
    assert_eq!(u8::from(Dirs::One), 1);
    assert_eq!(u8::from(Dirs::Four), 4);
    assert_eq!(u8::from(Dirs::Eight), 8);
}

#[test]
fn unknown_key_keeps_name_and_value() {
    assert_eq!(
        key_value(r#"future = "lmao""#),
        Ok(("", KeyValue::Unk("future".to_string(), Value::String("lmao".to_string()))))
    );
    assert_eq!(
        key_value("future = 7"),
        Ok(("", KeyValue::Unk("future".to_string(), Value::Int(7))))
    );
    assert_eq!(
        key_value("future = 1,2"),
        Ok(("", KeyValue::Unk("future".to_string(), Value::List(nums(&[1.0, 2.0])))))
    );
}

#[test]
fn key_names_are_case_sensitive() {
    assert_eq!(key("width"), Ok(("", Key::Width)));
    assert_eq!(key("Width"), Ok(("", Key::Unk("Width".to_string()))));
    assert_eq!(key("dirs = 1"), Ok((" = 1", Key::Dirs)));
    assert_eq!(
        key("1abc"),
        Err(ParseError { rest: "1abc", error: DmiError::Syntax(Expected::Key) })
    );
    assert_eq!(key(""), Err(ParseError { rest: "", error: DmiError::Syntax(Expected::Key) }));
}

#[test]
fn separator_is_one_space_on_either_side() {
    assert_eq!(
        key_value("width=32"),
        Err(ParseError { rest: "=32", error: DmiError::Syntax(Expected::Separator) })
    );
    assert_eq!(
        key_value("width  = 32"),
        Err(ParseError { rest: "  = 32", error: DmiError::Syntax(Expected::Separator) })
    );
    assert_eq!(
        key_value("width =\t32"),
        Err(ParseError { rest: " =\t32", error: DmiError::Syntax(Expected::Separator) })
    );
    assert_eq!(
        key_value("width = "),
        Err(ParseError { rest: "", error: DmiError::Syntax(Expected::Value) })
    );
}

#[test]
fn wrong_shape_names_key_and_value() {
    assert_eq!(
        key_value(r#"state = 3"#),
        Err(ParseError { rest: "state = 3", error: DmiError::InvalidPair(Key::State, Value::Int(3)) })
    );
    assert_eq!(
        key_value("version = 4"),
        Err(ParseError { rest: "version = 4", error: DmiError::InvalidPair(Key::Version, Value::Int(4)) })
    );
    assert_eq!(
        key_value("width = 4.5"),
        Err(ParseError {
            rest: "width = 4.5",
            error: DmiError::InvalidPair(Key::Width, Value::Float(num(4.5)))
        })
    );
    assert_eq!(
        key_value("delay = 1"),
        Err(ParseError { rest: "delay = 1", error: DmiError::InvalidPair(Key::Delay, Value::Int(1)) })
    );
    assert_eq!(
        key_value("width = 4294967296"),
        Err(ParseError {
            rest: "width = 4294967296",
            error: DmiError::InvalidPair(
                Key::Width,
                Value::Float(Number::parse("4294967296").unwrap())
            )
        })
    );
}

#[test]
fn typing_a_pair_by_hand() {
    assert_eq!(KeyValue::new(Key::Frames, Value::Int(3)), Ok(KeyValue::Frames(3)));
    assert_eq!(KeyValue::new(Key::Dirs, Value::Int(5)), Err(DmiError::InvalidDirs(5)));
    assert_eq!(
        KeyValue::new(Key::Hotspot, Value::List(nums(&[1.0, 2.0]))),
        Ok(KeyValue::Hotspot(nums(&[1.0, 2.0])))
    );
    assert!(DmiError::Syntax(Expected::Key).is_syntax());
    assert!(!DmiError::InvalidDirs(5).is_syntax());
}
