use dmi_metadata::error::{DmiError, Expected, ParseError};
use dmi_metadata::parser::text::same_text;
use dmi_metadata::parser::unknown::Unknown;
use dmi_metadata::parser::number::Number;
use dmi_metadata::parser::values::{atom, Value};

fn float_of(n: &Number) -> f32 {
    let sign = if n.is_negative() { "-" } else { "" };
    format!("{}{}.{}", sign, n.whole(), n.fraction()).parse().unwrap()
}

#[test]
fn string_runs_to_the_next_quote() {
    assert_eq!(atom(r#""meow""#), Ok(("", Value::String("meow".to_string()))));
    assert_eq!(atom(r#""""#), Ok(("", Value::String(String::new()))));
    assert_eq!(atom(r#""a b\" c"#), Ok((" c", Value::String("a b\\".to_string()))));
    assert_eq!(atom("\"état\"\n"), Ok(("\n", Value::String("état".to_string()))));
}

#[test]
fn string_without_closing_quote_fails() {
    assert_eq!(
        atom(r#""meow"#),
        Err(ParseError { rest: "\"meow", error: DmiError::Syntax(Expected::ClosingQuote) })
    );
}

#[test]
fn plain_digits_are_an_integer() {
    assert_eq!(atom("32"), Ok(("", Value::Int(32))));
    assert_eq!(atom("0"), Ok(("", Value::Int(0))));
    assert_eq!(atom("007"), Ok(("", Value::Int(7))));
    assert_eq!(atom("4294967295"), Ok(("", Value::Int(4294967295))));
    assert_eq!(atom("12\nrest"), Ok(("\nrest", Value::Int(12))));
    assert_eq!(atom("4."), Ok((".", Value::Int(4))));
}

#[test]
fn other_numbers_are_floats() {
    match atom("4.0") {
        Ok(("", Value::Float(n))) => assert_eq!(float_of(&n), 4.0),
        other => panic!("{:?}", other),
    }
    match atom("-2.50x") {
        Ok(("x", Value::Float(n))) => assert_eq!(float_of(&n), -2.5),
        other => panic!("{:?}", other),
    }
    match atom("+3") {
        Ok(("", Value::Float(n))) => assert_eq!(float_of(&n), 3.0),
        other => panic!("{:?}", other),
    }
    match atom("4294967296") {
        Ok(("", Value::Float(n))) => assert_eq!(float_of(&n), 4294967296.0),
        other => panic!("{:?}", other),
    }
}

#[test]
fn a_comma_makes_a_list() {
    match atom("1.2,1") {
        Ok(("", Value::List(v))) => {
            assert_eq!(v.iter().map(float_of).collect::<Vec<f32>>(), vec![1.2, 1.0])
        }
        other => panic!("{:?}", other),
    }
    match atom("1,-2,+3.5\n") {
        Ok(("\n", Value::List(v))) => {
            assert_eq!(v.iter().map(float_of).collect::<Vec<f32>>(), vec![1.0, -2.0, 3.5])
        }
        other => panic!("{:?}", other),
    }
}

#[test]
fn a_comma_must_be_followed_by_a_number() {
    assert_eq!(
        atom("1,,2"),
        Err(ParseError { rest: ",2", error: DmiError::Syntax(Expected::Number) })
    );
    assert_eq!(atom("1,2,"), Err(ParseError { rest: "", error: DmiError::Syntax(Expected::Number) }));
    assert_eq!(
        atom("1,x"),
        Err(ParseError { rest: "x", error: DmiError::Syntax(Expected::Number) })
    );
}

#[test]
fn nothing_that_is_no_literal_is_a_value() {
    assert_eq!(atom(""), Err(ParseError { rest: "", error: DmiError::Syntax(Expected::Value) }));
    assert_eq!(atom("abc"), Err(ParseError { rest: "abc", error: DmiError::Syntax(Expected::Value) }));
    assert_eq!(atom(".5"), Err(ParseError { rest: ".5", error: DmiError::Syntax(Expected::Value) }));
    assert_eq!(atom("-"), Err(ParseError { rest: "-", error: DmiError::Syntax(Expected::Value) }));
}

#[test]
fn numbers_are_kept_in_normal_form() {
    let n = Number::parse("-004.2500").unwrap();
    assert!(n.is_negative());
    assert_eq!(n.whole(), "4");
    assert_eq!(n.fraction(), "25");
    assert_eq!(Number::parse("4.0"), Number::parse("4"));
    assert_eq!(Number::parse("+4.00"), Number::parse("04"));
    assert_eq!(Number::parse("-0.0"), Number::parse("0"));
    assert_eq!(Number::parse("000").unwrap().whole(), "0");
    assert_ne!(Number::parse("4.01"), Number::parse("4"));
    assert_ne!(Number::parse("-4"), Number::parse("4"));
    assert_eq!(Number::parse("4.0").unwrap().clone(), Number::parse("4").unwrap());
}

#[test]
fn a_number_is_the_whole_of_its_text() {
    assert_eq!(Number::parse(""), None);
    assert_eq!(Number::parse("4x"), None);
    assert_eq!(Number::parse("4."), None);
    assert_eq!(Number::parse("1,2"), None);
    assert_eq!(Number::parse(" 4"), None);
}

#[test]
fn same_text_compares_whole_strings() {
    assert!(same_text("dirs", "dirs"));
    assert!(same_text("", ""));
    assert!(!same_text("dirs", "dir"));
    assert!(!same_text("dirs", "dirt"));
    assert!(same_text("é", "é"));
    assert!(!same_text("é", "e"));
}

#[test]
fn unknown_fields_keep_the_last_value_of_a_name() {
    let mut map = Unknown::new();
    assert!(map.get("a").is_none());
    map.insert("a".to_string(), Value::Int(1));
    map.insert("b".to_string(), Value::Int(2));
    map.insert("a".to_string(), Value::Int(3));
    assert_eq!(map.get("a"), Some(&Value::Int(3)));
    assert_eq!(map.get("b"), Some(&Value::Int(2)));
    assert!(map.get("c").is_none());
    assert_eq!(
        map.entries(),
        &[("a".to_string(), Value::Int(3)), ("b".to_string(), Value::Int(2))]
    );
}

#[test]
fn the_text_of_a_number_reads_back() {
    for text in ["0", "4", "-4", "4.5", "-0.25", "1200", "0.001", "123456789012345678901234567890.5"] {
        let n = Number::parse(text).unwrap();
        assert_eq!(n.text(), text);
        assert_eq!(Number::parse(&n.text()), Some(n));
    }
    assert_eq!(Number::parse("+04.50").unwrap().text(), "4.5");
    assert_eq!(Number::parse("-0.0").unwrap().text(), "0");
    assert_eq!(Number::parse("00.10").unwrap().text(), "0.1");
}

#[test]
fn values_are_copied_and_compared_by_what_they_hold() {
    let list = Value::List(vec![Number::parse("1").unwrap(), Number::parse("2.5").unwrap()]);
    assert_eq!(list.clone(), list);
    assert_ne!(list, Value::List(vec![Number::parse("1").unwrap()]));
    assert_ne!(list, Value::List(vec![Number::parse("1").unwrap(), Number::parse("2").unwrap()]));
    assert_eq!(Value::Int(3).clone(), Value::Int(3));
    assert_ne!(Value::Int(3), Value::Float(Number::parse("3").unwrap()));
    assert_eq!(Value::String("a".to_string()).clone(), Value::String("a".to_string()));
    assert_ne!(Value::String("a".to_string()), Value::String("b".to_string()));
    assert_eq!(
        Value::Float(Number::parse("3.0").unwrap()),
        Value::Float(Number::parse("3").unwrap())
    );
}

#[test]
fn unknown_fields_are_equal_whatever_the_order() {
    let mut a = Unknown::new();
    a.insert("x".to_string(), Value::Int(1));
    a.insert("y".to_string(), Value::Int(2));
    let mut b = Unknown::new();
    b.insert("y".to_string(), Value::Int(2));
    b.insert("x".to_string(), Value::Int(5));
    assert!(a != b);
    b.insert("x".to_string(), Value::Int(1));
    assert!(a == b);
    assert!(a.clone() == a);
    b.insert("z".to_string(), Value::Int(1));
    assert!(a != b);
    assert!(b != a);
    assert!(Unknown::new() == Unknown::new());
}
