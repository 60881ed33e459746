use dmi_metadata::error::{DmiError, Expected, ParseError};
use dmi_metadata::parser::key_value::{Dirs, Key, KeyValue};
use dmi_metadata::parser::state::State;
use dmi_metadata::parser::number::Number;
use dmi_metadata::parser::values::Value;

fn number(x: f32) -> Number {
    Number::parse(&format!("{}", x)).unwrap()
}

fn numbers(xs: &[f32]) -> Vec<Number> {
    xs.iter().map(|x| number(*x)).collect()
}

#[test]
fn metadata() {
    let description = r#"
state = "duplicate"
    dirs = 1
    frames = 1
"#
    .trim();

    let (_, state) = dmi_metadata::parser::state::state(description).unwrap();
    assert_eq!(state.dirs, Dirs::One);
    assert_eq!(state.frames, 1);
    assert_eq!(state.name, "duplicate");
}

#[test]
fn state_delay() {
    let description = r#"
state = "bluespace_coffee"
    dirs = 1
    frames = 4
    delay = 1,2,5.4,3
state = "..."
"#
    .trim();

    let (tail, state) = dmi_metadata::parser::state::state(description).unwrap();
    assert_eq!(tail, r#"state = "...""#);
    assert_eq!(state.dirs, Dirs::One);
    assert_eq!(state.delays, Some(numbers(&[1.0, 2.0, 5.4, 3.0])));
    assert_eq!(state.name, "bluespace_coffee");
}

#[test]
fn delay_without_frames_keeps_one_frame() {
    let description = r#"
state = "bluespace_coffee"
    dirs = 1
    delay = 1,2,5.4,3
state = "..."
        "#
    .trim();

    let (tail, state) = dmi_metadata::parser::state::state(description).unwrap();
    assert_eq!(tail, r#"state = "...""#);
    assert_eq!(state.frames, 1);
    assert_eq!(state.delays, Some(numbers(&[1.0, 2.0, 5.4, 3.0])));
}

#[test]
fn delays_are_not_held_against_frames() {
    let (_, state) =
        dmi_metadata::parser::state::state("state = \"s\"\n\tdirs = 4\n\tframes = 2\n\tdelay = 1,2,3\n")
            .unwrap();
    assert_eq!(state.frames, 2);
    assert_eq!(state.delays, Some(numbers(&[1.0, 2.0, 3.0])));
}

#[test]
fn state_without_property_lines_fails() {
    let r = dmi_metadata::parser::state::state("state = \"x\"\nstate = \"y\"\n    dirs = 1\n");
    assert_eq!(
        r.err(),
        Some(ParseError {
            rest: "state = \"y\"\n    dirs = 1\n",
            error: DmiError::Syntax(Expected::Indent)
        })
    );
    let r = dmi_metadata::parser::state::state("state = \"x\"\n");
    assert_eq!(r.err(), Some(ParseError { rest: "", error: DmiError::Syntax(Expected::Indent) }));
}

#[test]
fn state_needs_dirs() {
    let text = "state = \"x\"\n    frames = 2\n";
    let r = dmi_metadata::parser::state::state(text);
    assert_eq!(r.err(), Some(ParseError { rest: text, error: DmiError::MissingField(Key::Dirs) }));
}

#[test]
fn state_block_starts_with_a_state_line() {
    let text = "dirs = 1\n    frames = 2\n";
    let r = dmi_metadata::parser::state::state(text);
    assert_eq!(r.err(), Some(ParseError { rest: text, error: DmiError::Syntax(Expected::StateLine) }));
}

#[test]
fn hotspot_has_three_numbers() {
    let (_, state) = dmi_metadata::parser::state::state(
        "state = \"x\"\n    dirs = 1\n    hotspot = 13,12,1\n",
    )
    .unwrap();
    assert_eq!(state.hotspot, Some([number(13.0), number(12.0), number(1.0)]));

    let two = "state = \"x\"\n    dirs = 1\n    hotspot = 13,12\n";
    assert_eq!(
        dmi_metadata::parser::state::state(two).err(),
        Some(ParseError { rest: two, error: DmiError::HotspotLength(2) })
    );
    let four = "state = \"x\"\n    dirs = 1\n    hotspot = 13,12,1,0\n";
    assert_eq!(
        dmi_metadata::parser::state::state(four).err(),
        Some(ParseError { rest: four, error: DmiError::HotspotLength(4) })
    );
}

#[test]
fn header_keys_have_no_place_in_a_state() {
    let text = "state = \"x\"\n    dirs = 1\n    width = 32\n";
    assert_eq!(
        dmi_metadata::parser::state::state(text).err(),
        Some(ParseError { rest: text, error: DmiError::NotAllowed(KeyValue::Width(32)) })
    );
}

#[test]
fn a_property_set_twice_keeps_the_last_value() {
    let (_, state) = dmi_metadata::parser::state::state(
        "state = \"x\"\n dirs = 1\n frames = 2\n dirs = 8\n frames = 5\n loop = 1\n loop = 0\n",
    )
    .unwrap();
    assert_eq!(state.dirs, Dirs::Eight);
    assert_eq!(state.frames, 5);
    assert_eq!(state.loop_flag, Some(0));
}

#[test]
fn unknown_keys_of_a_state_are_kept() {
    let (_, state) = dmi_metadata::parser::state::state(
        "state = \"x\"\n    dirs = 1\n    future = \"lmao\"\n    other = 3\n    future = 2\n",
    )
    .unwrap();
    let unk = state.unk.unwrap();
    assert_eq!(unk.get("future"), Some(&Value::Int(2)));
    assert_eq!(unk.get("other"), Some(&Value::Int(3)));
    assert_eq!(unk.get("dirs"), None);
    assert_eq!(unk.entries().len(), 2);

    let (_, plain) =
        dmi_metadata::parser::state::state("state = \"x\"\n    dirs = 1\n").unwrap();
    assert!(plain.unk.is_none());
}

#[test]
fn the_first_property_line_must_be_valid() {
    let r = dmi_metadata::parser::state::state("state = \"x\"\n    dirs = 3\n");
    assert_eq!(
        r.err(),
        Some(ParseError { rest: "dirs = 3\n", error: DmiError::InvalidDirs(3) })
    );
    let r = dmi_metadata::parser::state::state("state = \"x\"\n    dirs\n");
    assert_eq!(r.err(), Some(ParseError { rest: "\n", error: DmiError::Syntax(Expected::Separator) }));
    let r = dmi_metadata::parser::state::state("state = \"x\"\n    dirs = 1");
    assert_eq!(r.err(), Some(ParseError { rest: "", error: DmiError::Syntax(Expected::Newline) }));
}

#[test]
fn a_block_ends_in_front_of_the_first_line_that_is_no_property_line() {
    let (rest, state) =
        dmi_metadata::parser::state::state("state = \"x\"\n    dirs = 1\n    frames = 7").unwrap();
    assert_eq!(rest, "    frames = 7");
    assert_eq!(state.frames, 1);
    let (rest, state) =
        dmi_metadata::parser::state::state("state = \"x\"\n    dirs = 1\n    dirs = 3\n").unwrap();
    assert_eq!(rest, "    dirs = 3\n");
    assert_eq!(state.dirs, Dirs::One);
    let (rest, _) =
        dmi_metadata::parser::state::state("state = \"x\"\n \t dirs = 1\n# END DMI\n").unwrap();
    assert_eq!(rest, "# END DMI\n");
}

#[test]
fn state_from_pairs() {
    let state = State::try_from((
        KeyValue::State("s".to_string()),
        vec![
            KeyValue::Dirs(Dirs::Four),
            KeyValue::Rewind(1),
            KeyValue::Movement(0),
            KeyValue::Unk("k".to_string(), Value::Int(1)),
        ],
    ))
    .unwrap();
    assert_eq!(state.name, "s");
    assert_eq!(state.dirs, Dirs::Four);
    assert_eq!(state.frames, 1);
    assert_eq!(state.delays, None);
    assert_eq!(state.loop_flag, None);
    assert_eq!(state.rewind, Some(1));
    assert_eq!(state.movement, Some(0));
    assert_eq!(state.hotspot, None);
    assert_eq!(state.unk.unwrap().get("k"), Some(&Value::Int(1)));

    let r = State::try_from((
        KeyValue::State("s".to_string()),
        vec![KeyValue::Dirs(Dirs::Four), KeyValue::State("t".to_string())],
    ));
    assert_eq!(r.err(), Some(DmiError::NotAllowed(KeyValue::State("t".to_string()))));
}

#[test]
fn states_are_copied_and_compared_by_what_they_hold() {
    let text = "state = \"x\"\n    dirs = 1\n    a = 1\n    b = 2\n    hotspot = 1,2,3\n";
    let (_, first) = dmi_metadata::parser::state::state(text).unwrap();
    let other = "state = \"x\"\n    b = 2\n    hotspot = 1.0,2.0,3.0\n    a = 1\n    dirs = 1\n";
    let (_, second) = dmi_metadata::parser::state::state(other).unwrap();
    assert_eq!(first, second);
    assert_eq!(first.clone(), first);
    let (_, third) =
        dmi_metadata::parser::state::state("state = \"x\"\n    dirs = 1\n    a = 1\n").unwrap();
    assert_ne!(first, third);
}
