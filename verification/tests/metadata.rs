use dmi_metadata::error::{DmiError, Expected, ParseError};
use dmi_metadata::parser::key_value::{Dirs, Key, KeyValue};
use dmi_metadata::parser::metadata::{begin_dmi, end_dmi, header, metadata, Header, Metadata};
use dmi_metadata::parser::number::Number;
use dmi_metadata::parser::values::Value;

fn dec(x: f32) -> Number {
    Number::parse(&format!("{}", x)).unwrap()
}

fn decs(xs: &[f32]) -> Vec<Number> {
    xs.iter().map(|x| dec(*x)).collect()
}

#[test]
fn test_metadata() {
    let description = r#"
# BEGIN DMI
version = 4.0
    width = 32
    height = 32
state = "state1"
    dirs = 4
    frames = 2
    delay = 1.2,1
    movement = 1
    loop = 1
    rewind = 0
    hotspot = 12,13,0
    future = "lmao"
state = "state2"
    dirs = 1
    frames = 1
# END DMI
"#
    .trim();

    let (tail, metadata) = metadata(description).unwrap();
    assert_eq!(tail, "");

    assert_eq!(metadata.header.version, dec(4.0));
    assert_eq!(metadata.header.width, 32);
    assert_eq!(metadata.header.height, 32);

    assert_eq!(metadata.states[0].name, "state1".to_string());
    assert_eq!(metadata.states[0].dirs, Dirs::Four);
    assert_eq!(metadata.states[0].frames, 2);
    assert_eq!(metadata.states[0].delays, Some(decs(&[1.2, 1.0])));
    assert_eq!(metadata.states[0].movement, Some(1));
    assert_eq!(metadata.states[0].loop_flag, Some(1));
    assert_eq!(metadata.states[0].rewind, Some(0));
    assert_eq!(metadata.states[0].hotspot, Some([dec(12.0), dec(13.0), dec(0.0)]));

    assert_eq!(metadata.states[1].name, "state2".to_string());
    assert_eq!(metadata.states[1].dirs, Dirs::One);
    assert_eq!(metadata.states[1].frames, 1);
    assert_eq!(metadata.states[1].delays, None);

    assert_eq!(
        metadata.states[0].unk.as_ref().unwrap().get("future"),
        Some(&Value::String("lmao".to_string()))
    );
    assert!(metadata.states[1].unk.is_none());
    assert!(metadata.header.unk.is_none());
}

#[test]
fn end_to_end_document() {
    let text = "# BEGIN DMI\nversion = 4.0\n    width = 32\n    height = 32\nstate = \"state1\"\n    dirs = 4\n    frames = 2\n    delay = 1.2,1\nstate = \"state2\"\n    dirs = 1\n    frames = 1\n# END DMI\n";
    let document = Metadata::load(text).unwrap();
    assert_eq!(document.header.version, dec(4.0));
    assert_eq!(document.header.width, 32);
    assert_eq!(document.header.height, 32);
    assert_eq!(document.states.len(), 2);
    assert_eq!(document.states[0].name, "state1");
    assert_eq!(document.states[0].dirs, Dirs::Four);
    assert_eq!(document.states[0].delays, Some(decs(&[1.2, 1.0])));
    assert_eq!(document.states[1].name, "state2");
    assert_eq!(document.states[1].delays, None);
}

#[test]
fn document_without_states() {
    let document =
        Metadata::load("# BEGIN DMI\nversion = 4.0\n\twidth = 1\n\theight = 2\n# END DMI").unwrap();
    assert_eq!(document.header.width, 1);
    assert_eq!(document.header.height, 2);
    assert!(document.states.is_empty());
}

#[test]
fn states_with_one_name_are_all_kept() {
    let document = Metadata::load(
        "# BEGIN DMI\nversion = 4.0\n w = 1\n width = 1\n height = 2\nstate = \"a\"\n dirs = 1\nstate = \"a\"\n dirs = 4\n# END DMI\n",
    )
    .unwrap();
    assert_eq!(document.states.len(), 2);
    assert_eq!(document.states[0].name, "a");
    assert_eq!(document.states[0].dirs, Dirs::One);
    assert_eq!(document.states[1].name, "a");
    assert_eq!(document.states[1].dirs, Dirs::Four);
    assert_eq!(document.header.unk.unwrap().get("w"), Some(&Value::Int(1)));
}

#[test]
fn other_versions_fail_the_whole_parse() {
    for version in ["3.0", "4.1", "5.0", "-4.0", "40.0", "0.4", "4.0001"] {
        let text = format!(
            "# BEGIN DMI\nversion = {}\n    width = 32\n    height = 32\n# END DMI\n",
            version
        );
        let r = Metadata::load(&text);
        assert_eq!(
            r.err(),
            Some(ParseError {
                rest: &text["# BEGIN DMI\n".len()..],
                error: DmiError::UnsupportedVersion(Number::parse(version).unwrap())
            })
        );
    }
    for version in ["4.0", "4.00", "04.0", "+4.0"] {
        let text = format!(
            "# BEGIN DMI\nversion = {}\n    width = 32\n    height = 32\n# END DMI\n",
            version
        );
        assert!(Metadata::load(&text).is_ok());
    }
    let r = Metadata::load("# BEGIN DMI\nversion = 4\n    width = 32\n    height = 32\n# END DMI\n");
    assert_eq!(
        r.err(),
        Some(ParseError {
            rest: "version = 4\n    width = 32\n    height = 32\n# END DMI\n",
            error: DmiError::InvalidPair(Key::Version, Value::Int(4))
        })
    );
}

#[test]
fn trailing_input_fails() {
    let r = Metadata::load(
        "# BEGIN DMI\nversion = 4.0\n    width = 32\n    height = 32\n# END DMI\n \t\r\n",
    );
    assert!(r.is_ok());
    let r = Metadata::load(
        "# BEGIN DMI\nversion = 4.0\n    width = 32\n    height = 32\n# END DMI\n  junk\n",
    );
    assert_eq!(
        r.err(),
        Some(ParseError { rest: "junk\n", error: DmiError::Syntax(Expected::EndOfInput) })
    );
}

#[test]
fn markers_are_required() {
    assert_eq!(
        Metadata::load("version = 4.0\n").err(),
        Some(ParseError { rest: "version = 4.0\n", error: DmiError::Syntax(Expected::Begin) })
    );
    assert_eq!(
        Metadata::load("# BEGIN DMI version = 4.0\n").err(),
        Some(ParseError { rest: " version = 4.0\n", error: DmiError::Syntax(Expected::Newline) })
    );
    assert_eq!(
        Metadata::load("# BEGIN DMI\nversion = 4.0\n    width = 32\n    height = 32\n").err(),
        Some(ParseError { rest: "", error: DmiError::Syntax(Expected::End) })
    );
    assert_eq!(
        Metadata::load("# BEGIN DMI\nversion = 4.0\n    width = 32\n    height = 32\n#END\n").err(),
        Some(ParseError { rest: "#END\n", error: DmiError::Syntax(Expected::End) })
    );
    assert_eq!(begin_dmi("# BEGIN DMI\nrest"), Ok(("rest", "# BEGIN DMI")));
    assert_eq!(end_dmi("# END DMI \n\t x"), Ok(("x", "# END DMI")));
    assert_eq!(end_dmi("# END DMI"), Ok(("", "# END DMI")));
    assert_eq!(
        end_dmi("# END"),
        Err(ParseError { rest: "# END", error: DmiError::Syntax(Expected::End) })
    );
}

#[test]
fn a_failing_state_fails_the_document() {
    let text = "# BEGIN DMI\nversion = 4.0\n    width = 32\n    height = 32\nstate = \"a\"\n    frames = 1\n# END DMI\n";
    assert_eq!(
        Metadata::load(text).err(),
        Some(ParseError {
            rest: "state = \"a\"\n    frames = 1\n# END DMI\n",
            error: DmiError::MissingField(Key::Dirs)
        })
    );
}

#[test]
fn a_malformed_property_line_fails_the_document_with_its_own_failure() {
    let text = "# BEGIN DMI\nversion = 4.0\n    width = 32\n    height = 32\nstate = \"a\"\n    dirs = 1\n    dirs = 3\n# END DMI\n";
    assert_eq!(
        Metadata::load(text).err(),
        Some(ParseError { rest: "dirs = 3\n# END DMI\n", error: DmiError::InvalidDirs(3) })
    );
    let text = "# BEGIN DMI\nversion = 4.0\n    width = 32\n    height = 32\n    frames\n# END DMI\n";
    assert_eq!(
        Metadata::load(text).err(),
        Some(ParseError { rest: "\n# END DMI\n", error: DmiError::Syntax(Expected::Separator) })
    );
    let text = "# BEGIN DMI\nversion = 4.0\n    width = 32\n    height = 32\nstate = \"a\"\n    dirs = 1\n    frames = 2";
    assert_eq!(
        Metadata::load(text).err(),
        Some(ParseError { rest: "", error: DmiError::Syntax(Expected::Newline) })
    );
}

#[test]
fn header_needs_width_and_height() {
    let text = "version = 4.0\n    height = 32\n";
    assert_eq!(
        header(text).err(),
        Some(ParseError { rest: text, error: DmiError::MissingField(Key::Width) })
    );
    let text = "version = 4.0\n    width = 32\n";
    assert_eq!(
        header(text).err(),
        Some(ParseError { rest: text, error: DmiError::MissingField(Key::Height) })
    );
    let text = "version = 4.0\n    future = 1\n";
    assert_eq!(
        header(text).err(),
        Some(ParseError { rest: text, error: DmiError::MissingField(Key::Width) })
    );
}

#[test]
fn header_block_shape() {
    let (rest, found) = header("version = 4.0\n  width = 3\n\theight = 4\n  width = 5\nstate").unwrap();
    assert_eq!(rest, "state");
    assert_eq!(found.width, 5);
    assert_eq!(found.height, 4);

    let text = "width = 4\n    height = 32\n";
    assert_eq!(
        header(text).err(),
        Some(ParseError { rest: text, error: DmiError::Syntax(Expected::VersionLine) })
    );
    assert_eq!(
        header("version = 4.0\nwidth = 4\n").err(),
        Some(ParseError { rest: "width = 4\n", error: DmiError::Syntax(Expected::Indent) })
    );
    let text = "version = 4.0\n    width = 4\n    dirs = 1\n";
    assert_eq!(
        header(text).err(),
        Some(ParseError { rest: text, error: DmiError::NotAllowed(KeyValue::Dirs(Dirs::One)) })
    );
}

#[test]
fn header_from_pairs() {
    let found = Header::try_from((
        KeyValue::Version(dec(4.0)),
        vec![
            KeyValue::Width(1),
            KeyValue::Unk("k".to_string(), Value::Int(1)),
            KeyValue::Height(2),
            KeyValue::Unk("k".to_string(), Value::Int(2)),
        ],
    ))
    .unwrap();
    assert_eq!(found.version, dec(4.0));
    assert_eq!(found.width, 1);
    assert_eq!(found.height, 2);
    assert_eq!(found.unk.unwrap().get("k"), Some(&Value::Int(2)));

    let r = Header::try_from((KeyValue::Version(dec(3.5)), vec![KeyValue::Frames(1)]));
    assert_eq!(r.err(), Some(DmiError::UnsupportedVersion(dec(3.5))));
}
