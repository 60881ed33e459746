use dmi_metadata::error::{DmiError, Expected, ParseError};
use dmi_metadata::parser::block;
use dmi_metadata::parser::key_value::{Dirs, KeyValue};

#[test]
fn a_line_is_a_pair_and_a_line_feed() {
    assert_eq!(block::line("dirs = 4\nrest"), Ok(("rest", KeyValue::Dirs(Dirs::Four))));
    assert_eq!(
        block::line("dirs = 4\r\n"),
        Err(ParseError { rest: "\r\n", error: DmiError::Syntax(Expected::Newline) })
    );
    assert_eq!(
        block::line("dirs = 4 \n"),
        Err(ParseError { rest: " \n", error: DmiError::Syntax(Expected::Newline) })
    );
}

#[test]
fn property_lines_are_indented_with_spaces_or_tabs() {
    assert_eq!(
        block::properties(" dirs = 1\n\tframes = 2\n \t loop = 0\nstate = \"x\"\n"),
        Ok((
            "state = \"x\"\n",
            vec![KeyValue::Dirs(Dirs::One), KeyValue::Frames(2), KeyValue::Loop(0)]
        ))
    );
    assert_eq!(
        block::properties("dirs = 1\n"),
        Err(ParseError { rest: "dirs = 1\n", error: DmiError::Syntax(Expected::Indent) })
    );
    assert_eq!(block::properties(""), Err(ParseError { rest: "", error: DmiError::Syntax(Expected::Indent) }));
    assert_eq!(
        block::properties("    \n"),
        Err(ParseError { rest: "\n", error: DmiError::Syntax(Expected::Key) })
    );
}
