//! One `key = value` pair: the key's name, the value, and the type that the
//! key gives to the value.

use vstd::prelude::*;
use vstd::std_specs::convert::{FromSpecImpl, TryFromSpecImpl};
use crate::error::{syntax, syntax_error, DmiError, DmiErrorView, Expected, ParseError, ParseErrorView};
use crate::parser::text::{
    alpha1, in_class, is_rest_of, lemma_rest_of_rest, lemma_run, lemma_run_is, lemma_skip_is_rest,
    run, same_text, tag, CharClass,
};
use crate::parser::number::{decimal_digits, Number, NumberView};
use crate::parser::values::{
    atom, atom_spec, lemma_atom_rest, lemma_integer_atom, numbers_view, Value, ValueView,
};

verus! {

/// The key of a pair: one of the known keys, or any other name.
#[derive(Debug, PartialEq, Eq)]
pub enum Key {
    Version,
    Width,
    Height,
    State,
    Dirs,
    Frames,
    Delay,
    Loop,
    Rewind,
    Movement,
    Hotspot,
    Unk(String),
}

/// The model of a [`Key`].
pub enum KeyView {
    Version,
    Width,
    Height,
    State,
    Dirs,
    Frames,
    Delay,
    Loop,
    Rewind,
    Movement,
    Hotspot,
    Unk(Seq<char>),
}

impl View for Key {
    type V = KeyView;

    open spec fn view(&self) -> KeyView {
        match self {
            Key::Version => KeyView::Version,
            Key::Width => KeyView::Width,
            Key::Height => KeyView::Height,
            Key::State => KeyView::State,
            Key::Dirs => KeyView::Dirs,
            Key::Frames => KeyView::Frames,
            Key::Delay => KeyView::Delay,
            Key::Loop => KeyView::Loop,
            Key::Rewind => KeyView::Rewind,
            Key::Movement => KeyView::Movement,
            Key::Hotspot => KeyView::Hotspot,
            Key::Unk(name) => KeyView::Unk(name@),
        }
    }
}

/// The key that a name stands for. Names are case-sensitive; a name that is
/// none of the known ones is kept as it is.
pub open spec fn key_of(name: Seq<char>) -> KeyView {
    if name == "version"@ {
        KeyView::Version
    } else if name == "width"@ {
        KeyView::Width
    } else if name == "height"@ {
        KeyView::Height
    } else if name == "state"@ {
        KeyView::State
    } else if name == "dirs"@ {
        KeyView::Dirs
    } else if name == "frames"@ {
        KeyView::Frames
    } else if name == "delay"@ {
        KeyView::Delay
    } else if name == "loop"@ {
        KeyView::Loop
    } else if name == "rewind"@ {
        KeyView::Rewind
    } else if name == "movement"@ {
        KeyView::Movement
    } else if name == "hotspot"@ {
        KeyView::Hotspot
    } else {
        KeyView::Unk(name)
    }
}

/// The key at the head of `s`: its longest prefix of letters, which must not
/// be empty.
pub open spec fn key_spec(s: Seq<char>) -> Result<(Seq<char>, KeyView), ParseErrorView> {
    let n = run(s, CharClass::Alpha);
    if n == 0 {
        Err(syntax_error(s, Expected::Key))
    } else {
        Ok((s.skip(n as int), key_of(s.take(n as int))))
    }
}

/// Recognizes the key at the head of `input`.
pub fn key<'a>(input: &'a str) -> (r: Result<(&'a str, Key), ParseError<'a>>)
    ensures
        match r {
            Ok((rest, k)) => key_spec(input@) == Ok::<_, ParseErrorView>((rest@, k@)),
            Err(f) => key_spec(input@) == Err::<(Seq<char>, KeyView), _>(f@),
        },
{
    match alpha1(input) {
        None => Err(syntax(input, Expected::Key)),
        Some((rest, name)) => {
            let k = if same_text(name, "version") {
                Key::Version
            } else if same_text(name, "width") {
                Key::Width
            } else if same_text(name, "height") {
                Key::Height
            } else if same_text(name, "state") {
                Key::State
            } else if same_text(name, "dirs") {
                Key::Dirs
            } else if same_text(name, "frames") {
                Key::Frames
            } else if same_text(name, "delay") {
                Key::Delay
            } else if same_text(name, "loop") {
                Key::Loop
            } else if same_text(name, "rewind") {
                Key::Rewind
            } else if same_text(name, "movement") {
                Key::Movement
            } else if same_text(name, "hotspot") {
                Key::Hotspot
            } else {
                Key::Unk(name.to_owned())
            };
            Ok((rest, k))
        },
    }
}

/// In how many directions a state's frames are split.
#[derive(Clone, Copy, Debug, PartialEq, Eq, Structural)]
pub enum Dirs {
    One,
    Four,
    Eight,
}

/// The direction count that `value` names, if it names one.
pub open spec fn dirs_of(value: u32) -> Option<Dirs> {
    if value == 1 {
        Some(Dirs::One)
    } else if value == 4 {
        Some(Dirs::Four)
    } else if value == 8 {
        Some(Dirs::Eight)
    } else {
        None
    }
}

impl Dirs {
    /// The number of directions.
    pub open spec fn count(self) -> nat {
        match self {
            Dirs::One => 1,
            Dirs::Four => 4,
            Dirs::Eight => 8,
        }
    }
}

impl TryFrom<u32> for Dirs {
    type Error = DmiError;

    fn try_from(value: u32) -> (r: Result<Dirs, DmiError>)
        ensures
            match r {
                Ok(d) => dirs_of(value) == Some(d),
                Err(e) => dirs_of(value) is None && e@ == DmiErrorView::InvalidDirs(value),
            },
    {
        if value == 1 {
            Ok(Dirs::One)
        } else if value == 4 {
            Ok(Dirs::Four)
        } else if value == 8 {
            Ok(Dirs::Eight)
        } else {
            Err(DmiError::InvalidDirs(value))
        }
    }
}

impl TryFromSpecImpl<u32> for Dirs {
    open spec fn obeys_try_from_spec() -> bool {
        true
    }

    open spec fn try_from_spec(value: u32) -> Result<Dirs, DmiError> {
        match dirs_of(value) {
            Some(d) => Ok(d),
            None => Err(DmiError::InvalidDirs(value)),
        }
    }
}

impl From<Dirs> for u32 {
    fn from(d: Dirs) -> (r: u32) {
        match d {
            Dirs::One => 1,
            Dirs::Four => 4,
            Dirs::Eight => 8,
        }
    }
}

impl FromSpecImpl<Dirs> for u32 {
    open spec fn obeys_from_spec() -> bool {
        true
    }

    open spec fn from_spec(d: Dirs) -> u32 {
        d.count() as u32
    }
}

impl From<Dirs> for u8 {
    fn from(d: Dirs) -> (r: u8) {
        match d {
            Dirs::One => 1,
            Dirs::Four => 4,
            Dirs::Eight => 8,
        }
    }
}

impl FromSpecImpl<Dirs> for u8 {
    open spec fn obeys_from_spec() -> bool {
        true
    }

    open spec fn from_spec(d: Dirs) -> u8 {
        d.count() as u8
    }
}

/// A pair whose value has the type that its key asks for.
#[derive(Debug, PartialEq)]
pub enum KeyValue {
    Version(Number),
    Width(u32),
    Height(u32),
    State(String),
    Dirs(Dirs),
    Frames(u32),
    Delay(Vec<Number>),
    Loop(u32),
    Rewind(u32),
    Movement(u32),
    Hotspot(Vec<Number>),
    Unk(String, Value),
}

/// The model of a [`KeyValue`].
pub enum KeyValueView {
    Version(NumberView),
    Width(u32),
    Height(u32),
    State(Seq<char>),
    Dirs(Dirs),
    Frames(u32),
    Delay(Seq<NumberView>),
    Loop(u32),
    Rewind(u32),
    Movement(u32),
    Hotspot(Seq<NumberView>),
    Unk(Seq<char>, ValueView),
}

impl View for KeyValue {
    type V = KeyValueView;

    open spec fn view(&self) -> KeyValueView {
        match self {
            KeyValue::Version(x) => KeyValueView::Version(x@),
            KeyValue::Width(x) => KeyValueView::Width(*x),
            KeyValue::Height(x) => KeyValueView::Height(*x),
            KeyValue::State(x) => KeyValueView::State(x@),
            KeyValue::Dirs(x) => KeyValueView::Dirs(*x),
            KeyValue::Frames(x) => KeyValueView::Frames(*x),
            KeyValue::Delay(x) => KeyValueView::Delay(numbers_view(x@)),
            KeyValue::Loop(x) => KeyValueView::Loop(*x),
            KeyValue::Rewind(x) => KeyValueView::Rewind(*x),
            KeyValue::Movement(x) => KeyValueView::Movement(*x),
            KeyValue::Hotspot(x) => KeyValueView::Hotspot(numbers_view(x@)),
            KeyValue::Unk(name, x) => KeyValueView::Unk(name@, x@),
        }
    }
}

/// The pair that a key and a value make. Each known key takes one shape of
/// value; `dirs` takes only 1, 4 and 8; any other name takes any value.
pub open spec fn typed_spec(key: KeyView, value: ValueView) -> Result<KeyValueView, DmiErrorView> {
    match (key, value) {
        (KeyView::Version, ValueView::Float(x)) => Ok(KeyValueView::Version(x)),
        (KeyView::Width, ValueView::Int(x)) => Ok(KeyValueView::Width(x)),
        (KeyView::Height, ValueView::Int(x)) => Ok(KeyValueView::Height(x)),
        (KeyView::State, ValueView::String(x)) => Ok(KeyValueView::State(x)),
        (KeyView::Dirs, ValueView::Int(x)) => match dirs_of(x) {
            Some(d) => Ok(KeyValueView::Dirs(d)),
            None => Err(DmiErrorView::InvalidDirs(x)),
        },
        (KeyView::Frames, ValueView::Int(x)) => Ok(KeyValueView::Frames(x)),
        (KeyView::Delay, ValueView::List(x)) => Ok(KeyValueView::Delay(x)),
        (KeyView::Loop, ValueView::Int(x)) => Ok(KeyValueView::Loop(x)),
        (KeyView::Rewind, ValueView::Int(x)) => Ok(KeyValueView::Rewind(x)),
        (KeyView::Movement, ValueView::Int(x)) => Ok(KeyValueView::Movement(x)),
        (KeyView::Hotspot, ValueView::List(x)) => Ok(KeyValueView::Hotspot(x)),
        (KeyView::Unk(name), x) => Ok(KeyValueView::Unk(name, x)),
        (k, v) => Err(DmiErrorView::InvalidPair(k, v)),
    }
}

impl KeyValue {
    /// Gives `value` the type that `key` asks for, or says why it cannot
    /// have it.
    pub fn new(key: Key, value: Value) -> (r: Result<KeyValue, DmiError>)
        ensures
            match r {
                Ok(kv) => typed_spec(key@, value@) == Ok::<_, DmiErrorView>(kv@),
                Err(e) => typed_spec(key@, value@) == Err::<KeyValueView, _>(e@),
            },
    {
        match (key, value) {
            (Key::Version, Value::Float(x)) => Ok(KeyValue::Version(x)),
            (Key::Width, Value::Int(x)) => Ok(KeyValue::Width(x)),
            (Key::Height, Value::Int(x)) => Ok(KeyValue::Height(x)),
            (Key::State, Value::String(x)) => Ok(KeyValue::State(x)),
            (Key::Dirs, Value::Int(x)) => match Dirs::try_from(x) {
                Ok(d) => Ok(KeyValue::Dirs(d)),
                Err(e) => Err(e),
            },
            (Key::Frames, Value::Int(x)) => Ok(KeyValue::Frames(x)),
            (Key::Delay, Value::List(x)) => Ok(KeyValue::Delay(x)),
            (Key::Loop, Value::Int(x)) => Ok(KeyValue::Loop(x)),
            (Key::Rewind, Value::Int(x)) => Ok(KeyValue::Rewind(x)),
            (Key::Movement, Value::Int(x)) => Ok(KeyValue::Movement(x)),
            (Key::Hotspot, Value::List(x)) => Ok(KeyValue::Hotspot(x)),
            (Key::Unk(name), x) => Ok(KeyValue::Unk(name, x)),
            (k, v) => Err(DmiError::InvalidPair(k, v)),
        }
    }
}

/// The pair at the head of `s`: a key, the separator ` = ` with its one
/// space on either side, and a value, which is then given the key's type.
/// A pair that cannot have that type fails where the pair starts.
pub open spec fn key_value_spec(s: Seq<char>) -> Result<(Seq<char>, KeyValueView), ParseErrorView> {
    match key_spec(s) {
        Err(f) => Err(f),
        Ok((after_key, k)) => if !" = "@.is_prefix_of(after_key) {
            Err(syntax_error(after_key, Expected::Separator))
        } else {
            match atom_spec(after_key.skip(" = "@.len() as int)) {
                Err(f) => Err(f),
                Ok((rest, value)) => match typed_spec(k, value) {
                    Ok(kv) => Ok((rest, kv)),
                    Err(e) => Err(ParseErrorView { rest: s, error: e }),
                },
            }
        },
    }
}

/// Recognizes the pair at the head of `input`.
pub fn key_value<'a>(input: &'a str) -> (r: Result<(&'a str, KeyValue), ParseError<'a>>)
    ensures
        match r {
            Ok((rest, kv)) => key_value_spec(input@) == Ok::<_, ParseErrorView>((rest@, kv@)),
            Err(f) => key_value_spec(input@) == Err::<(Seq<char>, KeyValueView), _>(f@),
        },
{
    let (after_key, k) = match key(input) {
        Ok(found) => found,
        Err(f) => {
            return Err(f);
        },
    };
    let after_separator = match tag(" = ", after_key) {
        Some((rest, _)) => rest,
        None => {
            return Err(syntax(after_key, Expected::Separator));
        },
    };
    let (rest, value) = match atom(after_separator) {
        Ok(found) => found,
        Err(f) => {
            return Err(f);
        },
    };
    match KeyValue::new(k, value) {
        Ok(kv) => Ok((rest, kv)),
        Err(error) => Err(ParseError { rest: input, error }),
    }
}

/// A pair takes at least one character from the front of the input.
pub proof fn lemma_key_value_rest(s: Seq<char>)
    ensures
        key_value_spec(s) matches Ok((rest, _)) ==> rest.len() < s.len() && is_rest_of(rest, s),
{
    lemma_run(s, CharClass::Alpha);
    match key_spec(s) {
        Err(_) => {},
        Ok((after_key, _)) => {
            if " = "@.is_prefix_of(after_key) {
                let after_separator = after_key.skip(" = "@.len() as int);
                lemma_atom_rest(after_separator);
                lemma_skip_is_rest(s, run(s, CharClass::Alpha) as int);
                lemma_skip_is_rest(after_key, " = "@.len() as int);
                lemma_rest_of_rest(after_separator, after_key, s);
                if atom_spec(after_separator) is Ok {
                    lemma_rest_of_rest(atom_spec(after_separator)->Ok_0.0, after_separator, s);
                }
            }
        },
    }
}

/// Whether `name` can stand as a key: one or more letters.
pub open spec fn is_name(name: Seq<char>) -> bool {
    &&& name.len() > 0
    &&& forall|i: int| 0 <= i < name.len() ==> in_class(#[trigger] name[i], CharClass::Alpha)
}

/// The names of the known keys are made of letters, and each stands for its
/// own key.
pub proof fn lemma_known_names()
    ensures
        key_of("version"@) == KeyView::Version,
        key_of("width"@) == KeyView::Width,
        key_of("height"@) == KeyView::Height,
        key_of("state"@) == KeyView::State,
        key_of("dirs"@) == KeyView::Dirs,
        key_of("frames"@) == KeyView::Frames,
        key_of("delay"@) == KeyView::Delay,
        key_of("loop"@) == KeyView::Loop,
        key_of("rewind"@) == KeyView::Rewind,
        key_of("movement"@) == KeyView::Movement,
        key_of("hotspot"@) == KeyView::Hotspot,
        is_name("version"@),
        is_name("width"@),
        is_name("height"@),
        is_name("state"@),
        is_name("dirs"@),
        is_name("frames"@),
        is_name("delay"@),
        is_name("loop"@),
        is_name("rewind"@),
        is_name("movement"@),
        is_name("hotspot"@),
{
    reveal_strlit("version");
    reveal_strlit("width");
    reveal_strlit("height");
    reveal_strlit("state");
    reveal_strlit("dirs");
    reveal_strlit("frames");
    reveal_strlit("delay");
    reveal_strlit("loop");
    reveal_strlit("rewind");
    reveal_strlit("movement");
    reveal_strlit("hotspot");
    assert("version"@.len() == 7 && "hotspot"@.len() == 7);
    assert("width"@.len() == 5 && "state"@.len() == 5 && "delay"@.len() == 5);
    assert("height"@.len() == 6 && "frames"@.len() == 6 && "rewind"@.len() == 6);
    assert("dirs"@.len() == 4 && "loop"@.len() == 4);
    assert("movement"@.len() == 8);
    assert("width"@[0] != "state"@[0]);
    assert("width"@[0] != "delay"@[0]);
    assert("state"@[0] != "delay"@[0]);
    assert("height"@[0] != "frames"@[0]);
    assert("height"@[0] != "rewind"@[0]);
    assert("frames"@[0] != "rewind"@[0]);
    assert("version"@[0] != "hotspot"@[0]);
    assert("dirs"@[0] != "loop"@[0]);
}

/// A name of letters, the separator and the digits of a number that fits 32
/// bits are read as the pair of that name's key and that integer, which
/// then gets the key's type.
pub proof fn lemma_integer_pair(name: Seq<char>, n: u32)
    requires
        is_name(name),
    ensures
        key_value_spec(name + " = "@ + decimal_digits(n as nat)) == match typed_spec(
            key_of(name),
            ValueView::Int(n),
        ) {
            Ok(kv) => Ok::<_, ParseErrorView>((Seq::<char>::empty(), kv)),
            Err(e) => Err(
                ParseErrorView { rest: name + " = "@ + decimal_digits(n as nat), error: e },
            ),
        },
{
    reveal_strlit(" = ");
    let separator = " = "@;
    let digits = decimal_digits(n as nat);
    let s = name + separator + digits;
    assert forall|i: int| 0 <= i < name.len() implies in_class(#[trigger] s[i], CharClass::Alpha) by {
        assert(s[i] == name[i]);
    }
    assert(s[name.len() as int] == separator[0]);
    lemma_run_is(s, CharClass::Alpha, name.len());
    assert(s.take(name.len() as int) =~= name);
    let after_key = s.skip(name.len() as int);
    assert(after_key =~= separator + digits);
    assert(after_key.subrange(0, separator.len() as int) =~= separator);
    assert(after_key.skip(separator.len() as int) =~= digits);
    lemma_integer_atom(n, Seq::empty());
    assert(digits + Seq::<char>::empty() =~= digits);
}

/// For every number `n` that fits 32 bits, the text of `width = ` and `n`
/// in decimal digits is read as the pair `Width(n)`, with nothing left; and
/// so for `height`, `frames`, `loop`, `rewind` and `movement`.
pub proof fn integer_keys_take_every_number(n: u32)
    ensures
        key_value_spec("width = "@ + decimal_digits(n as nat)) == Ok::<_, ParseErrorView>(
            (Seq::<char>::empty(), KeyValueView::Width(n)),
        ),
        key_value_spec("height = "@ + decimal_digits(n as nat)) == Ok::<_, ParseErrorView>(
            (Seq::<char>::empty(), KeyValueView::Height(n)),
        ),
        key_value_spec("frames = "@ + decimal_digits(n as nat)) == Ok::<_, ParseErrorView>(
            (Seq::<char>::empty(), KeyValueView::Frames(n)),
        ),
        key_value_spec("loop = "@ + decimal_digits(n as nat)) == Ok::<_, ParseErrorView>(
            (Seq::<char>::empty(), KeyValueView::Loop(n)),
        ),
        key_value_spec("rewind = "@ + decimal_digits(n as nat)) == Ok::<_, ParseErrorView>(
            (Seq::<char>::empty(), KeyValueView::Rewind(n)),
        ),
        key_value_spec("movement = "@ + decimal_digits(n as nat)) == Ok::<_, ParseErrorView>(
            (Seq::<char>::empty(), KeyValueView::Movement(n)),
        ),
{
    lemma_known_names();
    lemma_integer_pair("width"@, n);
    lemma_integer_pair("height"@, n);
    lemma_integer_pair("frames"@, n);
    lemma_integer_pair("loop"@, n);
    lemma_integer_pair("rewind"@, n);
    lemma_integer_pair("movement"@, n);
    reveal_strlit(" = ");
    reveal_strlit("width");
    reveal_strlit("width = ");
    assert("width = "@ =~= "width"@ + " = "@);
    reveal_strlit("height");
    reveal_strlit("height = ");
    assert("height = "@ =~= "height"@ + " = "@);
    reveal_strlit("frames");
    reveal_strlit("frames = ");
    assert("frames = "@ =~= "frames"@ + " = "@);
    reveal_strlit("loop");
    reveal_strlit("loop = ");
    assert("loop = "@ =~= "loop"@ + " = "@);
    reveal_strlit("rewind");
    reveal_strlit("rewind = ");
    assert("rewind = "@ =~= "rewind"@ + " = "@);
    reveal_strlit("movement");
    reveal_strlit("movement = ");
    assert("movement = "@ =~= "movement"@ + " = "@);
}

/// For every number `n` that fits 32 bits, the text of `dirs = ` and `n` in
/// decimal digits is read as a direction count where `n` is 1, 4 or 8, and
/// fails as an invalid direction count, at the start of the pair, for every
/// other `n`.
pub proof fn dirs_takes_one_four_and_eight(n: u32)
    ensures
        key_value_spec("dirs = "@ + decimal_digits(n as nat)) == match dirs_of(n) {
            Some(d) => Ok::<_, ParseErrorView>((Seq::<char>::empty(), KeyValueView::Dirs(d))),
            None => Err(
                ParseErrorView {
                    rest: "dirs = "@ + decimal_digits(n as nat),
                    error: DmiErrorView::InvalidDirs(n),
                },
            ),
        },
        dirs_of(n) is Some <==> n == 1 || n == 4 || n == 8,
{
    lemma_known_names();
    lemma_integer_pair("dirs"@, n);
    reveal_strlit(" = ");
    reveal_strlit("dirs");
    reveal_strlit("dirs = ");
    assert("dirs = "@ =~= "dirs"@ + " = "@);
}

/// A name that is none of the known keys takes any value, and keeps both.
pub proof fn unknown_keys_take_any_value(name: Seq<char>, value: ValueView)
    requires
        key_of(name) is Unk,
    ensures
        typed_spec(key_of(name), value) == Ok::<_, DmiErrorView>(KeyValueView::Unk(name, value)),
{
}

} // verus!
