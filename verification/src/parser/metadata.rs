//! The document: the opening marker, the header block, the state blocks and
//! the closing marker.

use vstd::prelude::*;
use crate::error::{syntax, syntax_error, DmiError, DmiErrorView, Expected, ParseError, ParseErrorView};
use crate::parser::block::{
    lemma_line_rest, lemma_properties_rest, line, line_spec, pairs_view, properties,
    properties_spec,
};
use crate::parser::key_value::{Key, KeyValue, KeyValueView, KeyView};
use crate::parser::state::{
    lemma_state_rest, set_unknown, sets_unknown, state, state_spec, with_unknown, State,
    StateView,
};
use crate::parser::text::{
    alpha1, is_rest_of, lemma_rest_of_rest, multispace0, newline, run, same_text, space1, tag,
    CharClass,
};
use crate::parser::unknown::Unknown;
use crate::parser::number::{
    decimal_digits, pow10, whole_number, whole_numbers_are_written_in_one_way, Number, NumberView,
};
use crate::parser::values::ValueView;

verus! {

/// The marker that opens the document.
pub open spec fn begin_marker() -> Seq<char> {
    "# BEGIN DMI"@
}

/// The marker that closes the document.
pub open spec fn end_marker() -> Seq<char> {
    "# END DMI"@
}

/// The opening line at the head of `s`: the marker and a line feed.
pub open spec fn begin_spec(s: Seq<char>) -> Result<(Seq<char>, Seq<char>), ParseErrorView> {
    let rest = s.skip(begin_marker().len() as int);
    if !begin_marker().is_prefix_of(s) {
        Err(syntax_error(s, Expected::Begin))
    } else if rest.len() > 0 && rest[0] == '\n' {
        Ok((rest.skip(1), begin_marker()))
    } else {
        Err(syntax_error(rest, Expected::Newline))
    }
}

/// The closing marker at the head of `s`, and any spaces, tabs, carriage
/// returns and line feeds behind it.
pub open spec fn end_spec(s: Seq<char>) -> Result<(Seq<char>, Seq<char>), ParseErrorView> {
    let rest = s.skip(end_marker().len() as int);
    if !end_marker().is_prefix_of(s) {
        Err(syntax_error(s, Expected::End))
    } else {
        Ok((rest.skip(run(rest, CharClass::Space) as int), end_marker()))
    }
}

/// Recognizes the opening line; hands back what follows it, and the marker.
pub fn begin_dmi<'a>(input: &'a str) -> (r: Result<(&'a str, &'a str), ParseError<'a>>)
    ensures
        match r {
            Ok((rest, marker)) => begin_spec(input@) == Ok::<_, ParseErrorView>((rest@, marker@)),
            Err(f) => begin_spec(input@) == Err::<(Seq<char>, Seq<char>), _>(f@),
        },
{
    match tag("# BEGIN DMI", input) {
        None => Err(syntax(input, Expected::Begin)),
        Some((rest, marker)) => match newline(rest) {
            Some((after, _)) => Ok((after, marker)),
            None => Err(syntax(rest, Expected::Newline)),
        },
    }
}

/// Recognizes the closing marker and the white space behind it; hands back
/// what follows them, and the marker.
pub fn end_dmi<'a>(input: &'a str) -> (r: Result<(&'a str, &'a str), ParseError<'a>>)
    ensures
        match r {
            Ok((rest, marker)) => end_spec(input@) == Ok::<_, ParseErrorView>((rest@, marker@)),
            Err(f) => end_spec(input@) == Err::<(Seq<char>, Seq<char>), _>(f@),
        },
{
    match tag("# END DMI", input) {
        None => Err(syntax(input, Expected::End)),
        Some((rest, marker)) => match multispace0(rest) {
            Some((after, _)) => Ok((after, marker)),
            None => unreached(),
        },
    }
}


/// The head of the document: the format's version and the size of one frame.
#[derive(Debug)]
pub struct Header {
    pub version: Number,
    pub width: u32,
    pub height: u32,
    pub unk: Option<Unknown>,
}

/// The model of a [`Header`].
pub struct HeaderView {
    pub version: NumberView,
    pub width: u32,
    pub height: u32,
    pub unk: Option<Map<Seq<char>, ValueView>>,
}

impl View for Header {
    type V = HeaderView;

    open spec fn view(&self) -> HeaderView {
        HeaderView {
            version: self.version@,
            width: self.width,
            height: self.height,
            unk: match self.unk {
                Some(m) => Some(m@),
                None => None,
            },
        }
    }
}

/// The one version that is supported: 4.0, which is the whole number 4.
pub open spec fn supported_version() -> NumberView {
    whole_number(4)
}

/// What is known of a header while its property lines are read.
pub struct HeaderDraft {
    pub width: Option<u32>,
    pub height: Option<u32>,
    pub unk: Option<Map<Seq<char>, ValueView>>,
}

/// A header before its first property line.
pub open spec fn header_start() -> HeaderDraft {
    HeaderDraft { width: None, height: None, unk: None }
}

/// The draft after one more property. A property sets its field, whatever
/// the field held; a pair that belongs to a state, or another `version`,
/// has no place here.
pub open spec fn header_step(d: HeaderDraft, kv: KeyValueView) -> Result<HeaderDraft, DmiErrorView> {
    match kv {
        KeyValueView::Width(x) => Ok(HeaderDraft { width: Some(x), ..d }),
        KeyValueView::Height(x) => Ok(HeaderDraft { height: Some(x), ..d }),
        KeyValueView::Unk(name, x) => Ok(HeaderDraft { unk: with_unknown(d.unk, name, x), ..d }),
        other => Err(DmiErrorView::NotAllowed(other)),
    }
}

/// The draft after the properties `kvs`, taken from left to right; the
/// first one that has no place ends the fold.
pub open spec fn header_fold(kvs: Seq<KeyValueView>, d: HeaderDraft) -> Result<
    HeaderDraft,
    DmiErrorView,
>
    decreases kvs.len(),
{
    if kvs.len() == 0 {
        Ok(d)
    } else {
        match header_step(d, kvs[0]) {
            Err(e) => Err(e),
            Ok(next) => header_fold(kvs.skip(1), next),
        }
    }
}

/// The header of version `version` with the properties `kvs`. The version
/// must be 4.0, and both width and height must have been given.
pub open spec fn header_from(version: NumberView, kvs: Seq<KeyValueView>) -> Result<
    HeaderView,
    DmiErrorView,
> {
    if version != supported_version() {
        Err(DmiErrorView::UnsupportedVersion(version))
    } else {
        match header_fold(kvs, header_start()) {
            Err(e) => Err(e),
            Ok(d) => match d.width {
                None => Err(DmiErrorView::MissingField(KeyView::Width)),
                Some(width) => match d.height {
                    None => Err(DmiErrorView::MissingField(KeyView::Height)),
                    Some(height) => Ok(HeaderView { version, width, height, unk: d.unk }),
                },
            },
        }
    }
}

/// Whether `version` is the supported one.
fn is_supported(version: &Number) -> (r: bool)
    ensures
        r == (version@ == supported_version()),
{
    proof {
        reveal_strlit("4");
        assert(decimal_digits(4) =~= seq!['4']);
        assert("4"@ =~= seq!['4']);
    }
    let r = !version.is_negative() && same_text(version.whole(), "4")
        && version.fraction().is_empty();
    proof {
        if r {
            assert(version@.fraction =~= Seq::<char>::empty());
        }
    }
    r
}

impl Header {
    /// Builds the header that a `version` line and the property lines behind
    /// it describe.
    pub fn try_from(pair: (KeyValue, Vec<KeyValue>)) -> (r: Result<Header, DmiError>)
        requires
            pair.0 is Version,
        ensures
            match r {
                Ok(header) => header_from(pair.0->Version_0@, pairs_view(pair.1@)) == Ok::<
                    _,
                    DmiErrorView,
                >(header@),
                Err(e) => header_from(pair.0->Version_0@, pairs_view(pair.1@)) == Err::<
                    HeaderView,
                    _,
                >(e@),
            },
    {
        let (intro, kvs) = pair;
        let version = match intro {
            KeyValue::Version(version) => version,
            _ => unreached(),
        };
        if !is_supported(&version) {
            return Err(DmiError::UnsupportedVersion(version));
        }
        let mut width: Option<u32> = None;
        let mut height: Option<u32> = None;
        let mut unk: Option<Unknown> = None;
        let ghost all = pairs_view(kvs@);
        assert(all.skip(0) =~= all);

        for kv in it: kvs.into_iter()
            invariant
                all == pairs_view(it.seq()),
                all == pairs_view(pair.1@),
                pair.0 is Version,
                version@ == pair.0->Version_0@,
                version@ == supported_version(),
                header_fold(all, header_start()) == header_fold(
                    all.skip(it.index() as int),
                    HeaderDraft {
                        width,
                        height,
                        unk: match unk {
                            Some(m) => Some(m@),
                            None => None,
                        },
                    },
                ),
        {
            proof {
                assert(all[it.index() as int] == kv@);
                assert(all.skip(it.index() as int).skip(1) =~= all.skip(it.index() + 1));
            }
            match kv {
                KeyValue::Width(w) => {
                    width = Some(w);
                },
                KeyValue::Height(h) => {
                    height = Some(h);
                },
                KeyValue::Unk(name, value) => {
                    unk = set_unknown(unk, name, value);
                },
                other => {
                    return Err(DmiError::NotAllowed(other));
                },
            }
        }
        proof {
            assert(all.skip(all.len() as int) =~= Seq::empty());
        }
        match width {
            None => Err(DmiError::MissingField(Key::Width)),
            Some(width) => match height {
                None => Err(DmiError::MissingField(Key::Height)),
                Some(height) => Ok(Header { version, width, height, unk }),
            },
        }
    }
}

/// The header block at the head of `s`: a line that holds a `version` pair,
/// and one or more property lines. A block whose properties do not make a
/// header fails where the block starts.
pub open spec fn header_spec(s: Seq<char>) -> Result<(Seq<char>, HeaderView), ParseErrorView> {
    match line_spec(s) {
        Err(f) => Err(f),
        Ok((rest, intro)) => match intro {
            KeyValueView::Version(version) => match properties_spec(rest) {
                Err(f) => Err(f),
                Ok((tail, kvs)) => match header_from(version, kvs) {
                    Ok(header) => Ok((tail, header)),
                    Err(e) => Err(ParseErrorView { rest: s, error: e }),
                },
            },
            _ => Err(syntax_error(s, Expected::VersionLine)),
        },
    }
}

/// A header block takes at least one character from the front of the input.
pub proof fn lemma_header_rest(s: Seq<char>)
    ensures
        header_spec(s) matches Ok((rest, _)) ==> rest.len() < s.len() && is_rest_of(rest, s),
{
    lemma_line_rest(s);
    match line_spec(s) {
        Err(_) => {},
        Ok((rest, _)) => {
            lemma_properties_rest(rest);
            if properties_spec(rest) is Ok {
                lemma_rest_of_rest(properties_spec(rest)->Ok_0.0, rest, s);
            }
        },
    }
}

/// Recognizes the header block at the head of `input`.
pub fn header<'a>(input: &'a str) -> (r: Result<(&'a str, Header), ParseError<'a>>)
    ensures
        match r {
            Ok((rest, header)) => header_spec(input@) == Ok::<_, ParseErrorView>((rest@, header@)),
            Err(f) => header_spec(input@) == Err::<(Seq<char>, HeaderView), _>(f@),
        },
{
    let (rest, intro) = match line(input) {
        Ok(found) => found,
        Err(f) => {
            return Err(f);
        },
    };
    match &intro {
        KeyValue::Version(_) => {},
        _ => {
            return Err(syntax(input, Expected::VersionLine));
        },
    }
    let (tail, kvs) = match properties(rest) {
        Ok(found) => found,
        Err(f) => {
            return Err(f);
        },
    };
    match Header::try_from((intro, kvs)) {
        Ok(header) => Ok((tail, header)),
        Err(error) => Err(ParseError { rest: input, error }),
    }
}

/// A whole document: its header, and its states in the order in which they
/// stand in the text.
#[derive(Debug)]
pub struct Metadata {
    pub header: Header,
    pub states: Vec<State>,
}

/// The model of a [`Metadata`].
pub struct MetadataView {
    pub header: HeaderView,
    pub states: Seq<StateView>,
}

/// The models of a sequence of states, in order.
pub open spec fn states_view(v: Seq<State>) -> Seq<StateView> {
    v.map_values(|state: State| state@)
}

impl View for Metadata {
    type V = MetadataView;

    open spec fn view(&self) -> MetadataView {
        MetadataView { header: self.header@, states: states_view(self.states@) }
    }
}

/// The state blocks from `s` on, added to `acc` in order, up to the line
/// that starts with neither a letter nor an indentation.
///
/// A line that starts with a letter starts a state block, which must be a
/// valid one. An indented line has no place here: it is the line at which
/// the block before stopped, and the document fails with that line's own
/// failure.
pub open spec fn states_spec(s: Seq<char>, acc: Seq<StateView>) -> Result<
    (Seq<char>, Seq<StateView>),
    ParseErrorView,
>
    decreases s.len(),
{
    let indent = run(s, CharClass::Blank);
    if indent > 0 {
        match line_spec(s.skip(indent as int)) {
            Err(f) => Err(f),
            Ok(_) => Err(syntax_error(s, Expected::End)),
        }
    } else if run(s, CharClass::Alpha) == 0 {
        Ok((s, acc))
    } else {
        match state_spec(s) {
            Err(f) => Err(f),
            Ok((rest, state)) => {
                proof {
                    lemma_state_rest(s);
                }
                states_spec(rest, acc.push(state))
            },
        }
    }
}

/// The document that is the whole of `s`: the opening line, the header
/// block, the state blocks, the closing marker with the white space behind
/// it, and nothing more.
pub open spec fn metadata_spec(s: Seq<char>) -> Result<(Seq<char>, MetadataView), ParseErrorView> {
    match begin_spec(s) {
        Err(f) => Err(f),
        Ok((after_begin, _)) => match header_spec(after_begin) {
            Err(f) => Err(f),
            Ok((after_header, header)) => match states_spec(after_header, Seq::empty()) {
                Err(f) => Err(f),
                Ok((after_states, states)) => match end_spec(after_states) {
                    Err(f) => Err(f),
                    Ok((tail, _)) => if tail.len() > 0 {
                        Err(syntax_error(tail, Expected::EndOfInput))
                    } else {
                        Ok((tail, MetadataView { header, states }))
                    },
                },
            },
        },
    }
}

/// Recognizes the document that is the whole of `input`. What is handed
/// back beside the document is what is left of the input: nothing.
pub fn metadata<'a>(input: &'a str) -> (r: Result<(&'a str, Metadata), ParseError<'a>>)
    ensures
        match r {
            Ok((rest, document)) => metadata_spec(input@) == Ok::<_, ParseErrorView>(
                (rest@, document@),
            ),
            Err(f) => metadata_spec(input@) == Err::<(Seq<char>, MetadataView), _>(f@),
        },
        r matches Ok((rest, _)) ==> rest@.len() == 0,
{
    let (after_begin, _) = match begin_dmi(input) {
        Ok(found) => found,
        Err(f) => {
            return Err(f);
        },
    };
    let (after_header, header) = match header(after_begin) {
        Ok(found) => found,
        Err(f) => {
            return Err(f);
        },
    };
    let mut states: Vec<State> = Vec::new();
    let mut cur: &'a str = after_header;
    assert(states_view(states@) =~= Seq::empty());
    loop
        invariant
            states_spec(after_header@, Seq::empty()) == states_spec(cur@, states_view(states@)),
            begin_spec(input@) matches Ok((x, _)) && x == after_begin@,
            header_spec(after_begin@) == Ok::<_, ParseErrorView>((after_header@, header@)),
        decreases cur@.len(),
    {
        match space1(cur) {
            Some((stray, _)) => {
                return match line(stray) {
                    Err(f) => Err(f),
                    Ok(_) => Err(syntax(cur, Expected::End)),
                };
            },
            None => {},
        }
        if alpha1(cur).is_none() {
            let (tail, _) = match end_dmi(cur) {
                Ok(found) => found,
                Err(f) => {
                    return Err(f);
                },
            };
            if !tail.is_empty() {
                return Err(syntax(tail, Expected::EndOfInput));
            }
            return Ok((tail, Metadata { header, states }));
        }
        proof {
            lemma_state_rest(cur@);
        }
        match state(cur) {
            Err(f) => {
                return Err(f);
            },
            Ok((rest, found)) => {
                let ghost before = states_view(states@);
                states.push(found);
                assert(states_view(states@) =~= before.push(found@));
                cur = rest;
            },
        }
    }
}

impl Metadata {
    /// Reads the document that is the whole of `input`.
    pub fn load<'a>(input: &'a str) -> (r: Result<Metadata, ParseError<'a>>)
        ensures
            match r {
                Ok(document) => metadata_spec(input@) == Ok::<_, ParseErrorView>(
                    (Seq::<char>::empty(), document@),
                ),
                Err(f) => metadata_spec(input@) == Err::<(Seq<char>, MetadataView), _>(f@),
            },
    {
        match metadata(input) {
            Ok((rest, document)) => {
                assert(rest@ =~= Seq::<char>::empty());
                Ok(document)
            },
            Err(f) => Err(f),
        }
    }
}


/// A header is built line by line: what the properties up to and including
/// the last one make is what the last one makes of what the ones before it
/// made. So of two properties that set one field, the later one stays.
pub proof fn header_fold_by_line(kvs: Seq<KeyValueView>, kv: KeyValueView, d: HeaderDraft)
    ensures
        header_fold(kvs.push(kv), d) == match header_fold(kvs, d) {
            Err(e) => Err(e),
            Ok(before) => header_step(before, kv),
        },
    decreases kvs.len(),
{
    let all = kvs.push(kv);
    if kvs.len() == 0 {
        assert(all.skip(1) =~= Seq::<KeyValueView>::empty());
        match header_step(d, kv) {
            Err(_) => {},
            Ok(next) => {
                assert(header_fold(all.skip(1), next) == Ok::<_, DmiErrorView>(next));
            },
        }
    } else {
        assert(all[0] == kvs[0]);
        assert(all.skip(1) =~= kvs.skip(1).push(kv));
        match header_step(d, kvs[0]) {
            Err(_) => {},
            Ok(next) => {
                header_fold_by_line(kvs.skip(1), kv, next);
            },
        }
    }
}

/// A property that no draft takes fails the fold, wherever it stands.
proof fn lemma_header_fold_fails(kvs: Seq<KeyValueView>, d: HeaderDraft, i: int)
    requires
        0 <= i < kvs.len(),
        forall|any: HeaderDraft| (#[trigger] header_step(any, kvs[i])) is Err,
    ensures
        header_fold(kvs, d) is Err,
    decreases kvs.len(),
{
    match header_step(d, kvs[0]) {
        Err(_) => {},
        Ok(next) => {
            assert(i > 0);
            assert(kvs.skip(1)[i - 1] == kvs[i]);
            lemma_header_fold_fails(kvs.skip(1), next, i - 1);
        },
    }
}

/// A pair that is neither a width, a height nor an unknown key fails the
/// header wherever it stands among the properties.
pub proof fn header_takes_its_own_keys_only(
    version: NumberView,
    kvs: Seq<KeyValueView>,
    i: int,
)
    requires
        0 <= i < kvs.len(),
        !(kvs[i] is Width || kvs[i] is Height || kvs[i] is Unk),
    ensures
        header_from(version, kvs) is Err,
{
    lemma_header_fold_fails(kvs, header_start(), i);
}

/// What a draft holds under an unknown name stays, as long as no property
/// sets that name.
proof fn lemma_header_fold_keeps_unknown(
    kvs: Seq<KeyValueView>,
    d: HeaderDraft,
    name: Seq<char>,
    value: ValueView,
)
    requires
        d.unk matches Some(m) && m.contains_key(name) && m[name] == value,
        forall|j: int| 0 <= j < kvs.len() ==> !sets_unknown(#[trigger] kvs[j], name),
        header_fold(kvs, d) is Ok,
    ensures
        header_fold(kvs, d)->Ok_0.unk matches Some(m) && m.contains_key(name) && m[name]
            == value,
    decreases kvs.len(),
{
    if kvs.len() > 0 {
        let next = header_step(d, kvs[0])->Ok_0;
        assert(!sets_unknown(kvs[0], name));
        assert forall|j: int| 0 <= j < kvs.skip(1).len() implies !sets_unknown(
            #[trigger] kvs.skip(1)[j],
            name,
        ) by {
            assert(kvs.skip(1)[j] == kvs[j + 1]);
        }
        lemma_header_fold_keeps_unknown(kvs.skip(1), next, name, value);
    }
}

/// Where the fold from any draft succeeds, the unknown name that a property
/// sets last holds that property's value in the end.
proof fn lemma_header_fold_sets_unknown(kvs: Seq<KeyValueView>, d: HeaderDraft, i: int)
    requires
        0 <= i < kvs.len(),
        kvs[i] is Unk,
        forall|j: int| i < j < kvs.len() ==> !sets_unknown(#[trigger] kvs[j], kvs[i]->Unk_0),
        header_fold(kvs, d) is Ok,
    ensures
        header_fold(kvs, d)->Ok_0.unk matches Some(m) && m.contains_key(kvs[i]->Unk_0) && m[kvs[i]->Unk_0]
            == kvs[i]->Unk_1,
    decreases kvs.len(),
{
    let next = header_step(d, kvs[0])->Ok_0;
    let rest = kvs.skip(1);
    if i == 0 {
        assert forall|j: int| 0 <= j < rest.len() implies !sets_unknown(
            #[trigger] rest[j],
            kvs[0]->Unk_0,
        ) by {
            assert(rest[j] == kvs[j + 1]);
        }
        lemma_header_fold_keeps_unknown(rest, next, kvs[0]->Unk_0, kvs[0]->Unk_1);
    } else {
        assert(rest[i - 1] == kvs[i]);
        assert forall|j: int| i - 1 < j < rest.len() implies !sets_unknown(
            #[trigger] rest[j],
            rest[i - 1]->Unk_0,
        ) by {
            assert(rest[j] == kvs[j + 1]);
        }
        lemma_header_fold_sets_unknown(rest, next, i - 1);
    }
}

/// A property with an unknown key is kept among the header's unknown
/// fields, under its name and with its value, unless a later property sets
/// the same name.
pub proof fn header_keeps_unknown_keys(version: NumberView, kvs: Seq<KeyValueView>, i: int)
    requires
        0 <= i < kvs.len(),
        kvs[i] is Unk,
        forall|j: int| i < j < kvs.len() ==> !sets_unknown(#[trigger] kvs[j], kvs[i]->Unk_0),
        header_from(version, kvs) is Ok,
    ensures
        header_from(version, kvs)->Ok_0.unk matches Some(m) && m.contains_key(kvs[i]->Unk_0)
            && m[kvs[i]->Unk_0] == kvs[i]->Unk_1,
{
    lemma_header_fold_sets_unknown(kvs, header_start(), i);
}

/// A field that no property sets keeps what the draft held.
proof fn lemma_header_fold_untouched(kvs: Seq<KeyValueView>, d: HeaderDraft)
    requires
        header_fold(kvs, d) is Ok,
    ensures
        ({
            let e = header_fold(kvs, d)->Ok_0;
            &&& (forall|j: int| 0 <= j < kvs.len() ==> !(#[trigger] kvs[j] is Width)) ==> e.width
                == d.width
            &&& (forall|j: int| 0 <= j < kvs.len() ==> !(#[trigger] kvs[j] is Height))
                ==> e.height == d.height
            &&& (forall|j: int| 0 <= j < kvs.len() ==> !(#[trigger] kvs[j] is Unk)) ==> e.unk
                == d.unk
        }),
    decreases kvs.len(),
{
    if kvs.len() > 0 {
        let next = header_step(d, kvs[0])->Ok_0;
        let rest = kvs.skip(1);
        lemma_header_fold_untouched(rest, next);
        if forall|j: int| 0 <= j < kvs.len() ==> !(#[trigger] kvs[j] is Width) {
            assert(!(kvs[0] is Width));
            assert forall|j: int| 0 <= j < rest.len() implies !(#[trigger] rest[j] is Width) by {
                assert(!(kvs[j + 1] is Width));
            }
        }
        if forall|j: int| 0 <= j < kvs.len() ==> !(#[trigger] kvs[j] is Height) {
            assert(!(kvs[0] is Height));
            assert forall|j: int| 0 <= j < rest.len() implies !(#[trigger] rest[j] is Height) by {
                assert(!(kvs[j + 1] is Height));
            }
        }
        if forall|j: int| 0 <= j < kvs.len() ==> !(#[trigger] kvs[j] is Unk) {
            assert(!(kvs[0] is Unk));
            assert forall|j: int| 0 <= j < rest.len() implies !(#[trigger] rest[j] is Unk) by {
                assert(!(kvs[j + 1] is Unk));
            }
        }
    }
}

/// A header must be given both its width and its height, and holds the
/// version that its first line gave, which is the supported one.
pub proof fn header_requirements(version: NumberView, kvs: Seq<KeyValueView>)
    ensures
        version != supported_version() ==> header_from(version, kvs) == Err::<HeaderView, _>(
            DmiErrorView::UnsupportedVersion(version),
        ),
        (forall|j: int| 0 <= j < kvs.len() ==> !(#[trigger] kvs[j] is Width)) ==> header_from(
            version,
            kvs,
        ) is Err,
        (forall|j: int| 0 <= j < kvs.len() ==> !(#[trigger] kvs[j] is Height)) ==> header_from(
            version,
            kvs,
        ) is Err,
        header_from(version, kvs) matches Ok(header) ==> {
            &&& header.version == version
            &&& version == supported_version()
            &&& (forall|j: int| 0 <= j < kvs.len() ==> !(#[trigger] kvs[j] is Unk))
                ==> header.unk is None
        },
{
    if header_fold(kvs, header_start()) is Ok {
        lemma_header_fold_untouched(kvs, header_start());
    }
}

/// Only version 4.0 is read: a document whose version line gives another
/// number fails as a whole, with that number and at the version line; and
/// the header of every document that was read holds the number 4.
pub proof fn only_the_supported_version_is_read(s: Seq<char>)
    ensures
        metadata_spec(s) matches Ok((_, document)) ==> document.header.version
            == supported_version() && document.header.version.scaled() == 4
            && document.header.version.scale() == 0,
        (begin_spec(s) matches Ok((after_begin, _)) && line_spec(after_begin) matches Ok(
            (after_line, KeyValueView::Version(version)),
        ) && version != supported_version() && properties_spec(after_line) is Ok)
            ==> metadata_spec(s) == Err::<(Seq<char>, MetadataView), _>(
            ParseErrorView {
                rest: begin_spec(s)->Ok_0.0,
                error: DmiErrorView::UnsupportedVersion(
                    line_spec(begin_spec(s)->Ok_0.0)->Ok_0.1->Version_0,
                ),
            },
        ),
        (begin_spec(s) matches Ok((after_begin, _)) && line_spec(after_begin) matches Ok(
            (_, KeyValueView::Version(version)),
        ) && version != supported_version()) ==> metadata_spec(s) is Err,
{
    whole_numbers_are_written_in_one_way(supported_version(), 4);
    assert(pow10(0) == 1);
}

/// A document is the whole of its text: what is read leaves nothing, and a
/// text with anything but white space behind the closing marker is no
/// document.
pub proof fn a_document_is_the_whole_text(s: Seq<char>)
    ensures
        metadata_spec(s) matches Ok((rest, _)) ==> rest.len() == 0,
{
}

} // verus!
