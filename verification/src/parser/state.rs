//! A state block: the `state` line that names it, and its property lines,
//! folded into one record.

use vstd::prelude::*;
use crate::error::{syntax, syntax_error, DmiError, DmiErrorView, Expected, ParseError, ParseErrorView};
use crate::parser::block::{
    lemma_line_rest, lemma_properties_rest, line, line_spec, pairs_view, properties,
    properties_spec,
};
use crate::parser::key_value::{typed_spec, Dirs, Key, KeyValue, KeyValueView, KeyView};
use crate::parser::text::{is_rest_of, lemma_rest_of_rest, run, CharClass};
use crate::parser::unknown::Unknown;
use crate::parser::number::{Number, NumberView};
use crate::parser::values::{numbers_view, Value, ValueView};

verus! {

/// One named animation of the sprite sheet.
#[derive(Clone, Debug, PartialEq)]
pub struct State {
    pub name: String,
    pub dirs: Dirs,
    pub frames: u32,
    pub delays: Option<Vec<Number>>,
    pub loop_flag: Option<u32>,
    pub rewind: Option<u32>,
    pub movement: Option<u32>,
    pub hotspot: Option<[Number; 3]>,
    pub unk: Option<Unknown>,
}

/// The model of a [`State`]. A hotspot has three numbers.
pub struct StateView {
    pub name: Seq<char>,
    pub dirs: Dirs,
    pub frames: u32,
    pub delays: Option<Seq<NumberView>>,
    pub loop_flag: Option<u32>,
    pub rewind: Option<u32>,
    pub movement: Option<u32>,
    pub hotspot: Option<Seq<NumberView>>,
    pub unk: Option<Map<Seq<char>, ValueView>>,
}

impl View for State {
    type V = StateView;

    open spec fn view(&self) -> StateView {
        StateView {
            name: self.name@,
            dirs: self.dirs,
            frames: self.frames,
            delays: match self.delays {
                Some(v) => Some(numbers_view(v@)),
                None => None,
            },
            loop_flag: self.loop_flag,
            rewind: self.rewind,
            movement: self.movement,
            hotspot: match self.hotspot {
                Some(h) => Some(numbers_view(h@)),
                None => None,
            },
            unk: match self.unk {
                Some(m) => Some(m@),
                None => None,
            },
        }
    }
}

/// The unknown fields of a block after `name` was set to `value`.
pub open spec fn with_unknown(
    unk: Option<Map<Seq<char>, ValueView>>,
    name: Seq<char>,
    value: ValueView,
) -> Option<Map<Seq<char>, ValueView>> {
    match unk {
        Some(m) => Some(m.insert(name, value)),
        None => Some(Map::empty().insert(name, value)),
    }
}

/// Sets `name` to `value` among the unknown fields of a block.
pub fn set_unknown(unk: Option<Unknown>, name: String, value: Value) -> (r: Option<Unknown>)
    ensures
        r matches Some(m) && Some(m@) == with_unknown(
            match unk {
                Some(m) => Some(m@),
                None => None,
            },
            name@,
            value@,
        ),
{
    let mut map = match unk {
        Some(m) => m,
        None => Unknown::new(),
    };
    map.insert(name, value);
    Some(map)
}

/// What is known of a state while its property lines are read.
pub struct StateDraft {
    pub dirs: Option<Dirs>,
    pub frames: u32,
    pub delays: Option<Seq<NumberView>>,
    pub loop_flag: Option<u32>,
    pub rewind: Option<u32>,
    pub movement: Option<u32>,
    pub hotspot: Option<Seq<NumberView>>,
    pub unk: Option<Map<Seq<char>, ValueView>>,
}

/// A state before its first property line: one frame, and nothing else.
pub open spec fn state_start() -> StateDraft {
    StateDraft {
        dirs: None,
        frames: 1,
        delays: None,
        loop_flag: None,
        rewind: None,
        movement: None,
        hotspot: None,
        unk: None,
    }
}

/// The draft after one more property. A property sets its field, whatever
/// the field held; a hotspot must have three numbers; a pair that belongs to
/// the header, or another `state`, has no place here.
pub open spec fn state_step(d: StateDraft, kv: KeyValueView) -> Result<StateDraft, DmiErrorView> {
    match kv {
        KeyValueView::Dirs(x) => Ok(StateDraft { dirs: Some(x), ..d }),
        KeyValueView::Frames(x) => Ok(StateDraft { frames: x, ..d }),
        KeyValueView::Delay(x) => Ok(StateDraft { delays: Some(x), ..d }),
        KeyValueView::Loop(x) => Ok(StateDraft { loop_flag: Some(x), ..d }),
        KeyValueView::Rewind(x) => Ok(StateDraft { rewind: Some(x), ..d }),
        KeyValueView::Movement(x) => Ok(StateDraft { movement: Some(x), ..d }),
        KeyValueView::Hotspot(x) => if x.len() == 3 {
            Ok(StateDraft { hotspot: Some(x), ..d })
        } else {
            Err(DmiErrorView::HotspotLength(x.len()))
        },
        KeyValueView::Unk(name, x) => Ok(StateDraft { unk: with_unknown(d.unk, name, x), ..d }),
        other => Err(DmiErrorView::NotAllowed(other)),
    }
}

/// The draft after the properties `kvs`, taken from left to right; the
/// first one that has no place ends the fold.
pub open spec fn state_fold(kvs: Seq<KeyValueView>, d: StateDraft) -> Result<
    StateDraft,
    DmiErrorView,
>
    decreases kvs.len(),
{
    if kvs.len() == 0 {
        Ok(d)
    } else {
        match state_step(d, kvs[0]) {
            Err(e) => Err(e),
            Ok(next) => state_fold(kvs.skip(1), next),
        }
    }
}

/// The state named `name` with the properties `kvs`. It must have been
/// given its direction count.
pub open spec fn state_from(name: Seq<char>, kvs: Seq<KeyValueView>) -> Result<
    StateView,
    DmiErrorView,
> {
    match state_fold(kvs, state_start()) {
        Err(e) => Err(e),
        Ok(d) => match d.dirs {
            None => Err(DmiErrorView::MissingField(KeyView::Dirs)),
            Some(dirs) => Ok(
                StateView {
                    name,
                    dirs,
                    frames: d.frames,
                    delays: d.delays,
                    loop_flag: d.loop_flag,
                    rewind: d.rewind,
                    movement: d.movement,
                    hotspot: d.hotspot,
                    unk: d.unk,
                },
            ),
        },
    }
}

/// The three numbers of a hotspot.
fn hotspot_of(numbers: Vec<Number>) -> (r: [Number; 3])
    requires
        numbers@.len() == 3,
    ensures
        numbers_view(r@) == numbers_view(numbers@),
{
    let mut numbers = numbers;
    let ghost all = numbers@;
    let z = numbers.pop().unwrap();
    let y = numbers.pop().unwrap();
    let x = numbers.pop().unwrap();
    let r = [x, y, z];
    assert(r@ =~= all);
    r
}

impl State {
    /// Builds the state that a `state` line and the property lines behind it
    /// describe.
    pub fn try_from(pair: (KeyValue, Vec<KeyValue>)) -> (r: Result<State, DmiError>)
        requires
            pair.0 is State,
        ensures
            match r {
                Ok(state) => state_from(pair.0->State_0@, pairs_view(pair.1@)) == Ok::<
                    _,
                    DmiErrorView,
                >(state@),
                Err(e) => state_from(pair.0->State_0@, pairs_view(pair.1@)) == Err::<StateView, _>(
                    e@,
                ),
            },
    {
        let (intro, kvs) = pair;
        let name = match intro {
            KeyValue::State(name) => name,
            _ => unreached(),
        };
        let mut dirs: Option<Dirs> = None;
        let mut frames: u32 = 1;
        let mut delays: Option<Vec<Number>> = None;
        let mut loop_flag: Option<u32> = None;
        let mut rewind: Option<u32> = None;
        let mut movement: Option<u32> = None;
        let mut hotspot: Option<[Number; 3]> = None;
        let mut unk: Option<Unknown> = None;
        let ghost all = pairs_view(kvs@);
        assert(all.skip(0) =~= all);

        for kv in it: kvs.into_iter()
            invariant
                all == pairs_view(it.seq()),
                all == pairs_view(pair.1@),
                state_fold(all, state_start()) == state_fold(
                    all.skip(it.index() as int),
                    StateDraft {
                        dirs,
                        frames,
                        delays: match delays {
                            Some(v) => Some(numbers_view(v@)),
                            None => None,
                        },
                        loop_flag,
                        rewind,
                        movement,
                        hotspot: match hotspot {
                            Some(h) => Some(numbers_view(h@)),
                            None => None,
                        },
                        unk: match unk {
                            Some(m) => Some(m@),
                            None => None,
                        },
                    },
                ),
        {
            proof {
                assert(all[it.index() as int] == kv@);
                assert(all.skip(it.index() as int).skip(1) =~= all.skip(it.index() + 1));
            }
            match kv {
                KeyValue::Dirs(d) => {
                    dirs = Some(d);
                },
                KeyValue::Frames(f) => {
                    frames = f;
                },
                KeyValue::Delay(f) => {
                    delays = Some(f);
                },
                KeyValue::Loop(x) => {
                    loop_flag = Some(x);
                },
                KeyValue::Rewind(x) => {
                    rewind = Some(x);
                },
                KeyValue::Movement(x) => {
                    movement = Some(x);
                },
                KeyValue::Hotspot(h) => {
                    if h.len() == 3 {
                        hotspot = Some(hotspot_of(h));
                    } else {
                        return Err(DmiError::HotspotLength(h.len()));
                    }
                },
                KeyValue::Unk(name, value) => {
                    unk = set_unknown(unk, name, value);
                },
                other => {
                    return Err(DmiError::NotAllowed(other));
                },
            }
        }
        proof {
            assert(all.skip(all.len() as int) =~= Seq::empty());
        }
        match dirs {
            None => Err(DmiError::MissingField(Key::Dirs)),
            Some(dirs) => Ok(
                State { name, dirs, frames, delays, loop_flag, rewind, movement, hotspot, unk },
            ),
        }
    }
}


/// The state block at the head of `s`: a line that holds a `state` pair,
/// and one or more property lines. A block whose properties do not make a
/// state fails where the block starts.
pub open spec fn state_spec(s: Seq<char>) -> Result<(Seq<char>, StateView), ParseErrorView> {
    match line_spec(s) {
        Err(f) => Err(f),
        Ok((rest, intro)) => match intro {
            KeyValueView::State(name) => match properties_spec(rest) {
                Err(f) => Err(f),
                Ok((tail, kvs)) => match state_from(name, kvs) {
                    Ok(state) => Ok((tail, state)),
                    Err(e) => Err(ParseErrorView { rest: s, error: e }),
                },
            },
            _ => Err(syntax_error(s, Expected::StateLine)),
        },
    }
}

/// A state block takes at least one character from the front of the input.
pub proof fn lemma_state_rest(s: Seq<char>)
    ensures
        state_spec(s) matches Ok((rest, _)) ==> rest.len() < s.len() && is_rest_of(rest, s),
{
    lemma_line_rest(s);
    match line_spec(s) {
        Err(_) => {},
        Ok((rest, _)) => {
            lemma_properties_rest(rest);
            if properties_spec(rest) is Ok {
                lemma_rest_of_rest(properties_spec(rest)->Ok_0.0, rest, s);
            }
        },
    }
}

/// Recognizes the state block at the head of `input`.
pub fn state<'a>(input: &'a str) -> (r: Result<(&'a str, State), ParseError<'a>>)
    ensures
        match r {
            Ok((rest, state)) => state_spec(input@) == Ok::<_, ParseErrorView>((rest@, state@)),
            Err(f) => state_spec(input@) == Err::<(Seq<char>, StateView), _>(f@),
        },
{
    let (rest, intro) = match line(input) {
        Ok(found) => found,
        Err(f) => {
            return Err(f);
        },
    };
    match &intro {
        KeyValue::State(_) => {},
        _ => {
            return Err(syntax(input, Expected::StateLine));
        },
    }
    let (tail, kvs) = match properties(rest) {
        Ok(found) => found,
        Err(f) => {
            return Err(f);
        },
    };
    match State::try_from((intro, kvs)) {
        Ok(state) => Ok((tail, state)),
        Err(error) => Err(ParseError { rest: input, error }),
    }
}


/// A state is built line by line: what the properties up to and including
/// the last one make is what the last one makes of what the ones before it
/// made. So of two properties that set one field, the later one stays.
pub proof fn state_fold_by_line(kvs: Seq<KeyValueView>, kv: KeyValueView, d: StateDraft)
    ensures
        state_fold(kvs.push(kv), d) == match state_fold(kvs, d) {
            Err(e) => Err(e),
            Ok(before) => state_step(before, kv),
        },
    decreases kvs.len(),
{
    let all = kvs.push(kv);
    if kvs.len() == 0 {
        assert(all.skip(1) =~= Seq::<KeyValueView>::empty());
        match state_step(d, kv) {
            Err(_) => {},
            Ok(next) => {
                assert(state_fold(all.skip(1), next) == Ok::<_, DmiErrorView>(next));
            },
        }
    } else {
        assert(all[0] == kvs[0]);
        assert(all.skip(1) =~= kvs.skip(1).push(kv));
        match state_step(d, kvs[0]) {
            Err(_) => {},
            Ok(next) => {
                state_fold_by_line(kvs.skip(1), kv, next);
            },
        }
    }
}

/// A property that no draft takes fails the fold, wherever it stands.
proof fn lemma_state_fold_fails(kvs: Seq<KeyValueView>, d: StateDraft, i: int)
    requires
        0 <= i < kvs.len(),
        forall|any: StateDraft| (#[trigger] state_step(any, kvs[i])) is Err,
    ensures
        state_fold(kvs, d) is Err,
    decreases kvs.len(),
{
    match state_step(d, kvs[0]) {
        Err(_) => {},
        Ok(next) => {
            assert(i > 0);
            assert(kvs.skip(1)[i - 1] == kvs[i]);
            lemma_state_fold_fails(kvs.skip(1), next, i - 1);
        },
    }
}

/// The pair stage takes a hotspot of any length; a state takes only one of
/// three numbers, and fails on any other, wherever it stands among the
/// properties.
pub proof fn hotspot_has_three_numbers(name: Seq<char>, kvs: Seq<KeyValueView>, i: int)
    requires
        0 <= i < kvs.len(),
        kvs[i] matches KeyValueView::Hotspot(h) && h.len() != 3,
    ensures
        state_from(name, kvs) is Err,
        typed_spec(KeyView::Hotspot, ValueView::List(kvs[i]->Hotspot_0)) == Ok::<_, DmiErrorView>(
            kvs[i],
        ),
{
    lemma_state_fold_fails(kvs, state_start(), i);
}

/// A pair that belongs to the header, or a second `state`, fails the state
/// wherever it stands among the properties.
pub proof fn state_takes_its_own_keys_only(name: Seq<char>, kvs: Seq<KeyValueView>, i: int)
    requires
        0 <= i < kvs.len(),
        kvs[i] is Version || kvs[i] is Width || kvs[i] is Height || kvs[i] is State,
    ensures
        state_from(name, kvs) is Err,
{
    lemma_state_fold_fails(kvs, state_start(), i);
}

/// Whether the pair sets the unknown field `name`.
pub open spec fn sets_unknown(kv: KeyValueView, name: Seq<char>) -> bool {
    kv matches KeyValueView::Unk(k, _) && k == name
}

/// What a draft holds under an unknown name stays, as long as no property
/// sets that name.
proof fn lemma_state_fold_keeps_unknown(
    kvs: Seq<KeyValueView>,
    d: StateDraft,
    name: Seq<char>,
    value: ValueView,
)
    requires
        d.unk matches Some(m) && m.contains_key(name) && m[name] == value,
        forall|j: int| 0 <= j < kvs.len() ==> !sets_unknown(#[trigger] kvs[j], name),
        state_fold(kvs, d) is Ok,
    ensures
        state_fold(kvs, d)->Ok_0.unk matches Some(m) && m.contains_key(name) && m[name]
            == value,
    decreases kvs.len(),
{
    if kvs.len() > 0 {
        let next = state_step(d, kvs[0])->Ok_0;
        assert(!sets_unknown(kvs[0], name));
        assert forall|j: int| 0 <= j < kvs.skip(1).len() implies !sets_unknown(
            #[trigger] kvs.skip(1)[j],
            name,
        ) by {
            assert(kvs.skip(1)[j] == kvs[j + 1]);
        }
        lemma_state_fold_keeps_unknown(kvs.skip(1), next, name, value);
    }
}

/// Where the fold from any draft succeeds, the unknown name that a property
/// sets last holds that property's value in the end.
proof fn lemma_state_fold_sets_unknown(kvs: Seq<KeyValueView>, d: StateDraft, i: int)
    requires
        0 <= i < kvs.len(),
        kvs[i] is Unk,
        forall|j: int| i < j < kvs.len() ==> !sets_unknown(#[trigger] kvs[j], kvs[i]->Unk_0),
        state_fold(kvs, d) is Ok,
    ensures
        state_fold(kvs, d)->Ok_0.unk matches Some(m) && m.contains_key(kvs[i]->Unk_0) && m[kvs[i]->Unk_0]
            == kvs[i]->Unk_1,
    decreases kvs.len(),
{
    let next = state_step(d, kvs[0])->Ok_0;
    let rest = kvs.skip(1);
    if i == 0 {
        assert forall|j: int| 0 <= j < rest.len() implies !sets_unknown(
            #[trigger] rest[j],
            kvs[0]->Unk_0,
        ) by {
            assert(rest[j] == kvs[j + 1]);
        }
        lemma_state_fold_keeps_unknown(rest, next, kvs[0]->Unk_0, kvs[0]->Unk_1);
    } else {
        assert(rest[i - 1] == kvs[i]);
        assert forall|j: int| i - 1 < j < rest.len() implies !sets_unknown(
            #[trigger] rest[j],
            rest[i - 1]->Unk_0,
        ) by {
            assert(rest[j] == kvs[j + 1]);
        }
        lemma_state_fold_sets_unknown(rest, next, i - 1);
    }
}

/// A property with an unknown key is kept among the state's unknown fields,
/// under its name and with its value, unless a later property sets the same
/// name.
pub proof fn state_keeps_unknown_keys(name: Seq<char>, kvs: Seq<KeyValueView>, i: int)
    requires
        0 <= i < kvs.len(),
        kvs[i] is Unk,
        forall|j: int| i < j < kvs.len() ==> !sets_unknown(#[trigger] kvs[j], kvs[i]->Unk_0),
        state_from(name, kvs) is Ok,
    ensures
        state_from(name, kvs)->Ok_0.unk matches Some(m) && m.contains_key(kvs[i]->Unk_0) && m[kvs[i]->Unk_0]
            == kvs[i]->Unk_1,
{
    lemma_state_fold_sets_unknown(kvs, state_start(), i);
}

/// A field that no property sets keeps what the draft held.
proof fn lemma_state_fold_untouched(kvs: Seq<KeyValueView>, d: StateDraft)
    requires
        state_fold(kvs, d) is Ok,
    ensures
        ({
            let e = state_fold(kvs, d)->Ok_0;
            &&& (forall|j: int| 0 <= j < kvs.len() ==> !(#[trigger] kvs[j] is Dirs)) ==> e.dirs
                == d.dirs
            &&& (forall|j: int| 0 <= j < kvs.len() ==> !(#[trigger] kvs[j] is Frames))
                ==> e.frames == d.frames
            &&& (forall|j: int| 0 <= j < kvs.len() ==> !(#[trigger] kvs[j] is Delay))
                ==> e.delays == d.delays
            &&& (forall|j: int| 0 <= j < kvs.len() ==> !(#[trigger] kvs[j] is Loop))
                ==> e.loop_flag == d.loop_flag
            &&& (forall|j: int| 0 <= j < kvs.len() ==> !(#[trigger] kvs[j] is Rewind))
                ==> e.rewind == d.rewind
            &&& (forall|j: int| 0 <= j < kvs.len() ==> !(#[trigger] kvs[j] is Movement))
                ==> e.movement == d.movement
            &&& (forall|j: int| 0 <= j < kvs.len() ==> !(#[trigger] kvs[j] is Hotspot))
                ==> e.hotspot == d.hotspot
            &&& (forall|j: int| 0 <= j < kvs.len() ==> !(#[trigger] kvs[j] is Unk)) ==> e.unk
                == d.unk
        }),
    decreases kvs.len(),
{
    if kvs.len() > 0 {
        let next = state_step(d, kvs[0])->Ok_0;
        let rest = kvs.skip(1);
        lemma_state_fold_untouched(rest, next);
        assert(forall|j: int| 0 <= j < rest.len() ==> #[trigger] rest[j] == kvs[j + 1]);
        let e = state_fold(kvs, d)->Ok_0;
        if forall|j: int| 0 <= j < kvs.len() ==> !(#[trigger] kvs[j] is Dirs) {
            assert(!(kvs[0] is Dirs));
            assert forall|j: int| 0 <= j < rest.len() implies !(#[trigger] rest[j] is Dirs) by {
                assert(!(kvs[j + 1] is Dirs));
            }
        }
        if forall|j: int| 0 <= j < kvs.len() ==> !(#[trigger] kvs[j] is Frames) {
            assert(!(kvs[0] is Frames));
            assert forall|j: int| 0 <= j < rest.len() implies !(#[trigger] rest[j] is Frames) by {
                assert(!(kvs[j + 1] is Frames));
            }
        }
        if forall|j: int| 0 <= j < kvs.len() ==> !(#[trigger] kvs[j] is Delay) {
            assert(!(kvs[0] is Delay));
            assert forall|j: int| 0 <= j < rest.len() implies !(#[trigger] rest[j] is Delay) by {
                assert(!(kvs[j + 1] is Delay));
            }
        }
        if forall|j: int| 0 <= j < kvs.len() ==> !(#[trigger] kvs[j] is Loop) {
            assert(!(kvs[0] is Loop));
            assert forall|j: int| 0 <= j < rest.len() implies !(#[trigger] rest[j] is Loop) by {
                assert(!(kvs[j + 1] is Loop));
            }
        }
        if forall|j: int| 0 <= j < kvs.len() ==> !(#[trigger] kvs[j] is Rewind) {
            assert(!(kvs[0] is Rewind));
            assert forall|j: int| 0 <= j < rest.len() implies !(#[trigger] rest[j] is Rewind) by {
                assert(!(kvs[j + 1] is Rewind));
            }
        }
        if forall|j: int| 0 <= j < kvs.len() ==> !(#[trigger] kvs[j] is Movement) {
            assert(!(kvs[0] is Movement));
            assert forall|j: int| 0 <= j < rest.len() implies !(#[trigger] rest[j] is Movement) by {
                assert(!(kvs[j + 1] is Movement));
            }
        }
        if forall|j: int| 0 <= j < kvs.len() ==> !(#[trigger] kvs[j] is Hotspot) {
            assert(!(kvs[0] is Hotspot));
            assert forall|j: int| 0 <= j < rest.len() implies !(#[trigger] rest[j] is Hotspot) by {
                assert(!(kvs[j + 1] is Hotspot));
            }
        }
        if forall|j: int| 0 <= j < kvs.len() ==> !(#[trigger] kvs[j] is Unk) {
            assert(!(kvs[0] is Unk));
            assert forall|j: int| 0 <= j < rest.len() implies !(#[trigger] rest[j] is Unk) by {
                assert(!(kvs[j + 1] is Unk));
            }
        }
    }
}

/// A state must be given its direction count, and has one frame unless it
/// is given another number; every other field that no property sets is
/// absent.
pub proof fn state_defaults(name: Seq<char>, kvs: Seq<KeyValueView>)
    ensures
        (forall|j: int| 0 <= j < kvs.len() ==> !(#[trigger] kvs[j] is Dirs)) ==> state_from(
            name,
            kvs,
        ) is Err,
        state_from(name, kvs) matches Ok(state) ==> {
            &&& state.name == name
            &&& (forall|j: int| 0 <= j < kvs.len() ==> !(#[trigger] kvs[j] is Frames))
                ==> state.frames == 1
            &&& (forall|j: int| 0 <= j < kvs.len() ==> !(#[trigger] kvs[j] is Delay))
                ==> state.delays is None
            &&& (forall|j: int| 0 <= j < kvs.len() ==> !(#[trigger] kvs[j] is Loop))
                ==> state.loop_flag is None
            &&& (forall|j: int| 0 <= j < kvs.len() ==> !(#[trigger] kvs[j] is Rewind))
                ==> state.rewind is None
            &&& (forall|j: int| 0 <= j < kvs.len() ==> !(#[trigger] kvs[j] is Movement))
                ==> state.movement is None
            &&& (forall|j: int| 0 <= j < kvs.len() ==> !(#[trigger] kvs[j] is Hotspot))
                ==> state.hotspot is None
            &&& (forall|j: int| 0 <= j < kvs.len() ==> !(#[trigger] kvs[j] is Unk))
                ==> state.unk is None
        },
{
    if state_fold(kvs, state_start()) is Ok {
        lemma_state_fold_untouched(kvs, state_start());
    }
}

/// A state block needs a property line: a `state` line that no indented
/// line follows, such as one that another `state` line follows at once, is
/// no state block.
pub proof fn state_needs_a_property_line(s: Seq<char>)
    requires
        line_spec(s) matches Ok((rest, _)) && run(rest, CharClass::Blank) == 0,
    ensures
        state_spec(s) matches Err(f) && (line_spec(s)->Ok_0.1 is State ==> f == syntax_error(
            line_spec(s)->Ok_0.0,
            Expected::Indent,
        )),
{
}

} // verus!
