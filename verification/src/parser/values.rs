//! The literals on the right-hand side of `key = value`: quoted strings,
//! integers, decimals and comma-separated lists of decimals.

use vstd::prelude::*;
use vstd::std_specs::cmp::PartialEqSpecImpl;
use crate::error::{syntax, syntax_error, Expected, ParseError, ParseErrorView};
use crate::parser::number::{
    all_digits, decimal_digits, digits_to_u32, digits_value, lemma_decimal_digits,
    lemma_digits_literal, lemma_literal, literal, literal_spec, normal_form_keeps_the_number,
    normal_number, Lexeme, Literal, Number, NumberView,
};
use crate::parser::text::{
    in_class, is_rest_of, lemma_rest_of_rest, lemma_skip_is_rest, lemma_until, lemma_until_is, one,
    same_text, take_until, until, CharClass,
};

verus! {

/// A literal on the right-hand side of a key.
#[derive(Debug)]
pub enum Value {
    Int(u32),
    Float(Number),
    String(String),
    List(Vec<Number>),
}

/// The model of a [`Value`].
pub enum ValueView {
    Int(u32),
    Float(NumberView),
    String(Seq<char>),
    List(Seq<NumberView>),
}

/// The models of a sequence of numbers, in order.
pub open spec fn numbers_view(v: Seq<Number>) -> Seq<NumberView> {
    v.map_values(|d: Number| d@)
}

impl View for Value {
    type V = ValueView;

    open spec fn view(&self) -> ValueView {
        match self {
            Value::Int(n) => ValueView::Int(*n),
            Value::Float(d) => ValueView::Float(d@),
            Value::String(s) => ValueView::String(s@),
            Value::List(v) => ValueView::List(numbers_view(v@)),
        }
    }
}

/// A copy of `numbers`.
pub fn clone_numbers(numbers: &Vec<Number>) -> (r: Vec<Number>)
    ensures
        numbers_view(r@) == numbers_view(numbers@),
{
    let mut out: Vec<Number> = Vec::new();
    let mut i: usize = 0;
    while i < numbers.len()
        invariant
            i <= numbers@.len(),
            out@.len() == i,
            forall|j: int| 0 <= j < i ==> (#[trigger] out@[j])@ == numbers@[j]@,
        decreases numbers@.len() - i,
    {
        out.push(numbers[i].clone());
        i += 1;
    }
    assert(numbers_view(out@) =~= numbers_view(numbers@));
    out
}

/// Whether two sequences hold the same numbers in the same order.
pub fn same_numbers(a: &Vec<Number>, b: &Vec<Number>) -> (r: bool)
    ensures
        r == (numbers_view(a@) == numbers_view(b@)),
{
    if a.len() != b.len() {
        assert(numbers_view(a@).len() != numbers_view(b@).len());
        return false;
    }
    let mut i: usize = 0;
    while i < a.len()
        invariant
            i <= a@.len(),
            a@.len() == b@.len(),
            forall|j: int| 0 <= j < i ==> (#[trigger] a@[j])@ == b@[j]@,
        decreases a@.len() - i,
    {
        if !(a[i] == b[i]) {
            assert(numbers_view(a@)[i as int] != numbers_view(b@)[i as int]);
            return false;
        }
        i += 1;
    }
    assert(numbers_view(a@) =~= numbers_view(b@));
    true
}

impl Clone for Value {
    fn clone(&self) -> (r: Value)
        ensures
            r@ == self@,
    {
        match self {
            Value::Int(n) => Value::Int(*n),
            Value::Float(d) => Value::Float(d.clone()),
            Value::String(s) => Value::String(s.clone()),
            Value::List(v) => Value::List(clone_numbers(v)),
        }
    }
}

impl PartialEq for Value {
    fn eq(&self, other: &Value) -> (r: bool) {
        match (self, other) {
            (Value::Int(a), Value::Int(b)) => *a == *b,
            (Value::Float(a), Value::Float(b)) => a == b,
            (Value::String(a), Value::String(b)) => same_text(a.as_str(), b.as_str()),
            (Value::List(a), Value::List(b)) => same_numbers(a, b),
            _ => false,
        }
    }
}

impl PartialEqSpecImpl for Value {
    open spec fn obeys_eq_spec() -> bool {
        true
    }

    open spec fn eq_spec(&self, other: &Value) -> bool {
        self@ == other@
    }
}

/// The value of a number literal that stands alone: an integer where it is
/// written as plain digits and fits 32 bits, a float otherwise.
pub open spec fn scalar_spec(l: Literal) -> ValueView {
    if !l.signed && l.fraction.len() == 0 && digits_value(l.whole) <= u32::MAX {
        ValueView::Int(digits_value(l.whole) as u32)
    } else {
        ValueView::Float(l.number())
    }
}

/// The numbers of a list behind its first: each a comma and a number
/// literal, as long as a comma follows. They are added to `acc` in order.
/// A comma that no number follows is a failure.
pub open spec fn items_spec(s: Seq<char>, acc: Seq<NumberView>) -> Result<
    (Seq<char>, Seq<NumberView>),
    ParseErrorView,
>
    decreases s.len(),
{
    if s.len() > 0 && s[0] == ',' {
        match literal_spec(s.skip(1)) {
            None => Err(syntax_error(s.skip(1), Expected::Number)),
            Some(l) => {
                proof {
                    lemma_literal(s.skip(1));
                }
                items_spec(l.rest, acc.push(l.number()))
            },
        }
    } else {
        Ok((s, acc))
    }
}

/// The value at the head of `s`, and the input behind it.
///
/// A quote opens a string, which runs to the next quote; nothing in it is an
/// escape. Anything else must be a number literal: where a comma follows it,
/// it is the first number of a list, else it stands alone.
pub open spec fn atom_spec(s: Seq<char>) -> Result<(Seq<char>, ValueView), ParseErrorView> {
    if s.len() > 0 && s[0] == '"' {
        let body = s.skip(1);
        let n = until(body, '"');
        if n < body.len() {
            Ok((body.skip(n as int + 1), ValueView::String(body.take(n as int))))
        } else {
            Err(syntax_error(s, Expected::ClosingQuote))
        }
    } else {
        match literal_spec(s) {
            None => Err(syntax_error(s, Expected::Value)),
            Some(first) => if first.rest.len() > 0 && first.rest[0] == ',' {
                match items_spec(first.rest, seq![first.number()]) {
                    Ok((rest, items)) => Ok((rest, ValueView::List(items))),
                    Err(f) => Err(f),
                }
            } else {
                Ok((first.rest, scalar_spec(first)))
            },
        }
    }
}

/// The value of a number literal that stands alone.
fn scalar(x: &Lexeme, Ghost(rest): Ghost<Seq<char>>) -> (r: Value)
    requires
        x.whole@.len() > 0,
        all_digits(x.whole@),
        all_digits(x.fraction@),
    ensures
        r@ == scalar_spec(
            Literal {
                signed: x.signed,
                negative: x.negative,
                whole: x.whole@,
                fraction: x.fraction@,
                rest,
            },
        ),
{
    if !x.signed && x.fraction.is_empty() {
        match digits_to_u32(x.whole) {
            Some(n) => Value::Int(n),
            None => Value::Float(x.number()),
        }
    } else {
        Value::Float(x.number())
    }
}

/// Recognizes the value at the head of `input`.
pub fn atom<'a>(input: &'a str) -> (r: Result<(&'a str, Value), ParseError<'a>>)
    ensures
        match r {
            Ok((rest, value)) => atom_spec(input@) == Ok::<_, ParseErrorView>((rest@, value@)),
            Err(f) => atom_spec(input@) == Err::<(Seq<char>, ValueView), _>(f@),
        },
{
    proof {
        reveal_strlit("\"");
        reveal_strlit(",");
    }
    match one("\"", input) {
        Some(body) => match take_until("\"", body) {
            Some((closing, text)) => {
                proof {
                    let n = text@.len();
                    assert(closing@ =~= body@.skip(n as int));
                    assert(text@ =~= body@.take(n as int));
                    assert(closing@[0] == "\""@[0]) by {
                        assert("\""@ =~= closing@.subrange(0, 1));
                        assert(closing@.subrange(0, 1)[0] == closing@[0]);
                    }
                    assert forall|i: int| 0 <= i < n implies #[trigger] body@[i] != '"' by {
                        if body@[i] == '"' {
                            assert(body@.skip(i).subrange(0, 1) =~= "\""@);
                        }
                    }
                    lemma_until_is(body@, '"', n);
                }
                match one("\"", closing) {
                    Some(rest) => {
                        proof {
                            assert(rest@ =~= body@.skip(text@.len() as int + 1));
                        }
                        Ok((rest, Value::String(text.to_owned())))
                    },
                    None => unreached(),
                }
            },
            None => {
                proof {
                    lemma_until(body@, '"');
                    let n = until(body@, '"');
                    if n < body@.len() {
                        assert(body@.skip(n as int).subrange(0, 1) =~= "\""@);
                    }
                }
                Err(syntax(input, Expected::ClosingQuote))
            },
        },
        None => match literal(input) {
            None => Err(syntax(input, Expected::Value)),
            Some((rest, first)) => {
                proof {
                    lemma_literal(input@);
                }
                if one(",", rest).is_none() {
                    Ok((rest, scalar(&first, Ghost(rest@))))
                } else {
                    let mut items: Vec<Number> = Vec::new();
                    items.push(first.number());
                    let mut cur: &'a str = rest;
                    assert(numbers_view(items@) =~= seq![
                        normal_number(first.negative, first.whole@, first.fraction@),
                    ]);
                    loop
                        invariant
                            ","@.len() == 1,
                            ","@[0] == ',',
                            atom_spec(input@) == match items_spec(cur@, numbers_view(items@)) {
                                Ok((rest, items)) => Ok::<_, ParseErrorView>(
                                    (rest, ValueView::List(items)),
                                ),
                                Err(f) => Err(f),
                            },
                        decreases cur@.len(),
                    {
                        match one(",", cur) {
                            None => {
                                return Ok((cur, Value::List(items)));
                            },
                            Some(after) => match literal(after) {
                                None => {
                                    return Err(syntax(after, Expected::Number));
                                },
                                Some((next, x)) => {
                                    proof {
                                        lemma_literal(after@);
                                    }
                                    let ghost before = numbers_view(items@);
                                    let number = x.number();
                                    items.push(number);
                                    assert(numbers_view(items@) =~= before.push(number@));
                                    cur = next;
                                },
                            },
                        }
                    }
                }
            },
        },
    }
}

/// What follows a list is what is left of where the list's tail starts.
pub proof fn lemma_items_rest(s: Seq<char>, acc: Seq<NumberView>)
    ensures
        items_spec(s, acc) matches Ok((rest, _)) ==> is_rest_of(rest, s),
    decreases s.len(),
{
    if s.len() > 0 && s[0] == ',' {
        lemma_literal(s.skip(1));
        match literal_spec(s.skip(1)) {
            None => {},
            Some(l) => {
                lemma_items_rest(l.rest, acc.push(l.number()));
                lemma_skip_is_rest(s, 1);
                if items_spec(s, acc) is Ok {
                    let rest = items_spec(s, acc)->Ok_0.0;
                    lemma_rest_of_rest(l.rest, s.skip(1), s);
                    lemma_rest_of_rest(rest, l.rest, s);
                }
            },
        }
    } else {
        lemma_skip_is_rest(s, 0);
    }
}

/// A value takes at least one character from the front of the input.
pub proof fn lemma_atom_rest(s: Seq<char>)
    ensures
        atom_spec(s) matches Ok((rest, _)) ==> rest.len() < s.len() && is_rest_of(rest, s),
{
    if s.len() > 0 && s[0] == '"' {
        let body = s.skip(1);
        lemma_until(body, '"');
        let n = until(body, '"');
        if n < body.len() {
            lemma_skip_is_rest(s, 1);
            lemma_skip_is_rest(body, n as int + 1);
            lemma_rest_of_rest(body.skip(n as int + 1), body, s);
        }
    } else {
        lemma_literal(s);
        match literal_spec(s) {
            None => {},
            Some(first) => {
                lemma_items_rest(first.rest, seq![first.number()]);
                if items_spec(first.rest, seq![first.number()]) is Ok {
                    let rest = items_spec(first.rest, seq![first.number()])->Ok_0.0;
                    lemma_rest_of_rest(rest, first.rest, s);
                }
            },
        }
    }
}

/// A list holds what it started from and a number for each comma.
proof fn lemma_items_grow(s: Seq<char>, acc: Seq<NumberView>)
    ensures
        items_spec(s, acc) matches Ok((_, items)) ==> items.len() >= acc.len() && (s.len() > 0
            && s[0] == ',' ==> items.len() > acc.len()),
    decreases s.len(),
{
    if s.len() > 0 && s[0] == ',' {
        lemma_literal(s.skip(1));
        match literal_spec(s.skip(1)) {
            None => {},
            Some(l) => {
                lemma_items_grow(l.rest, acc.push(l.number()));
            },
        }
    }
}

/// A list holds two numbers or more: one number alone is no list.
pub proof fn a_list_holds_two_numbers_or_more(s: Seq<char>)
    ensures
        atom_spec(s) matches Ok((_, ValueView::List(items))) ==> items.len() >= 2,
{
    match literal_spec(s) {
        None => {},
        Some(first) => {
            lemma_items_grow(first.rest, seq![first.number()]);
        },
    }
}

/// A list of numbers in normal form stays one as numbers are added.
proof fn lemma_items_normal(s: Seq<char>, acc: Seq<NumberView>)
    requires
        forall|i: int| 0 <= i < acc.len() ==> (#[trigger] acc[i]).is_normal(),
    ensures
        items_spec(s, acc) matches Ok((_, items)) ==> forall|i: int|
            0 <= i < items.len() ==> (#[trigger] items[i]).is_normal(),
    decreases s.len(),
{
    if s.len() > 0 && s[0] == ',' {
        lemma_literal(s.skip(1));
        match literal_spec(s.skip(1)) {
            None => {},
            Some(l) => {
                normal_form_keeps_the_number(l.negative, l.whole, l.fraction);
                lemma_items_normal(l.rest, acc.push(l.number()));
            },
        }
    }
}

/// Every number that is read is in normal form, and is the number that its
/// literal writes.
pub proof fn numbers_are_read_in_normal_form(s: Seq<char>)
    ensures
        literal_spec(s) matches Some(l) ==> l.number().is_normal() && l.number().same_number(
            NumberView { negative: l.negative, whole: l.whole, fraction: l.fraction },
        ),
        atom_spec(s) matches Ok((_, ValueView::Float(v))) ==> v.is_normal(),
        atom_spec(s) matches Ok((_, ValueView::List(items))) ==> forall|i: int|
            0 <= i < items.len() ==> (#[trigger] items[i]).is_normal(),
{
    lemma_literal(s);
    match literal_spec(s) {
        None => {},
        Some(first) => {
            normal_form_keeps_the_number(first.negative, first.whole, first.fraction);
            lemma_items_normal(first.rest, seq![first.number()]);
        },
    }
}

/// The digits of a number that fits 32 bits are read as that integer, where
/// what follows them goes on with neither a digit, a point nor a comma.
pub proof fn lemma_integer_atom(n: u32, tail: Seq<char>)
    requires
        tail.len() > 0 ==> !in_class(tail[0], CharClass::Digit) && tail[0] != '.' && tail[0]
            != ',',
    ensures
        atom_spec(decimal_digits(n as nat) + tail) == Ok::<_, ParseErrorView>(
            (tail, ValueView::Int(n)),
        ),
{
    let d = decimal_digits(n as nat);
    lemma_decimal_digits(n as nat);
    lemma_digits_literal(d, tail);
    assert(in_class(d[0], CharClass::Digit));
    assert((d + tail)[0] == d[0]);
}

} // verus!
