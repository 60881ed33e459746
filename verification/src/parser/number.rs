//! Exact decimal numbers: what a run of digits stands for, the one normal
//! form in which a number is kept, and the number literal of the grammar.

use vstd::prelude::*;
use vstd::std_specs::cmp::PartialEqSpecImpl;
use vstd::string::StringSliceAdditionalSpecFns;
use crate::parser::text::{digit1, in_class, lemma_run, lemma_run_is, one, run, CharClass};

verus! {

/// Whether every character of `s` is a decimal digit.
pub open spec fn all_digits(s: Seq<char>) -> bool {
    forall|i: int| 0 <= i < s.len() ==> in_class(#[trigger] s[i], CharClass::Digit)
}

/// The number that the digit `c` stands for.
pub open spec fn digit_of(c: char) -> nat {
    (c as int - '0' as int) as nat
}

/// The number that a sequence of digits stands for, read in base ten.
pub open spec fn digits_value(s: Seq<char>) -> nat
    decreases s.len(),
{
    if s.len() == 0 {
        0
    } else {
        digits_value(s.drop_last()) * 10 + digit_of(s.last())
    }
}

/// The digit that stands for `d`, a number below ten.
pub open spec fn digit_char(d: nat) -> char {
    ('0' as int + d) as char
}

/// The digits of `n` in base ten, without leading zeros.
pub open spec fn decimal_digits(n: nat) -> Seq<char>
    decreases n,
{
    if n < 10 {
        seq![digit_char(n)]
    } else {
        decimal_digits(n / 10).push(digit_char(n % 10))
    }
}

/// `s` without its leading zeros, but for the last digit.
pub open spec fn trim_leading_zeros(s: Seq<char>) -> Seq<char>
    decreases s.len(),
{
    if s.len() > 1 && s[0] == '0' {
        trim_leading_zeros(s.skip(1))
    } else {
        s
    }
}

/// `s` without its trailing zeros.
pub open spec fn trim_trailing_zeros(s: Seq<char>) -> Seq<char>
    decreases s.len(),
{
    if s.len() > 0 && s.last() == '0' {
        trim_trailing_zeros(s.drop_last())
    } else {
        s
    }
}

/// Ten to the power of `k`.
pub open spec fn pow10(k: nat) -> nat
    decreases k,
{
    if k == 0 {
        1
    } else {
        10 * pow10((k - 1) as nat)
    }
}

/// The model of a [`Number`]: the number `whole.fraction`, negated where
/// `negative` holds, each part written in decimal digits.
pub struct NumberView {
    pub negative: bool,
    pub whole: Seq<char>,
    pub fraction: Seq<char>,
}

impl NumberView {
    /// Whether the number is written in its one normal form: digits only, a
    /// whole part without needless leading zeros, a fraction without trailing
    /// zeros, and no sign on zero.
    pub open spec fn is_normal(self) -> bool {
        &&& self.whole.len() > 0
        &&& all_digits(self.whole)
        &&& all_digits(self.fraction)
        &&& trim_leading_zeros(self.whole) == self.whole
        &&& trim_trailing_zeros(self.fraction) == self.fraction
        &&& self.negative ==> !self.is_zero()
    }

    /// Whether the number is written as zero.
    pub open spec fn is_zero(self) -> bool {
        self.whole == seq!['0'] && self.fraction.len() == 0
    }

    /// How many digits stand behind the point.
    pub open spec fn scale(self) -> nat {
        self.fraction.len()
    }

    /// The number times ten to the power of its scale, which is an integer.
    pub open spec fn scaled(self) -> int {
        let magnitude = digits_value(self.whole) * pow10(self.scale()) + digits_value(
            self.fraction,
        );
        if self.negative {
            -(magnitude as int)
        } else {
            magnitude as int
        }
    }

    /// Whether the two are one number, however each is written.
    pub open spec fn same_number(self, other: NumberView) -> bool {
        self.scaled() * pow10(other.scale()) == other.scaled() * pow10(self.scale())
    }
}

/// The whole number `n`.
pub open spec fn whole_number(n: nat) -> NumberView {
    NumberView { negative: false, whole: decimal_digits(n), fraction: Seq::empty() }
}

/// The normal form of the number written as `whole.fraction` with a sign.
pub open spec fn normal_number(negative: bool, whole: Seq<char>, fraction: Seq<char>) -> NumberView {
    let w = trim_leading_zeros(whole);
    let f = trim_trailing_zeros(fraction);
    NumberView { negative: negative && !(w == seq!['0'] && f.len() == 0), whole: w, fraction: f }
}

/// The text of a number: a minus where it is negative, the whole part, and
/// where there is a fraction, a point and the fraction.
pub open spec fn number_text(v: NumberView) -> Seq<char> {
    let sign = if v.negative {
        seq!['-']
    } else {
        Seq::<char>::empty()
    };
    let fraction = if v.fraction.len() > 0 {
        seq!['.'] + v.fraction
    } else {
        Seq::<char>::empty()
    };
    sign + v.whole + fraction
}

/// A number literal as it stands in the text, and what follows it.
pub struct Literal {
    /// Whether the literal starts with a sign.
    pub signed: bool,
    /// Whether that sign is a minus.
    pub negative: bool,
    /// The digits in front of the point.
    pub whole: Seq<char>,
    /// The digits behind the point; empty where there is no point.
    pub fraction: Seq<char>,
    /// The input behind the literal.
    pub rest: Seq<char>,
}

/// The number literal at the head of `s`: an optional sign, one or more
/// digits, and optionally a point with one or more digits behind it. A point
/// that no digit follows is not part of the literal.
pub open spec fn literal_spec(s: Seq<char>) -> Option<Literal> {
    let signed = s.len() > 0 && (s[0] == '+' || s[0] == '-');
    let negative = s.len() > 0 && s[0] == '-';
    let body = if signed { s.skip(1) } else { s };
    let w = run(body, CharClass::Digit);
    let after = body.skip(w as int);
    let f = if after.len() > 0 && after[0] == '.' {
        run(after.skip(1), CharClass::Digit)
    } else {
        0
    };
    if w == 0 {
        None
    } else if f == 0 {
        Some(Literal { signed, negative, whole: body.take(w as int), fraction: Seq::empty(), rest: after })
    } else {
        Some(
            Literal {
                signed,
                negative,
                whole: body.take(w as int),
                fraction: after.skip(1).take(f as int),
                rest: after.skip(1).skip(f as int),
            },
        )
    }
}

impl Literal {
    /// The number that the literal denotes.
    pub open spec fn number(self) -> NumberView {
        normal_number(self.negative, self.whole, self.fraction)
    }
}

/// An exact decimal number of any length. It is kept in its normal form, so
/// that two of them are equal exactly when they are one number.
#[derive(Debug, Eq)]
pub struct Number {
    negative: bool,
    whole: String,
    fraction: String,
}

impl View for Number {
    type V = NumberView;

    closed spec fn view(&self) -> NumberView {
        NumberView { negative: self.negative, whole: self.whole@, fraction: self.fraction@ }
    }
}

impl Clone for Number {
    fn clone(&self) -> (r: Number)
        ensures
            r@ == self@,
    {
        proof {
            use_type_invariant(self);
        }
        Number {
            negative: self.negative,
            whole: self.whole.clone(),
            fraction: self.fraction.clone(),
        }
    }
}

impl PartialEq for Number {
    fn eq(&self, other: &Number) -> (r: bool) {
        self.negative == other.negative && self.whole == other.whole && self.fraction
            == other.fraction
    }
}

impl PartialEqSpecImpl for Number {
    open spec fn obeys_eq_spec() -> bool {
        true
    }

    open spec fn eq_spec(&self, other: &Number) -> bool {
        self@ == other@
    }
}

/// Digits are ASCII.
proof fn lemma_digits_ascii(s: &str)
    requires
        all_digits(s@),
    ensures
        s.is_ascii(),
        s.spec_bytes().len() == s@.len(),
        forall|i: int| 0 <= i < s@.len() ==> #[trigger] s.spec_bytes()[i] == s@[i] as u8,
{
    assert forall|i: int| 0 <= i < s@.len() implies '\0' <= #[trigger] s@[i] <= '\u{7f}' by {
        assert(in_class(s@[i], CharClass::Digit));
    }
    vstd::string::is_ascii_spec_bytes(s);
}

/// Where the zeros in front end, trimming starts.
proof fn lemma_trim_leading(s: Seq<char>, i: nat)
    requires
        i < s.len(),
        forall|j: int| 0 <= j < i ==> #[trigger] s[j] == '0',
        i + 1 == s.len() || s[i as int] != '0',
    ensures
        trim_leading_zeros(s) == s.skip(i as int),
    decreases i,
{
    if i == 0 {
        assert(s.skip(0) =~= s);
    } else {
        let t = s.skip(1);
        assert forall|j: int| 0 <= j < i - 1 implies #[trigger] t[j] == '0' by {
            assert(t[j] == s[j + 1]);
        }
        lemma_trim_leading(t, (i - 1) as nat);
        assert(t.skip(i - 1) =~= s.skip(i as int));
    }
}

/// Where the zeros at the end start, trimming ends.
proof fn lemma_trim_trailing(s: Seq<char>, n: nat)
    requires
        n <= s.len(),
        forall|j: int| n <= j < s.len() ==> #[trigger] s[j] == '0',
        n == 0 || s[n - 1] != '0',
    ensures
        trim_trailing_zeros(s) == s.take(n as int),
    decreases s.len() - n,
{
    if n == s.len() {
        assert(s.take(n as int) =~= s);
    } else {
        let t = s.drop_last();
        lemma_trim_trailing(t, n);
        assert(t.take(n as int) =~= s.take(n as int));
    }
}

/// `s` without its leading zeros, but for the last digit.
fn without_leading_zeros<'a>(s: &'a str) -> (r: &'a str)
    requires
        s@.len() > 0,
        all_digits(s@),
    ensures
        r@ == trim_leading_zeros(s@),
        r@.len() > 0,
        all_digits(r@),
        trim_leading_zeros(r@) == r@,
{
    proof {
        lemma_digits_ascii(s);
    }
    let bytes = s.as_bytes();
    let mut i: usize = 0;
    while i + 1 < bytes.len() && bytes[i] == 48u8
        invariant
            bytes@ == s.spec_bytes(),
            bytes@.len() == s@.len(),
            i < bytes.len(),
            all_digits(s@),
            forall|j: int| 0 <= j < s@.len() ==> #[trigger] s.spec_bytes()[j] == s@[j] as u8,
            forall|j: int| 0 <= j < i ==> #[trigger] s@[j] == '0',
        decreases bytes@.len() - i,
    {
        assert(in_class(s@[i as int], CharClass::Digit));
        i += 1;
    }
    let r = s.substring_ascii(i, bytes.len());
    proof {
        assert(in_class(s@[i as int], CharClass::Digit));
        lemma_trim_leading(s@, i as nat);
        assert(r@ =~= s@.skip(i as int));
        assert forall|j: int| 0 <= j < r@.len() implies in_class(#[trigger] r@[j], CharClass::Digit) by {
            assert(r@[j] == s@[j + i]);
        }
        if r@.len() > 1 {
            assert(r@[0] == s@[i as int]);
        }
    }
    r
}

/// `s` without its trailing zeros.
fn without_trailing_zeros<'a>(s: &'a str) -> (r: &'a str)
    requires
        all_digits(s@),
    ensures
        r@ == trim_trailing_zeros(s@),
        all_digits(r@),
        trim_trailing_zeros(r@) == r@,
{
    proof {
        lemma_digits_ascii(s);
    }
    let bytes = s.as_bytes();
    let mut n: usize = bytes.len();
    while n > 0 && bytes[n - 1] == 48u8
        invariant
            bytes@ == s.spec_bytes(),
            bytes@.len() == s@.len(),
            n <= bytes@.len(),
            all_digits(s@),
            forall|j: int| 0 <= j < s@.len() ==> #[trigger] s.spec_bytes()[j] == s@[j] as u8,
            forall|j: int| n <= j < s@.len() ==> #[trigger] s@[j] == '0',
        decreases n,
    {
        assert(in_class(s@[n - 1], CharClass::Digit));
        n -= 1;
    }
    let r = s.substring_ascii(0, n);
    proof {
        if n > 0 {
            assert(in_class(s@[n - 1], CharClass::Digit));
        }
        lemma_trim_trailing(s@, n as nat);
        assert(r@ =~= s@.take(n as int));
        assert forall|j: int| 0 <= j < r@.len() implies in_class(#[trigger] r@[j], CharClass::Digit) by {
            assert(r@[j] == s@[j]);
        }
        if r@.len() > 0 {
            assert(r@.last() == s@[n - 1]);
        }
    }
    r
}

impl Number {
    #[verifier::type_invariant]
    closed spec fn normal(self) -> bool {
        self@.is_normal()
    }

    /// The number written as `whole.fraction`, negated where `negative` holds.
    fn from_digits(negative: bool, whole: &str, fraction: &str) -> (r: Number)
        requires
            whole@.len() > 0,
            all_digits(whole@),
            all_digits(fraction@),
        ensures
            r@ == normal_number(negative, whole@, fraction@),
            r@.is_normal(),
    {
        let w = without_leading_zeros(whole);
        let f = without_trailing_zeros(fraction);
        proof {
            lemma_digits_ascii(w);
        }
        let zero = w.len() == 1 && w.as_bytes()[0] == 48u8 && f.is_empty();
        proof {
            assert(in_class(w@[0], CharClass::Digit));
            if zero {
                assert(w@ =~= seq!['0']);
            }
        }
        Number { negative: negative && !zero, whole: w.to_owned(), fraction: f.to_owned() }
    }

    /// Whether the number is below zero.
    pub fn is_negative(&self) -> (r: bool)
        ensures
            r == self@.negative,
            self@.is_normal(),
    {
        proof {
            use_type_invariant(self);
        }
        self.negative
    }

    /// The digits in front of the point.
    pub fn whole(&self) -> (r: &str)
        ensures
            r@ == self@.whole,
            self@.is_normal(),
    {
        proof {
            use_type_invariant(self);
        }
        self.whole.as_str()
    }

    /// The digits behind the point; empty for a whole number.
    pub fn fraction(&self) -> (r: &str)
        ensures
            r@ == self@.fraction,
            self@.is_normal(),
    {
        proof {
            use_type_invariant(self);
        }
        self.fraction.as_str()
    }
}

/// One more digit multiplies what stands before it by ten.
proof fn lemma_value_step(s: Seq<char>, i: int)
    requires
        0 <= i < s.len(),
    ensures
        digits_value(s.take(i + 1)) == digits_value(s.take(i)) * 10 + digit_of(s[i]),
{
    assert(s.take(i + 1).drop_last() =~= s.take(i));
}

/// A prefix of a run of digits stands for no more than the whole run.
proof fn lemma_value_prefix(s: Seq<char>, i: int)
    requires
        0 <= i <= s.len(),
    ensures
        digits_value(s.take(i)) <= digits_value(s),
    decreases s.len() - i,
{
    if i == s.len() {
        assert(s.take(i) =~= s);
    } else {
        lemma_value_step(s, i);
        lemma_value_prefix(s, i + 1);
    }
}

/// The value of a run of digits, where it fits 32 bits.
pub(crate) fn digits_to_u32(s: &str) -> (r: Option<u32>)
    requires
        all_digits(s@),
    ensures
        match r {
            Some(n) => n == digits_value(s@),
            None => digits_value(s@) > u32::MAX,
        },
{
    proof {
        lemma_digits_ascii(s);
    }
    let bytes = s.as_bytes();
    let mut acc: u32 = 0;
    let mut i: usize = 0;
    while i < bytes.len()
        invariant
            bytes@ == s.spec_bytes(),
            bytes@.len() == s@.len(),
            i <= bytes.len(),
            all_digits(s@),
            forall|j: int| 0 <= j < s@.len() ==> #[trigger] s.spec_bytes()[j] == s@[j] as u8,
            acc == digits_value(s@.take(i as int)),
        decreases bytes.len() - i,
    {
        proof {
            assert(in_class(s@[i as int], CharClass::Digit));
            lemma_value_step(s@, i as int);
        }
        let digit: u8 = bytes[i] - 48u8;
        let next: u64 = acc as u64 * 10 + digit as u64;
        if next > u32::MAX as u64 {
            proof {
                lemma_value_prefix(s@, i + 1);
            }
            return None;
        }
        acc = next as u32;
        i += 1;
    }
    assert(s@.take(i as int) =~= s@);
    Some(acc)
}

/// The parts of a number literal, as slices of the input.
pub(crate) struct Lexeme<'a> {
    pub(crate) signed: bool,
    pub(crate) negative: bool,
    pub(crate) whole: &'a str,
    pub(crate) fraction: &'a str,
}

/// Recognizes the number literal at the head of `input`.
pub(crate) fn literal<'a>(input: &'a str) -> (r: Option<(&'a str, Lexeme<'a>)>)
    ensures
        match r {
            Some((rest, x)) => literal_spec(input@) == Some(
                Literal {
                    signed: x.signed,
                    negative: x.negative,
                    whole: x.whole@,
                    fraction: x.fraction@,
                    rest: rest@,
                },
            ),
            None => literal_spec(input@) is None,
        },
{
    proof {
        reveal_strlit("-");
        reveal_strlit("+");
        reveal_strlit(".");
        reveal_strlit("");
    }
    let (body, signed, negative) = match one("-", input) {
        Some(body) => (body, true, true),
        None => match one("+", input) {
            Some(body) => (body, true, false),
            None => (input, false, false),
        },
    };
    match digit1(body) {
        None => None,
        Some((after, whole)) => {
            let fraction = match one(".", after) {
                Some(digits) => digit1(digits),
                None => None,
            };
            match fraction {
                Some((rest, fraction)) => Some((rest, Lexeme { signed, negative, whole, fraction })),
                None => {
                    assert(""@ =~= Seq::<char>::empty());
                    Some((after, Lexeme { signed, negative, whole, fraction: "" }))
                },
            }
        },
    }
}

impl<'a> Lexeme<'a> {
    /// The number that the literal denotes.
    pub(crate) fn number(&self) -> (r: Number)
        requires
            self.whole@.len() > 0,
            all_digits(self.whole@),
            all_digits(self.fraction@),
        ensures
            r@ == normal_number(self.negative, self.whole@, self.fraction@),
            r@.is_normal(),
    {
        Number::from_digits(self.negative, self.whole, self.fraction)
    }
}

impl Number {
    /// The number's text, which `parse` reads back as this number.
    pub fn text(&self) -> (r: String)
        ensures
            r@ == number_text(self@),
            self@.is_normal(),
    {
        proof {
            use_type_invariant(self);
            reveal_strlit("-");
            reveal_strlit(".");
        }
        let mut out = String::new();
        if self.negative {
            out.append("-");
        }
        out.append(self.whole.as_str());
        if !self.fraction.as_str().is_empty() {
            out.append(".");
            out.append(self.fraction.as_str());
        }
        proof {
            assert("-"@ =~= seq!['-']);
            assert("."@ =~= seq!['.']);
            assert(out@ =~= number_text(self@));
        }
        out
    }

    /// Reads a number that is written as the whole of `text`.
    pub fn parse(text: &str) -> (r: Option<Number>)
        ensures
            match r {
                Some(n) => literal_spec(text@) matches Some(l) && l.rest.len() == 0 && n@
                    == l.number(),
                None => !(literal_spec(text@) matches Some(l) && l.rest.len() == 0),
            },
            r matches Some(n) ==> n@.is_normal(),
    {
        proof {
            lemma_literal(text@);
        }
        match literal(text) {
            Some((rest, x)) => if rest.is_empty() {
                Some(x.number())
            } else {
                None
            },
            None => None,
        }
    }
}

/// A literal takes at least one character, holds digits only, and leaves a
/// suffix of the input.
pub proof fn lemma_literal(s: Seq<char>)
    ensures
        literal_spec(s) matches Some(l) ==> {
            &&& l.rest.len() < s.len()
            &&& l.rest == s.skip(s.len() - l.rest.len())
            &&& l.whole.len() > 0
            &&& all_digits(l.whole)
            &&& all_digits(l.fraction)
        },
{
    let signed = s.len() > 0 && (s[0] == '+' || s[0] == '-');
    let body = if signed { s.skip(1) } else { s };
    let w = run(body, CharClass::Digit);
    lemma_run(body, CharClass::Digit);
    let after = body.skip(w as int);
    if w > 0 {
        if after.len() > 0 && after[0] == '.' {
            lemma_run(after.skip(1), CharClass::Digit);
        }
        let l = literal_spec(s).unwrap();
        assert(l.rest =~= s.skip(s.len() - l.rest.len()));
    }
}

/// The digits of a number are digits, and stand for that number.
pub proof fn lemma_decimal_digits(n: nat)
    ensures
        decimal_digits(n).len() > 0,
        all_digits(decimal_digits(n)),
        digits_value(decimal_digits(n)) == n,
    decreases n,
{
    let d = decimal_digits(n);
    if n < 10 {
        assert(d.drop_last() =~= Seq::<char>::empty());
        assert(digits_value(d.drop_last()) == 0);
    } else {
        lemma_decimal_digits(n / 10);
        assert(d.drop_last() =~= decimal_digits(n / 10));
        assert forall|i: int| 0 <= i < d.len() implies in_class(#[trigger] d[i], CharClass::Digit) by {
            if i < d.len() - 1 {
                assert(d[i] == decimal_digits(n / 10)[i]);
            }
        }
    }
}

/// A run of digits is a number literal without sign and fraction, where
/// what follows it neither goes on with a digit nor with a point.
pub proof fn lemma_digits_literal(d: Seq<char>, tail: Seq<char>)
    requires
        d.len() > 0,
        all_digits(d),
        tail.len() > 0 ==> !in_class(tail[0], CharClass::Digit) && tail[0] != '.',
    ensures
        literal_spec(d + tail) == Some(
            Literal { signed: false, negative: false, whole: d, fraction: Seq::empty(), rest: tail },
        ),
{
    let s = d + tail;
    assert(in_class(d[0], CharClass::Digit));
    assert(s[0] == d[0]);
    assert forall|i: int| 0 <= i < d.len() implies in_class(#[trigger] s[i], CharClass::Digit) by {
        assert(s[i] == d[i]);
    }
    if tail.len() > 0 {
        assert(s[d.len() as int] == tail[0]);
    }
    lemma_run_is(s, CharClass::Digit, d.len());
    assert(s.take(d.len() as int) =~= d);
    assert(s.skip(d.len() as int) =~= tail);
}

/// The text of a number in normal form is read back as that number.
pub proof fn number_text_reads_back(v: NumberView)
    requires
        v.is_normal(),
    ensures
        literal_spec(number_text(v)) matches Some(l) && l.rest.len() == 0 && l.number() == v,
{
    let s = number_text(v);
    let fraction = if v.fraction.len() > 0 {
        seq!['.'] + v.fraction
    } else {
        Seq::<char>::empty()
    };
    let body = v.whole + fraction;
    assert(in_class(v.whole[0], CharClass::Digit));
    if v.negative {
        assert(s[0] == '-');
        assert(s.skip(1) =~= body);
    } else {
        assert(s[0] == v.whole[0]);
        assert(s =~= body);
    }
    assert forall|i: int| 0 <= i < v.whole.len() implies in_class(
        #[trigger] body[i],
        CharClass::Digit,
    ) by {
        assert(body[i] == v.whole[i]);
    }
    if fraction.len() > 0 {
        assert(body[v.whole.len() as int] == '.');
    }
    lemma_run_is(body, CharClass::Digit, v.whole.len());
    let after = body.skip(v.whole.len() as int);
    assert(after =~= fraction);
    assert(body.take(v.whole.len() as int) =~= v.whole);
    if v.fraction.len() > 0 {
        assert(after.skip(1) =~= v.fraction);
        lemma_run_is(v.fraction, CharClass::Digit, v.fraction.len());
        assert(v.fraction.take(v.fraction.len() as int) =~= v.fraction);
        assert(v.fraction.skip(v.fraction.len() as int) =~= Seq::<char>::empty());
    } else {
        assert(v.fraction =~= Seq::<char>::empty());
    }
}

/// Digits without the last one are digits, and so are the first and the
/// last.
proof fn lemma_digits_front(s: Seq<char>)
    requires
        s.len() > 0,
        all_digits(s),
    ensures
        all_digits(s.drop_last()),
        in_class(s[0], CharClass::Digit),
        in_class(s.last(), CharClass::Digit),
{
    let t = s.drop_last();
    assert forall|i: int| 0 <= i < t.len() implies in_class(#[trigger] t[i], CharClass::Digit) by {
        assert(t[i] == s[i]);
    }
}

/// A zero in front adds nothing.
proof fn lemma_leading_zero_value(s: Seq<char>)
    requires
        s.len() > 0,
        s[0] == '0',
    ensures
        digits_value(s) == digits_value(s.skip(1)),
    decreases s.len(),
{
    if s.len() == 1 {
        assert(s.drop_last() =~= Seq::<char>::empty());
        assert(s.skip(1) =~= Seq::<char>::empty());
        assert(digits_value(s.drop_last()) == 0);
    } else {
        lemma_leading_zero_value(s.drop_last());
        assert(s.skip(1).drop_last() =~= s.drop_last().skip(1));
    }
}

/// Without its leading zeros a run of digits stands for the same number, is
/// not empty, and starts with a zero only where it is the one digit.
proof fn lemma_trim_leading_value(s: Seq<char>)
    requires
        s.len() > 0,
    ensures
        digits_value(trim_leading_zeros(s)) == digits_value(s),
        0 < trim_leading_zeros(s).len() <= s.len(),
        trim_leading_zeros(s).len() > 1 ==> trim_leading_zeros(s)[0] != '0',
    decreases s.len(),
{
    if s.len() > 1 && s[0] == '0' {
        lemma_leading_zero_value(s);
        lemma_trim_leading_value(s.skip(1));
    }
}

/// Each trailing zero multiplies by ten; without them a run of digits is
/// empty or ends in another digit.
proof fn lemma_trim_trailing_value(s: Seq<char>)
    ensures
        trim_trailing_zeros(s).len() <= s.len(),
        digits_value(s) == digits_value(trim_trailing_zeros(s)) * pow10(
            (s.len() - trim_trailing_zeros(s).len()) as nat,
        ),
        trim_trailing_zeros(s).len() > 0 ==> trim_trailing_zeros(s).last() != '0',
    decreases s.len(),
{
    if s.len() > 0 && s.last() == '0' {
        let t = s.drop_last();
        lemma_trim_trailing_value(t);
        let r = trim_trailing_zeros(t);
        let k = (t.len() - r.len()) as nat;
        assert(pow10(k + 1) == 10 * pow10(k));
        assert(digits_value(r) * pow10(k) * 10 == digits_value(r) * pow10(k + 1))
            by (nonlinear_arith)
            requires
                pow10(k + 1) == 10 * pow10(k),
        ;
        assert(digit_of(s.last()) == 0);
        assert(digits_value(s) == digits_value(t) * 10);
        assert(s.len() - r.len() == k + 1);
    } else {
        assert(pow10(0) == 1);
        assert(digits_value(s) * 1 == digits_value(s));
    }
}

/// Digits that do not start with a zero stand for more than nothing.
proof fn lemma_positive_value(s: Seq<char>)
    requires
        s.len() > 0,
        all_digits(s),
        s[0] != '0',
    ensures
        digits_value(s) > 0,
    decreases s.len(),
{
    lemma_digits_front(s);
    if s.len() > 1 {
        lemma_positive_value(s.drop_last());
    } else {
        assert(s.drop_last() =~= Seq::<char>::empty());
    }
}

/// Ten to a sum is the product of the powers.
proof fn lemma_pow10_adds(a: nat, b: nat)
    ensures
        pow10(a + b) == pow10(a) * pow10(b),
        pow10(a) > 0,
    decreases a,
{
    if a > 0 {
        lemma_pow10_adds((a - 1) as nat, b);
        assert(pow10(a + b) == 10 * pow10((a - 1 + b) as nat));
        assert(10 * (pow10((a - 1) as nat) * pow10(b)) == (10 * pow10((a - 1) as nat)) * pow10(b))
            by (nonlinear_arith);
    } else {
        assert(1 * pow10(b) == pow10(b));
    }
}

/// Trimming in front leaves a suffix, and nothing more to trim.
proof fn lemma_trim_leading_shape(s: Seq<char>)
    requires
        s.len() > 0,
        all_digits(s),
    ensures
        all_digits(trim_leading_zeros(s)),
        trim_leading_zeros(trim_leading_zeros(s)) == trim_leading_zeros(s),
    decreases s.len(),
{
    if s.len() > 1 && s[0] == '0' {
        let t = s.skip(1);
        assert forall|i: int| 0 <= i < t.len() implies in_class(#[trigger] t[i], CharClass::Digit) by {
            assert(t[i] == s[i + 1]);
        }
        lemma_trim_leading_shape(t);
    }
}

/// Trimming at the end leaves a prefix, and nothing more to trim.
proof fn lemma_trim_trailing_shape(s: Seq<char>)
    requires
        all_digits(s),
    ensures
        all_digits(trim_trailing_zeros(s)),
        trim_trailing_zeros(trim_trailing_zeros(s)) == trim_trailing_zeros(s),
    decreases s.len(),
{
    if s.len() > 0 && s.last() == '0' {
        lemma_digits_front(s);
        lemma_trim_trailing_shape(s.drop_last());
    }
}

/// The normal form of a number that is written in digits is in normal form,
/// and is the same number.
pub proof fn normal_form_keeps_the_number(negative: bool, whole: Seq<char>, fraction: Seq<char>)
    requires
        whole.len() > 0,
        all_digits(whole),
        all_digits(fraction),
    ensures
        normal_number(negative, whole, fraction).is_normal(),
        normal_number(negative, whole, fraction).same_number(
            NumberView { negative, whole, fraction },
        ),
{
    let v = normal_number(negative, whole, fraction);
    let w = trim_leading_zeros(whole);
    let f = trim_trailing_zeros(fraction);
    lemma_trim_leading_value(whole);
    lemma_trim_trailing_value(fraction);
    lemma_trim_leading_shape(whole);
    lemma_trim_trailing_shape(fraction);
    lemma_trim_leading_value(w);
    lemma_trim_trailing_value(f);
    assert(trim_leading_zeros(w) == w);
    assert(trim_trailing_zeros(f) == f);
    let big = digits_value(whole) as int;
    let small = digits_value(f) as int;
    let n = pow10(fraction.len()) as int;
    let m = pow10(f.len()) as int;
    let k = pow10((fraction.len() - f.len()) as nat) as int;
    assert(digits_value(fraction) == small * k);
    if w == seq!['0'] && f.len() == 0 {
        assert(w.drop_last() =~= Seq::<char>::empty());
        assert(digits_value(w.drop_last()) == 0);
        assert(big == 0);
        assert(small == 0);
        assert(0 * k == 0 && 0 * n == 0 && 0 * m == 0);
    }
    lemma_pow10_adds(f.len(), (fraction.len() - f.len()) as nat);
    assert((big * m + small) * n == (big * n + small * k) * m) by (nonlinear_arith)
        requires
            n == m * k,
    ;
    assert((-(big * m + small)) * n == (-(big * n + small * k)) * m) by (nonlinear_arith)
        requires
            (big * m + small) * n == (big * n + small * k) * m,
    ;
}

/// Digits stand for less than ten to the power of their count.
proof fn lemma_value_below(s: Seq<char>)
    requires
        all_digits(s),
    ensures
        digits_value(s) < pow10(s.len()),
    decreases s.len(),
{
    if s.len() > 0 {
        lemma_digits_front(s);
        lemma_value_below(s.drop_last());
    }
}

/// Digits that do not start with a zero stand for no less than ten to the
/// power of their count less one.
proof fn lemma_value_above(s: Seq<char>)
    requires
        s.len() > 0,
        all_digits(s),
        s[0] != '0',
    ensures
        digits_value(s) >= pow10((s.len() - 1) as nat),
    decreases s.len(),
{
    lemma_digits_front(s);
    if s.len() > 1 {
        lemma_value_above(s.drop_last());
    } else {
        assert(s.drop_last() =~= Seq::<char>::empty());
    }
}

/// Ten to a greater power is no less.
proof fn lemma_pow10_grows(a: nat, b: nat)
    requires
        a <= b,
    ensures
        pow10(a) <= pow10(b),
    decreases b,
{
    if a < b {
        lemma_pow10_grows(a, (b - 1) as nat);
    }
}

/// As many digits that stand for one number are the same digits.
proof fn lemma_same_digits(s: Seq<char>, t: Seq<char>)
    requires
        all_digits(s),
        all_digits(t),
        s.len() == t.len(),
        digits_value(s) == digits_value(t),
    ensures
        s == t,
    decreases s.len(),
{
    if s.len() > 0 {
        let a = s.drop_last();
        let b = t.drop_last();
        lemma_digits_front(s);
        lemma_digits_front(t);
        lemma_same_digits(a, b);
        assert(s =~= a.push(s.last()));
        assert(t =~= b.push(t.last()));
    } else {
        assert(s =~= t);
    }
}

/// A whole part in normal form that stands for nothing is the one digit 0.
proof fn lemma_zero_whole(w: Seq<char>)
    requires
        w.len() > 0,
        all_digits(w),
        trim_leading_zeros(w) == w,
        digits_value(w) == 0,
    ensures
        w == seq!['0'],
{
    lemma_trim_leading_value(w);
    if w.len() > 1 {
        lemma_positive_value(w);
    } else {
        assert(w.drop_last() =~= Seq::<char>::empty());
        assert(in_class(w[0], CharClass::Digit));
        assert(w =~= seq!['0']);
    }
}

/// Two whole parts in normal form that stand for one number are the same.
proof fn lemma_same_whole(a: Seq<char>, b: Seq<char>)
    requires
        a.len() > 0,
        b.len() > 0,
        all_digits(a),
        all_digits(b),
        trim_leading_zeros(a) == a,
        trim_leading_zeros(b) == b,
        digits_value(a) == digits_value(b),
    ensures
        a == b,
{
    lemma_trim_leading_value(a);
    lemma_trim_leading_value(b);
    lemma_value_below(a);
    lemma_value_below(b);
    if a.len() < b.len() {
        lemma_value_above(b);
        lemma_pow10_grows(a.len(), (b.len() - 1) as nat);
    } else if b.len() < a.len() {
        lemma_value_above(a);
        lemma_pow10_grows(b.len(), (a.len() - 1) as nat);
    } else {
        lemma_same_digits(a, b);
    }
}

/// The scaled value of a number in normal form with a fraction is no
/// multiple of ten.
proof fn lemma_last_digit_counts(v: NumberView, q: int)
    requires
        v.is_normal(),
        v.scale() > 0,
    ensures
        v.scaled() != 10 * q,
{
    lemma_trim_trailing_value(v.fraction);
    let last = v.fraction.last();
    assert(in_class(last, CharClass::Digit));
    let n = v.scale();
    let p = pow10((n - 1) as nat) as int;
    let big = digits_value(v.whole) as int;
    let front = digits_value(v.fraction.drop_last()) as int;
    let d = digit_of(last) as int;
    assert(pow10(n) == 10 * p);
    assert(big * (10 * p) + (front * 10 + d) == 10 * (big * p + front) + d) by (nonlinear_arith);
}

/// A number in normal form whose scaled value is nothing is written as zero.
proof fn lemma_zero_is_zero(v: NumberView)
    requires
        v.is_normal(),
        v.scaled() == 0,
    ensures
        v.is_zero(),
{
    if v.scale() > 0 {
        lemma_last_digit_counts(v, 0);
    }
    assert(pow10(0) == 1);
    assert(digits_value(v.fraction) == 0);
    assert(digits_value(v.whole) * 1 == digits_value(v.whole));
    lemma_zero_whole(v.whole);
}

/// Two magnitudes that make one number other than zero have one sign.
proof fn lemma_signs_agree(minus_a: bool, minus_b: bool, a: int, b: int)
    requires
        a >= 0,
        b >= 0,
        (if minus_a {
            -a
        } else {
            a
        }) == (if minus_b {
            -b
        } else {
            b
        }),
        a != 0 || b != 0,
    ensures
        minus_a == minus_b,
{
}

/// Two numbers in normal form that are one number are written the same: the
/// normal form of a number is the only one.
pub proof fn normal_form_is_unique(a: NumberView, b: NumberView)
    requires
        a.is_normal(),
        b.is_normal(),
        a.same_number(b),
    ensures
        a == b,
{
    let na = a.scale();
    let nb = b.scale();
    let x = a.scaled();
    let y = b.scaled();
    lemma_pow10_adds(na, 0);
    lemma_pow10_adds(nb, 0);
    if na < nb {
        let k = (nb - na) as nat;
        lemma_pow10_adds(na, k);
        let q = x * pow10((k - 1) as nat);
        assert(pow10(k) == 10 * pow10((k - 1) as nat));
        assert(y == 10 * q) by (nonlinear_arith)
            requires
                x * (pow10(na) * pow10(k)) == y * pow10(na),
                pow10(na) > 0,
                pow10(k) == 10 * pow10((k - 1) as nat),
                q == x * pow10((k - 1) as nat),
        ;
        lemma_last_digit_counts(b, q);
    } else if nb < na {
        let k = (na - nb) as nat;
        lemma_pow10_adds(nb, k);
        let q = y * pow10((k - 1) as nat);
        assert(pow10(k) == 10 * pow10((k - 1) as nat));
        assert(x == 10 * q) by (nonlinear_arith)
            requires
                x * pow10(nb) == y * (pow10(nb) * pow10(k)),
                pow10(nb) > 0,
                pow10(k) == 10 * pow10((k - 1) as nat),
                q == y * pow10((k - 1) as nat),
        ;
        lemma_last_digit_counts(a, q);
    } else {
        let p = pow10(na) as int;
        assert(x == y) by (nonlinear_arith)
            requires
                x * p == y * p,
                p > 0,
        ;
        let wa = digits_value(a.whole) as int;
        let wb = digits_value(b.whole) as int;
        let fa = digits_value(a.fraction) as int;
        let fb = digits_value(b.fraction) as int;
        lemma_value_below(a.fraction);
        lemma_value_below(b.fraction);
        if x == 0 {
            lemma_zero_is_zero(a);
            lemma_zero_is_zero(b);
        } else {
            lemma_signs_agree(a.negative, b.negative, wa * p + fa, wb * p + fb);
        }
        assert(wa * p >= 0 && wb * p >= 0) by (nonlinear_arith)
            requires
                wa >= 0,
                wb >= 0,
                p > 0,
        ;
        assert(wa == wb && fa == fb) by (nonlinear_arith)
            requires
                wa * p + fa == wb * p + fb,
                0 <= fa < p,
                0 <= fb < p,
                wa >= 0,
                wb >= 0,
        ;
        lemma_same_whole(a.whole, b.whole);
        lemma_same_digits(a.fraction, b.fraction);
    }
}

/// The digits of a number other than zero do not start with a zero.
proof fn lemma_decimal_digits_start(n: nat)
    requires
        n > 0,
    ensures
        decimal_digits(n).len() > 0,
        decimal_digits(n)[0] != '0',
    decreases n,
{
    if n >= 10 {
        lemma_decimal_digits_start(n / 10);
        assert(decimal_digits(n)[0] == decimal_digits(n / 10)[0]);
    }
}

/// A number in normal form is the whole number `n` exactly when it is
/// written as the digits of `n`, without sign and fraction.
pub proof fn whole_numbers_are_written_in_one_way(v: NumberView, n: nat)
    requires
        v.is_normal(),
    ensures
        whole_number(n).is_normal(),
        v == whole_number(n) <==> v.scaled() == n * pow10(v.scale()),
{
    let w = whole_number(n);
    lemma_decimal_digits(n);
    if n > 0 {
        lemma_decimal_digits_start(n);
    }
    assert(digits_value(Seq::<char>::empty()) == 0);
    assert(pow10(0) == 1);
    assert(n * 1 == n);
    assert(w.scaled() == n);
    lemma_pow10_adds(v.scale(), 0);
    if v.scaled() == n * pow10(v.scale()) {
        assert(v.scaled() * 1 == v.scaled());
        assert(v.same_number(w));
        normal_form_is_unique(v, w);
    }
}

} // verus!
