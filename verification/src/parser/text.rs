//! Character classes, runs of characters, and the recognizers that split an
//! input at the end of a run or of a literal.
//!
//! The recognizers are nom's. Each returns the pair `(rest, matched)`: what is
//! left of the input, and what was taken from its front.

use vstd::prelude::*;
use vstd::string::StringSliceAdditionalSpecFns;

verus! {

/// A class of characters that a recognizer accepts.
#[derive(Clone, Copy, Debug, PartialEq, Eq)]
pub enum CharClass {
    /// ASCII letters.
    Alpha,
    /// ASCII decimal digits.
    Digit,
    /// Space and tab.
    Blank,
    /// Space, tab, carriage return and line feed.
    Space,
}

/// Whether `c` belongs to `class`.
pub open spec fn in_class(c: char, class: CharClass) -> bool {
    match class {
        CharClass::Alpha => ('a' <= c && c <= 'z') || ('A' <= c && c <= 'Z'),
        CharClass::Digit => '0' <= c && c <= '9',
        CharClass::Blank => c == ' ' || c == '\t',
        CharClass::Space => c == ' ' || c == '\t' || c == '\r' || c == '\n',
    }
}

/// Length of the longest prefix of `s` whose characters all belong to `class`.
pub open spec fn run(s: Seq<char>, class: CharClass) -> nat
    decreases s.len(),
{
    if s.len() > 0 && in_class(s[0], class) {
        1 + run(s.skip(1), class)
    } else {
        0
    }
}

/// Length of the longest prefix of `s` in which `stop` does not occur.
pub open spec fn until(s: Seq<char>, stop: char) -> nat
    decreases s.len(),
{
    if s.len() > 0 && s[0] != stop {
        1 + until(s.skip(1), stop)
    } else {
        0
    }
}

/// A run stays inside the sequence, holds only characters of its class, and
/// ends at the end of the sequence or before a character outside the class.
pub proof fn lemma_run(s: Seq<char>, class: CharClass)
    ensures
        run(s, class) <= s.len(),
        forall|i: int| 0 <= i < run(s, class) ==> in_class(#[trigger] s[i], class),
        run(s, class) < s.len() ==> !in_class(s[run(s, class) as int], class),
    decreases s.len(),
{
    if s.len() > 0 && in_class(s[0], class) {
        let t = s.skip(1);
        lemma_run(t, class);
        assert forall|i: int| 0 <= i < run(s, class) implies in_class(#[trigger] s[i], class) by {
            if i > 0 {
                assert(s[i] == t[i - 1]);
            }
        }
        if run(s, class) < s.len() {
            assert(s[run(s, class) as int] == t[run(t, class) as int]);
        }
    }
}

/// The run is the only length with the properties that `lemma_run` states.
pub proof fn lemma_run_is(s: Seq<char>, class: CharClass, n: nat)
    requires
        n <= s.len(),
        forall|i: int| 0 <= i < n ==> in_class(#[trigger] s[i], class),
        n < s.len() ==> !in_class(s[n as int], class),
    ensures
        run(s, class) == n,
    decreases n,
{
    if n > 0 {
        let t = s.skip(1);
        assert forall|i: int| 0 <= i < n - 1 implies in_class(#[trigger] t[i], class) by {
            assert(t[i] == s[i + 1]);
        }
        lemma_run_is(t, class, (n - 1) as nat);
    }
}

/// `until` stays inside the sequence, passes no `stop`, and ends at the end
/// of the sequence or at a `stop`.
pub proof fn lemma_until(s: Seq<char>, stop: char)
    ensures
        until(s, stop) <= s.len(),
        forall|i: int| 0 <= i < until(s, stop) ==> #[trigger] s[i] != stop,
        until(s, stop) < s.len() ==> s[until(s, stop) as int] == stop,
    decreases s.len(),
{
    if s.len() > 0 && s[0] != stop {
        let t = s.skip(1);
        lemma_until(t, stop);
        assert forall|i: int| 0 <= i < until(s, stop) implies #[trigger] s[i] != stop by {
            if i > 0 {
                assert(s[i] == t[i - 1]);
            }
        }
        if until(s, stop) < s.len() {
            assert(s[until(s, stop) as int] == t[until(t, stop) as int]);
        }
    }
}

/// `until` is the only length with the properties that `lemma_until` states.
pub proof fn lemma_until_is(s: Seq<char>, stop: char, n: nat)
    requires
        n <= s.len(),
        forall|i: int| 0 <= i < n ==> #[trigger] s[i] != stop,
        n < s.len() ==> s[n as int] == stop,
    ensures
        until(s, stop) == n,
    decreases n,
{
    if n > 0 {
        let t = s.skip(1);
        assert forall|i: int| 0 <= i < n - 1 implies #[trigger] t[i] != stop by {
            assert(t[i] == s[i + 1]);
        }
        lemma_until_is(t, stop, (n - 1) as nat);
    }
}

/// Whether `rest` is what is left of `s` once a prefix of it is taken away.
pub open spec fn is_rest_of(rest: Seq<char>, s: Seq<char>) -> bool {
    rest.len() <= s.len() && rest == s.skip(s.len() - rest.len())
}

/// What is left of what is left is left of the whole.
pub proof fn lemma_rest_of_rest(a: Seq<char>, b: Seq<char>, c: Seq<char>)
    requires
        is_rest_of(a, b),
        is_rest_of(b, c),
    ensures
        is_rest_of(a, c),
{
    assert(c.skip(c.len() - b.len()).skip(b.len() - a.len()) =~= c.skip(c.len() - a.len()));
}

/// Skipping leaves a rest.
pub proof fn lemma_skip_is_rest(s: Seq<char>, n: int)
    requires
        0 <= n <= s.len(),
    ensures
        is_rest_of(s.skip(n), s),
        is_rest_of(s, s),
{
    assert(s.skip(n) =~= s.skip(s.len() - s.skip(n).len()));
    assert(s.skip(0) =~= s);
}

/// nom's `tag` on string slices: succeeds exactly when `pattern` is a prefix
/// of `input`, and then splits `input` behind that prefix.
#[verifier::external_body]
pub(crate) fn tag<'a>(pattern: &str, input: &'a str) -> (r: Option<(&'a str, &'a str)>)
    ensures
        r is Some <==> pattern@.is_prefix_of(input@),
        r matches Some((rest, matched)) ==> matched@ == pattern@ && rest@ == input@.skip(
            pattern@.len() as int,
        ),
{
    match nom::bytes::complete::tag::<&str, &'a str, nom::error::Error<&'a str>>(pattern)(input) {
        Ok((rest, matched)) => Some((rest, matched)),
        Err(_) => None,
    }
}

/// nom's `take_until` on string slices: succeeds exactly when `pattern`
/// occurs in `input`, and then splits `input` in front of the first
/// occurrence, which stays in `rest`.
#[verifier::external_body]
pub(crate) fn take_until<'a>(pattern: &str, input: &'a str) -> (r: Option<(&'a str, &'a str)>)
    ensures
        match r {
            Some((rest, matched)) => {
                &&& matched@ + rest@ == input@
                &&& pattern@.is_prefix_of(rest@)
                &&& forall|i: int|
                    0 <= i < matched@.len() ==> !pattern@.is_prefix_of(#[trigger] input@.skip(i))
            },
            None => forall|i: int|
                0 <= i <= input@.len() ==> !pattern@.is_prefix_of(#[trigger] input@.skip(i)),
        },
{
    match nom::bytes::complete::take_until::<&str, &'a str, nom::error::Error<&'a str>>(pattern)(
        input,
    ) {
        Ok((rest, matched)) => Some((rest, matched)),
        Err(_) => None,
    }
}

/// nom's `alpha1` on string slices: takes the longest prefix of ASCII
/// letters, and fails when that prefix is empty.
#[verifier::external_body]
pub(crate) fn alpha1<'a>(input: &'a str) -> (r: Option<(&'a str, &'a str)>)
    ensures
        r is Some <==> run(input@, CharClass::Alpha) > 0,
        r matches Some((rest, matched)) ==> matched@ == input@.take(
            run(input@, CharClass::Alpha) as int,
        ) && rest@ == input@.skip(run(input@, CharClass::Alpha) as int),
{
    match nom::character::complete::alpha1::<&'a str, nom::error::Error<&'a str>>(input) {
        Ok((rest, matched)) => Some((rest, matched)),
        Err(_) => None,
    }
}

/// nom's `digit1` on string slices: takes the longest prefix of ASCII
/// decimal digits, and fails when that prefix is empty.
#[verifier::external_body]
pub(crate) fn digit1<'a>(input: &'a str) -> (r: Option<(&'a str, &'a str)>)
    ensures
        r is Some <==> run(input@, CharClass::Digit) > 0,
        r matches Some((rest, matched)) ==> matched@ == input@.take(
            run(input@, CharClass::Digit) as int,
        ) && rest@ == input@.skip(run(input@, CharClass::Digit) as int),
{
    match nom::character::complete::digit1::<&'a str, nom::error::Error<&'a str>>(input) {
        Ok((rest, matched)) => Some((rest, matched)),
        Err(_) => None,
    }
}

/// nom's `space1` on string slices: takes the longest prefix of spaces and
/// tabs, and fails when that prefix is empty.
#[verifier::external_body]
pub(crate) fn space1<'a>(input: &'a str) -> (r: Option<(&'a str, &'a str)>)
    ensures
        r is Some <==> run(input@, CharClass::Blank) > 0,
        r matches Some((rest, matched)) ==> matched@ == input@.take(
            run(input@, CharClass::Blank) as int,
        ) && rest@ == input@.skip(run(input@, CharClass::Blank) as int),
{
    match nom::character::complete::space1::<&'a str, nom::error::Error<&'a str>>(input) {
        Ok((rest, matched)) => Some((rest, matched)),
        Err(_) => None,
    }
}

/// nom's `multispace0` on string slices: takes the longest prefix of spaces,
/// tabs, carriage returns and line feeds, which may be empty; it never fails.
#[verifier::external_body]
pub(crate) fn multispace0<'a>(input: &'a str) -> (r: Option<(&'a str, &'a str)>)
    ensures
        r is Some,
        r matches Some((rest, matched)) ==> matched@ == input@.take(
            run(input@, CharClass::Space) as int,
        ) && rest@ == input@.skip(run(input@, CharClass::Space) as int),
{
    match nom::character::complete::multispace0::<&'a str, nom::error::Error<&'a str>>(input) {
        Ok((rest, matched)) => Some((rest, matched)),
        Err(_) => None,
    }
}

/// nom's `newline` on string slices: succeeds exactly when the input starts
/// with a line feed, and then hands back what follows it.
#[verifier::external_body]
pub(crate) fn newline<'a>(input: &'a str) -> (r: Option<(&'a str, char)>)
    ensures
        r is Some <==> (input@.len() > 0 && input@[0] == '\n'),
        r matches Some((rest, c)) ==> c == '\n' && rest@ == input@.skip(1),
{
    match nom::character::complete::newline::<&'a str, nom::error::Error<&'a str>>(input) {
        Ok((rest, c)) => Some((rest, c)),
        Err(_) => None,
    }
}

/// Takes the one character of `pattern` from the front of `input`.
pub(crate) fn one<'a>(pattern: &str, input: &'a str) -> (r: Option<&'a str>)
    requires
        pattern@.len() == 1,
    ensures
        r is Some <==> (input@.len() > 0 && input@[0] == pattern@[0]),
        r matches Some(rest) ==> rest@ == input@.skip(1),
{
    proof {
        if input@.len() > 0 {
            assert(input@.subrange(0, 1)[0] == input@[0]);
            if input@[0] == pattern@[0] {
                assert(pattern@ =~= input@.subrange(0, 1));
            }
        }
    }
    match tag(pattern, input) {
        Some((rest, _)) => Some(rest),
        None => None,
    }
}

/// Whether two string slices hold the same text.
pub fn same_text(a: &str, b: &str) -> (r: bool)
    ensures
        r == (a@ == b@),
{
    let x = a.as_bytes();
    let y = b.as_bytes();
    proof {
        vstd::utf8::encode_utf8_decode_utf8(a@);
        vstd::utf8::encode_utf8_decode_utf8(b@);
    }
    if x.len() != y.len() {
        return false;
    }
    let mut i: usize = 0;
    while i < x.len()
        invariant
            i <= x.len(),
            x.len() == y.len(),
            forall|j: int| 0 <= j < i ==> x@[j] == y@[j],
            x@ == a.spec_bytes(),
            y@ == b.spec_bytes(),
            vstd::utf8::decode_utf8(a.spec_bytes()) == a@,
            vstd::utf8::decode_utf8(b.spec_bytes()) == b@,
        decreases x.len() - i,
    {
        if x[i] != y[i] {
            return false;
        }
        i += 1;
    }
    assert(x@ =~= y@);
    true
}

} // verus!
