//! What the header block and the state blocks share: a line that holds one
//! pair, and the run of indented lines that follows a block's first line.

use vstd::prelude::*;
use crate::error::{syntax, syntax_error, Expected, ParseError, ParseErrorView};
use crate::parser::key_value::{
    key_value, key_value_spec, lemma_key_value_rest, KeyValue, KeyValueView,
};
use crate::parser::text::{
    is_rest_of, lemma_rest_of_rest, lemma_run, lemma_skip_is_rest, newline, run, space1, CharClass,
};

verus! {

/// The models of a sequence of pairs, in order.
pub open spec fn pairs_view(v: Seq<KeyValue>) -> Seq<KeyValueView> {
    v.map_values(|kv: KeyValue| kv@)
}

/// The line at the head of `s`: a pair, and the line feed that ends it.
pub open spec fn line_spec(s: Seq<char>) -> Result<(Seq<char>, KeyValueView), ParseErrorView> {
    match key_value_spec(s) {
        Err(f) => Err(f),
        Ok((rest, kv)) => if rest.len() > 0 && rest[0] == '\n' {
            Ok((rest.skip(1), kv))
        } else {
            Err(syntax_error(rest, Expected::Newline))
        },
    }
}

/// A line takes at least one character from the front of the input.
pub proof fn lemma_line_rest(s: Seq<char>)
    ensures
        line_spec(s) matches Ok((rest, _)) ==> rest.len() < s.len() && is_rest_of(rest, s),
{
    lemma_key_value_rest(s);
    match key_value_spec(s) {
        Err(_) => {},
        Ok((rest, _)) => {
            if rest.len() > 0 {
                lemma_skip_is_rest(rest, 1);
                lemma_rest_of_rest(rest.skip(1), rest, s);
            }
        },
    }
}

/// The property lines from `s` on, added to `acc` in order, and the input
/// behind them. A property line is an indentation of spaces and tabs and a
/// line; the first line from `s` on that is none ends the block, and stays
/// in the input.
pub open spec fn more_properties_spec(s: Seq<char>, acc: Seq<KeyValueView>) -> (
    Seq<char>,
    Seq<KeyValueView>,
)
    decreases s.len(),
{
    let indent = run(s, CharClass::Blank);
    if indent == 0 {
        (s, acc)
    } else {
        match line_spec(s.skip(indent as int)) {
            Err(_) => (s, acc),
            Ok((rest, kv)) => {
                proof {
                    lemma_run(s, CharClass::Blank);
                    lemma_line_rest(s.skip(indent as int));
                }
                more_properties_spec(rest, acc.push(kv))
            },
        }
    }
}

/// The property lines of a block: one or more. The first must be a valid
/// property line; the block then runs as far as valid property lines follow.
pub open spec fn properties_spec(s: Seq<char>) -> Result<
    (Seq<char>, Seq<KeyValueView>),
    ParseErrorView,
> {
    let indent = run(s, CharClass::Blank);
    if indent == 0 {
        Err(syntax_error(s, Expected::Indent))
    } else {
        match line_spec(s.skip(indent as int)) {
            Err(f) => Err(f),
            Ok((rest, kv)) => Ok(more_properties_spec(rest, seq![kv])),
        }
    }
}

/// What follows the property lines is what is left of where they start.
pub proof fn lemma_more_properties_rest(s: Seq<char>, acc: Seq<KeyValueView>)
    ensures
        is_rest_of(more_properties_spec(s, acc).0, s),
    decreases s.len(),
{
    let indent = run(s, CharClass::Blank);
    lemma_skip_is_rest(s, 0);
    if indent > 0 {
        lemma_run(s, CharClass::Blank);
        let after = s.skip(indent as int);
        lemma_line_rest(after);
        match line_spec(after) {
            Err(_) => {},
            Ok((rest, kv)) => {
                lemma_more_properties_rest(rest, acc.push(kv));
                lemma_skip_is_rest(s, indent as int);
                lemma_rest_of_rest(rest, after, s);
                lemma_rest_of_rest(more_properties_spec(rest, acc.push(kv)).0, rest, s);
            },
        }
    }
}

/// A block's property lines take at least one character from the front of
/// the input.
pub proof fn lemma_properties_rest(s: Seq<char>)
    ensures
        properties_spec(s) matches Ok((rest, _)) ==> rest.len() < s.len() && is_rest_of(rest, s),
{
    let indent = run(s, CharClass::Blank);
    if indent > 0 {
        lemma_run(s, CharClass::Blank);
        let after = s.skip(indent as int);
        lemma_line_rest(after);
        match line_spec(after) {
            Err(_) => {},
            Ok((rest, kv)) => {
                lemma_more_properties_rest(rest, seq![kv]);
                lemma_skip_is_rest(s, indent as int);
                lemma_rest_of_rest(rest, after, s);
                lemma_rest_of_rest(more_properties_spec(rest, seq![kv]).0, rest, s);
            },
        }
    }
}

/// Where the property lines of a block ended, no valid property line
/// stands: what follows is not indented, or is no valid line.
pub proof fn a_block_ends_where_no_property_line_follows(s: Seq<char>, acc: Seq<KeyValueView>)
    ensures
        ({
            let rest = more_properties_spec(s, acc).0;
            run(rest, CharClass::Blank) == 0 || line_spec(
                rest.skip(run(rest, CharClass::Blank) as int),
            ) is Err
        }),
    decreases s.len(),
{
    let indent = run(s, CharClass::Blank);
    if indent > 0 {
        lemma_run(s, CharClass::Blank);
        lemma_line_rest(s.skip(indent as int));
        match line_spec(s.skip(indent as int)) {
            Err(_) => {},
            Ok((rest, kv)) => {
                a_block_ends_where_no_property_line_follows(rest, acc.push(kv));
            },
        }
    }
}

/// Recognizes the line at the head of `input`.
pub fn line<'a>(input: &'a str) -> (r: Result<(&'a str, KeyValue), ParseError<'a>>)
    ensures
        match r {
            Ok((rest, kv)) => line_spec(input@) == Ok::<_, ParseErrorView>((rest@, kv@)),
            Err(f) => line_spec(input@) == Err::<(Seq<char>, KeyValueView), _>(f@),
        },
{
    match key_value(input) {
        Err(f) => Err(f),
        Ok((rest, kv)) => match newline(rest) {
            Some((after, _)) => Ok((after, kv)),
            None => Err(syntax(rest, Expected::Newline)),
        },
    }
}

/// Recognizes the property lines at the head of `input`.
pub fn properties<'a>(input: &'a str) -> (r: Result<(&'a str, Vec<KeyValue>), ParseError<'a>>)
    ensures
        match r {
            Ok((rest, kvs)) => properties_spec(input@) == Ok::<_, ParseErrorView>(
                (rest@, pairs_view(kvs@)),
            ),
            Err(f) => properties_spec(input@) == Err::<(Seq<char>, Seq<KeyValueView>), _>(f@),
        },
{
    let after_indent = match space1(input) {
        Some((after, _)) => after,
        None => {
            return Err(syntax(input, Expected::Indent));
        },
    };
    let (after_first, first) = match line(after_indent) {
        Ok(found) => found,
        Err(f) => {
            return Err(f);
        },
    };
    let mut kvs: Vec<KeyValue> = Vec::new();
    kvs.push(first);
    let mut cur: &'a str = after_first;
    assert(pairs_view(kvs@) =~= seq![first@]);
    loop
        invariant
            properties_spec(input@) == Ok::<_, ParseErrorView>(
                more_properties_spec(cur@, pairs_view(kvs@)),
            ),
        decreases cur@.len(),
    {
        let after = match space1(cur) {
            Some((after, _)) => after,
            None => {
                return Ok((cur, kvs));
            },
        };
        proof {
            lemma_run(cur@, CharClass::Blank);
            lemma_line_rest(after@);
        }
        match line(after) {
            Err(_) => {
                return Ok((cur, kvs));
            },
            Ok((rest, kv)) => {
                let ghost before = pairs_view(kvs@);
                kvs.push(kv);
                assert(pairs_view(kvs@) =~= before.push(kv@));
                cur = rest;
            },
        }
    }
}

} // verus!
