use vstd::prelude::*;
use vstd::std_specs::cmp::PartialEqSpec;
use vstd::string::StringSliceAdditionalSpecFns;

use crate::cursor::Tokenizer;
use crate::tokens::Tokens;

verus! {

/// No token matched at `input`, the stream as it was before the attempt.
pub struct NoMatch<'i, L: Tokenizer<'i>> {
    pub input: Tokens<'i, L>,
}

/// `after` is `before` past its next token.
pub open spec fn advanced<'i, L: Tokenizer<'i>>(before: Tokens<'i, L>, after: Tokens<'i, L>) -> bool {
    &&& before.rest().len() > 0
    &&& after.source_spec() == before.source_spec()
    &&& after.rest() == before.rest().drop_first()
    &&& after.at() == before.rest()[0].1
}

/// The next token of `input` equals `expected`.
pub open spec fn next_is<'i, L: Tokenizer<'i>>(input: Tokens<'i, L>, expected: &L::Token) -> bool where
    L::Token: PartialEq,
 {
    input.rest().len() > 0 && input.rest()[0].0.eq_spec(expected)
}

/// Matches one token equal to `expected`: on success, the stream past it and
/// the text it was read from; otherwise the error that `error` makes of the
/// stream as it was and of `expected`.
pub fn parse_token_with<'i, 'e, L, E, F>(input: Tokens<'i, L>, expected: &'e L::Token, error: F) -> (r: Result<
    (Tokens<'i, L>, &'i str),
    E,
>) where L: Tokenizer<'i>, L::Token: PartialEq, F: FnOnce(Tokens<'i, L>, &'e L::Token) -> E
    requires
        error.requires((input, expected)),
    ensures
        <L::Token as PartialEqSpec>::obeys_eq_spec() ==> (r is Ok <==> next_is(input, expected)),
        r matches Ok((after, s)) ==> {
            let span = input.rest()[0].1;
            &&& advanced(input, after)
            &&& s.spec_bytes() == input.text().subrange(span.start as int, span.end as int)
        },
        r matches Err(e) ==> error.ensures((input, expected), e),
{
    match input.peek() {
        Some((t, s)) => {
            if t == *expected {
                Ok((input.advance(), s))
            } else {
                Err(error(input, expected))
            }
        },
        None => Err(error(input, expected)),
    }
}

/// Matches one token equal to `expected`, failing with `NoMatch`.
pub fn parse_token<'i, L>(input: Tokens<'i, L>, expected: &L::Token) -> (r: Result<
    (Tokens<'i, L>, &'i str),
    NoMatch<'i, L>,
>) where L: Tokenizer<'i>, L::Token: PartialEq
    ensures
        <L::Token as PartialEqSpec>::obeys_eq_spec() ==> (r is Ok <==> next_is(input, expected)),
        r matches Ok((after, s)) ==> {
            let span = input.rest()[0].1;
            &&& advanced(input, after)
            &&& s.spec_bytes() == input.text().subrange(span.start as int, span.end as int)
        },
        r matches Err(e) ==> e.input == input,
{
    match input.peek() {
        Some((t, s)) => {
            if t == *expected {
                Ok((input.advance(), s))
            } else {
                Err(NoMatch { input })
            }
        },
        None => Err(NoMatch { input }),
    }
}

/// Matches one token that `pattern` takes apart: on success, the stream past
/// it and what `pattern` made of it; otherwise the error that `error` makes
/// of the stream as it was.
pub fn parse_variant_with<'i, L, O, E, P, F>(input: Tokens<'i, L>, pattern: P, error: F) -> (r: Result<
    (Tokens<'i, L>, O),
    E,
>) where L: Tokenizer<'i>, P: FnOnce(L::Token) -> Option<O>, F: FnOnce(Tokens<'i, L>) -> E
    requires
        forall|t: L::Token| pattern.requires((t,)),
        error.requires((input,)),
    ensures
        match r {
            Ok((after, o)) => advanced(input, after) && pattern.ensures((input.rest()[0].0,), Some(o)),
            Err(e) => error.ensures((input,), e) && (input.rest().len() == 0 || pattern.ensures(
                (input.rest()[0].0,),
                None,
            )),
        },
{
    match input.peek() {
        Some((t, _)) => match pattern(t) {
            Some(o) => Ok((input.advance(), o)),
            None => Err(error(input)),
        },
        None => Err(error(input)),
    }
}

/// Matches one token that `pattern` takes apart, failing with `NoMatch`.
pub fn parse_variant<'i, L, O, P>(input: Tokens<'i, L>, pattern: P) -> (r: Result<
    (Tokens<'i, L>, O),
    NoMatch<'i, L>,
>) where L: Tokenizer<'i>, P: FnOnce(L::Token) -> Option<O>
    requires
        forall|t: L::Token| pattern.requires((t,)),
    ensures
        match r {
            Ok((after, o)) => advanced(input, after) && pattern.ensures((input.rest()[0].0,), Some(o)),
            Err(e) => e.input == input && (input.rest().len() == 0 || pattern.ensures(
                (input.rest()[0].0,),
                None,
            )),
        },
{
    match input.peek() {
        Some((t, _)) => match pattern(t) {
            Some(o) => Ok((input.advance(), o)),
            None => Err(NoMatch { input }),
        },
        None => Err(NoMatch { input }),
    }
}

} // verus!
