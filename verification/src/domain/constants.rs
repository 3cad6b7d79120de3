//! The section that declares the objects every problem of a domain has.
use crate::domain::parameter::{
    parameters_at, spec_parameters, Parameter, ParameterView, Parameters,
};
use crate::error::{locate, Failure, Fault, SyntaxError};
use crate::syntax::{keyword_at, spec_keyword};
use crate::text::{tail, to_chars, views};
use vstd::prelude::*;

verus! {

/// The constants declared by `:constants <typed list>` at `i`.
pub open spec fn spec_constants(s: Seq<char>, i: int) -> Result<(Seq<ParameterView>, int), Failure> {
    match spec_keyword(s, i, "constants"@) {
        Err(f) => Err(f),
        Ok(k) => spec_parameters(s, k),
    }
}

/// Reads `:constants <typed list>` at `i`.
pub fn constants_at(s: &[char], i: usize) -> (r: Result<(Vec<Parameter>, usize), Fault>)
    requires
        i <= s.len(),
    ensures
        match r {
            Ok((constants, end)) => spec_constants(s@, i as int) == Ok::<_, Failure>(
                (views(constants@), end as int),
            ) && i < end <= s.len(),
            Err(f) => spec_constants(s@, i as int) == Err::<(Seq<ParameterView>, int), _>(f@)
                && f.offset <= s.len(),
        },
{
    match keyword_at(s, i, "constants") {
        Err(f) => Err(f),
        Ok(k) => parameters_at(s, k),
    }
}

/// Reads `:constants <typed list>` at the start of `input`, and hands back
/// the rest of the input with the constants.
pub fn parse_constants(input: &str) -> (r: Result<(&str, Parameters), SyntaxError>)
    ensures
        match r {
            Ok((rest, constants)) => spec_constants(input@, 0) matches Ok((v, end)) && views(
                constants@,
            ) == v && rest@ == input@.skip(end),
            Err(e) => spec_constants(input@, 0) matches Err(f) && e.reports(input@, f),
        },
{
    let chars = to_chars(input);
    match constants_at(chars.as_slice(), 0) {
        Ok((constants, end)) => Ok((tail(input, end), constants)),
        Err(f) => Err(locate(chars.as_slice(), f)),
    }
}

} // verus!
