//! The section that names the domain.
use crate::error::{locate, Failure, Fault, SyntaxError};
use crate::shared::{named_at, scan, skip_spaces, spec_named, CharClass};
use crate::syntax::{spec_word, word_at};
use crate::text::{tail, to_chars};
use vstd::prelude::*;

verus! {

/// The name given by `domain <name>` at `i`.
pub open spec fn spec_name(s: Seq<char>, i: int) -> Result<(Seq<char>, int), Failure> {
    match spec_word(s, i, "domain"@) {
        Err(f) => Err(f),
        Ok(k) => spec_named(s, skip_spaces(s, k)),
    }
}

/// Reads `domain <name>` at `i`.
pub fn name_at(s: &[char], i: usize) -> (r: Result<(String, usize), Fault>)
    requires
        i <= s.len(),
    ensures
        match r {
            Ok((name, end)) => spec_name(s@, i as int) == Ok::<_, Failure>((name@, end as int))
                && i < end <= s.len(),
            Err(f) => spec_name(s@, i as int) == Err::<(Seq<char>, int), _>(f@) && f.offset
                <= s.len(),
        },
{
    match word_at(s, i, "domain") {
        Err(f) => Err(f),
        Ok(k) => named_at(s, scan(s, k, CharClass::Space)),
    }
}

/// Reads `domain <name>` at the start of `input`, and hands back the rest
/// of the input with the name.
pub fn parse_name(input: &str) -> (r: Result<(&str, String), SyntaxError>)
    ensures
        match r {
            Ok((rest, name)) => spec_name(input@, 0) matches Ok((n, end)) && name@ == n && rest@
                == input@.skip(end),
            Err(e) => spec_name(input@, 0) matches Err(f) && e.reports(input@, f),
        },
{
    let chars = to_chars(input);
    match name_at(chars.as_slice(), 0) {
        Ok((name, end)) => Ok((tail(input, end), name)),
        Err(f) => Err(locate(chars.as_slice(), f)),
    }
}

} // verus!
