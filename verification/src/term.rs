//! Terms: a predicate's name applied to arguments.
use crate::error::{locate, Failure, Fault, SyntaxError};
use crate::shared::{lemma_run_end, named_at, scan, skip_spaces, spec_named, CharClass};
use crate::syntax::{lemma_names_bounds, names_at, spec_names};
use crate::text::{copy_items, tail, to_chars, views};
use vstd::prelude::*;

verus! {

/// The mathematical value of a [`Term`].
pub struct TermView {
    pub name: Seq<char>,
    pub parameters: Seq<Seq<char>>,
}

/// A name applied to arguments, as in `at ?truck ?place`. The arguments
/// are identifiers; whether one of them is a variable or a constant is left
/// to the reader of the tree.
#[derive(Debug, PartialEq, Eq, Hash)]
pub struct Term {
    pub name: String,
    pub parameters: Vec<String>,
}

impl View for Term {
    type V = TermView;

    open spec fn view(&self) -> TermView {
        TermView { name: self.name@, parameters: views(self.parameters@) }
    }
}

impl Clone for Term {
    fn clone(&self) -> (r: Self)
        ensures
            r@ == self@,
    {
        Term { name: self.name.clone(), parameters: copy_items(&self.parameters) }
    }
}

/// The term that starts at `i`, after white space: an identifier, followed
/// by the identifiers that are its arguments. A term with arguments ends
/// with the last of them; a term without takes the white space after its
/// name.
pub open spec fn spec_term(s: Seq<char>, i: int) -> Result<(TermView, int), Failure> {
    match spec_named(s, skip_spaces(s, i)) {
        Err(f) => Err(f),
        Ok((name, e)) => {
            let (parameters, end) = spec_names(s, e);
            Ok(
                (
                    TermView { name, parameters },
                    if parameters.len() == 0 {
                        skip_spaces(s, e)
                    } else {
                        end
                    },
                ),
            )
        },
    }
}

/// A term ends after the offset where it starts, and inside the text.
pub proof fn lemma_term_bounds(s: Seq<char>, i: int)
    requires
        0 <= i <= s.len(),
    ensures
        spec_term(s, i) matches Ok((term, end)) ==> i < end <= s.len(),
{
    lemma_run_end(s, i, CharClass::Space);
    lemma_run_end(s, skip_spaces(s, i), CharClass::Word);
    if let Ok((name, e)) = spec_named(s, skip_spaces(s, i)) {
        lemma_names_bounds(s, e);
        lemma_run_end(s, e, CharClass::Space);
    }
}

/// Reads the term that starts at `i`.
pub fn term_at(s: &[char], i: usize) -> (r: Result<(Term, usize), Fault>)
    requires
        i <= s.len(),
    ensures
        match r {
            Ok((term, end)) => spec_term(s@, i as int) == Ok::<_, Failure>((term@, end as int))
                && i < end <= s.len(),
            Err(f) => spec_term(s@, i as int) == Err::<(TermView, int), _>(f@) && f.offset
                <= s.len(),
        },
{
    let start = scan(s, i, CharClass::Space);
    match named_at(s, start) {
        Err(f) => Err(f),
        Ok((name, e)) => {
            let (parameters, end) = names_at(s, e);
            let end = if parameters.len() == 0 {
                scan(s, e, CharClass::Space)
            } else {
                end
            };
            Ok((Term { name, parameters }, end))
        },
    }
}

/// Reads the term at the start of `input`, and hands back the rest of the
/// input with it.
pub fn parse_term(input: &str) -> (r: Result<(&str, Term), SyntaxError>)
    ensures
        match r {
            Ok((rest, term)) => spec_term(input@, 0) matches Ok((t, end)) && term@ == t && rest@
                == input@.skip(end),
            Err(e) => spec_term(input@, 0) matches Err(f) && e.reports(input@, f),
        },
{
    let chars = to_chars(input);
    match term_at(chars.as_slice(), 0) {
        Ok((term, end)) => Ok((tail(input, end), term)),
        Err(f) => Err(locate(chars.as_slice(), f)),
    }
}

} // verus!
