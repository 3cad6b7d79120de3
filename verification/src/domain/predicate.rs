//! The section that declares the predicates of a domain.
use crate::domain::parameter::{
    lemma_groups_bounds, parameters_at, spec_groups, spec_parameters, Parameter, ParameterView,
};
use crate::error::{locate, ErrorKind, Failure, Fault, SyntaxError};
use crate::shared::{
    lemma_run_end, lemma_run_end_advances, named_at, scan, skip_spaces, spec_named, CharClass,
};
use crate::syntax::{
    expect_at, keyword_at, lemma_prepend_end, lemma_prepend_push, prepend, spec_expect,
    spec_keyword,
};
use crate::text::{copy_items, lemma_views_push, tail, to_chars, views};
use vstd::prelude::*;

verus! {

/// The mathematical value of a [`Predicate`].
pub struct PredicateView {
    pub name: Seq<char>,
    pub parameters: Seq<ParameterView>,
}

/// The signature of a predicate: its name and the parameters it takes.
#[derive(Debug, PartialEq, Eq)]
pub struct Predicate {
    pub name: String,
    pub parameters: Vec<Parameter>,
}

impl View for Predicate {
    type V = PredicateView;

    open spec fn view(&self) -> PredicateView {
        PredicateView { name: self.name@, parameters: views(self.parameters@) }
    }
}

impl Clone for Predicate {
    fn clone(&self) -> (r: Self)
        ensures
            r@ == self@,
    {
        Predicate { name: self.name.clone(), parameters: copy_items(&self.parameters) }
    }
}

pub type Predicates = Vec<Predicate>;

/// The signature `(name <typed list>)` that starts at `i`, after white
/// space.
pub open spec fn spec_signature(s: Seq<char>, i: int) -> Result<(PredicateView, int), Failure> {
    match spec_expect(s, i, '(') {
        Err(f) => Err(f),
        Ok(a) => match spec_named(s, skip_spaces(s, a)) {
            Err(f) => Err(f),
            Ok((name, b)) => match spec_parameters(s, b) {
                Err(f) => Err(f),
                Ok((parameters, c)) => match spec_expect(s, c, ')') {
                    Err(f) => Err(f),
                    Ok(end) => Ok((PredicateView { name, parameters }, end)),
                },
            },
        },
    }
}

/// A signature ends after the offset where it starts, and inside the text.
pub proof fn lemma_signature_bounds(s: Seq<char>, i: int)
    requires
        0 <= i <= s.len(),
    ensures
        spec_signature(s, i) matches Ok((p, end)) ==> i < end <= s.len(),
{
    lemma_run_end(s, i, CharClass::Space);
    if let Ok(a) = spec_expect(s, i, '(') {
        lemma_run_end(s, a, CharClass::Space);
        lemma_run_end(s, skip_spaces(s, a), CharClass::Word);
        if let Ok((name, b)) = spec_named(s, skip_spaces(s, a)) {
            lemma_groups_bounds(s, b);
            if let Ok((groups, c)) = spec_groups(s, b) {
                lemma_run_end(s, c, CharClass::Space);
            }
        }
    }
}

/// The signatures that follow one another from `i` on, up to the first
/// thing that is no opening parenthesis.
pub open spec fn spec_signatures(s: Seq<char>, i: int) -> Result<(Seq<PredicateView>, int), Failure>
    decreases s.len() - i,
{
    let w = skip_spaces(s, i);
    if 0 <= w < s.len() && s[w] == '(' {
        match spec_signature(s, w) {
            Err(f) => Err(f),
            Ok((first, e)) => {
                proof {
                    lemma_run_end_advances(s, i, CharClass::Space);
                    lemma_signature_bounds(s, w);
                }
                prepend(seq![first], spec_signatures(s, e))
            },
        }
    } else {
        Ok((Seq::empty(), i))
    }
}

/// A list of signatures ends at or after the offset where it starts, and
/// inside the text.
pub proof fn lemma_signatures_bounds(s: Seq<char>, i: int)
    requires
        0 <= i <= s.len(),
    ensures
        spec_signatures(s, i) matches Ok((signatures, end)) ==> i <= end <= s.len(),
    decreases s.len() - i,
{
    let w = skip_spaces(s, i);
    lemma_run_end(s, i, CharClass::Space);
    if 0 <= w < s.len() && s[w] == '(' {
        lemma_signature_bounds(s, w);
        if let Ok((first, e)) = spec_signature(s, w) {
            lemma_signatures_bounds(s, e);
        }
    }
}

/// The signatures declared by `:predicates (name <typed list>) ...` at `i`.
/// There must be at least one.
pub open spec fn spec_predicates(s: Seq<char>, i: int) -> Result<(Seq<PredicateView>, int), Failure> {
    match spec_keyword(s, i, "predicates"@) {
        Err(f) => Err(f),
        Ok(k) => match spec_signatures(s, k) {
            Err(f) => Err(f),
            Ok((predicates, end)) => if predicates.len() == 0 {
                Err(Failure { kind: ErrorKind::Cardinality, at: end })
            } else {
                Ok((predicates, end))
            },
        },
    }
}

/// Reads the signature that starts at `i`.
fn signature_at(s: &[char], i: usize) -> (r: Result<(Predicate, usize), Fault>)
    requires
        i <= s.len(),
    ensures
        match r {
            Ok((p, end)) => spec_signature(s@, i as int) == Ok::<_, Failure>((p@, end as int))
                && i < end <= s.len(),
            Err(f) => spec_signature(s@, i as int) == Err::<(PredicateView, int), _>(f@)
                && f.offset <= s.len(),
        },
{
    let a = match expect_at(s, i, '(') {
        Err(f) => {
            return Err(f);
        },
        Ok(a) => a,
    };
    let (name, b) = match named_at(s, scan(s, a, CharClass::Space)) {
        Err(f) => {
            return Err(f);
        },
        Ok(found) => found,
    };
    let (parameters, c) = match parameters_at(s, b) {
        Err(f) => {
            return Err(f);
        },
        Ok(found) => found,
    };
    match expect_at(s, c, ')') {
        Err(f) => Err(f),
        Ok(end) => Ok((Predicate { name, parameters }, end)),
    }
}

/// Reads `:predicates (name <typed list>) ...` at `i`.
pub fn predicates_at(s: &[char], i: usize) -> (r: Result<(Vec<Predicate>, usize), Fault>)
    requires
        i <= s.len(),
    ensures
        match r {
            Ok((predicates, end)) => spec_predicates(s@, i as int) == Ok::<_, Failure>(
                (views(predicates@), end as int),
            ) && i < end <= s.len() && predicates.len() > 0,
            Err(f) => spec_predicates(s@, i as int) == Err::<(Seq<PredicateView>, int), _>(f@)
                && f.offset <= s.len(),
        },
{
    let start = match keyword_at(s, i, "predicates") {
        Err(f) => {
            return Err(f);
        },
        Ok(k) => k,
    };
    let mut predicates: Vec<Predicate> = Vec::new();
    let mut pos: usize = start;
    proof {
        assert(views(predicates@) =~= Seq::<PredicateView>::empty());
        if let Ok((more, end)) = spec_signatures(s@, start as int) {
            assert(Seq::<PredicateView>::empty() + more =~= more);
        }
    }
    loop
        invariant
            i < start <= pos <= s.len(),
            spec_keyword(s@, i as int, "predicates"@) == Ok::<_, Failure>(start as int),
            spec_signatures(s@, start as int) == prepend(
                views(predicates@),
                spec_signatures(s@, pos as int),
            ),
        decreases s.len() - pos,
    {
        let w = scan(s, pos, CharClass::Space);
        if !(w < s.len() && s[w] == '(') {
            proof {
                lemma_prepend_end(views(predicates@), pos as int);
            }
            if predicates.len() == 0 {
                return Err(Fault { kind: ErrorKind::Cardinality, offset: pos });
            }
            return Ok((predicates, pos));
        }
        match signature_at(s, w) {
            Err(f) => {
                return Err(f);
            },
            Ok((p, e)) => {
                proof {
                    lemma_prepend_push(views(predicates@), p@, spec_signatures(s@, e as int));
                    lemma_views_push(predicates@, p);
                }
                predicates.push(p);
                pos = e;
            },
        }
    }
}

/// Reads `:predicates (name <typed list>) ...` at the start of `input`, and
/// hands back the rest of the input with the signatures.
pub fn parse_predicates(input: &str) -> (r: Result<(&str, Predicates), SyntaxError>)
    ensures
        match r {
            Ok((rest, predicates)) => spec_predicates(input@, 0) matches Ok((v, end)) && views(
                predicates@,
            ) == v && rest@ == input@.skip(end),
            Err(e) => spec_predicates(input@, 0) matches Err(f) && e.reports(input@, f),
        },
{
    let chars = to_chars(input);
    match predicates_at(chars.as_slice(), 0) {
        Ok((predicates, end)) => Ok((tail(input, end), predicates)),
        Err(f) => Err(locate(chars.as_slice(), f)),
    }
}

} // verus!
