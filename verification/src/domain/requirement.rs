//! The section that lists the language features a domain relies on.
use crate::error::{locate, ErrorKind, Failure, Fault, SyntaxError};
use crate::shared::{lemma_run_end, lemma_run_end_advances, run_end, scan, skip_spaces, CharClass};
use crate::syntax::{keyword_at, lemma_prepend_end, lemma_prepend_push, prepend, spec_keyword};
use crate::text::{lemma_views_push, tail, to_chars, to_string, views};
use vstd::prelude::*;

verus! {

pub type Requirements = Vec<String>;

/// The flags that follow one another from `i` on: each a colon and, right
/// after it, one or more ASCII letters. The letters are kept as written.
pub open spec fn spec_flags(s: Seq<char>, i: int) -> Result<(Seq<Seq<char>>, int), Failure>
    decreases s.len() - i,
{
    let w = skip_spaces(s, i);
    if 0 <= w < s.len() && s[w] == ':' {
        let e = run_end(s, w + 1, CharClass::Letter);
        if e <= w + 1 {
            Err(Failure { kind: ErrorKind::Structure, at: w + 1 })
        } else {
            proof {
                lemma_run_end_advances(s, i, CharClass::Space);
                lemma_run_end(s, w + 1, CharClass::Letter);
            }
            prepend(seq![s.subrange(w + 1, e)], spec_flags(s, e))
        }
    } else {
        Ok((Seq::empty(), i))
    }
}

/// The flags given by `:requirements :flag ...` at `i`, in the order
/// written, repeated ones included. There must be at least one.
pub open spec fn spec_requirements(s: Seq<char>, i: int) -> Result<
    (Seq<Seq<char>>, int),
    Failure,
> {
    match spec_keyword(s, i, "requirements"@) {
        Err(f) => Err(f),
        Ok(k) => match spec_flags(s, k) {
            Err(f) => Err(f),
            Ok((flags, end)) => if flags.len() == 0 {
                Err(Failure { kind: ErrorKind::Cardinality, at: end })
            } else {
                Ok((flags, end))
            },
        },
    }
}

/// A list of flags ends at or after the offset where it starts, and inside
/// the text.
pub proof fn lemma_flags_bounds(s: Seq<char>, i: int)
    requires
        0 <= i <= s.len(),
    ensures
        spec_flags(s, i) matches Ok((flags, end)) ==> i <= end <= s.len(),
    decreases s.len() - i,
{
    let w = skip_spaces(s, i);
    lemma_run_end(s, i, CharClass::Space);
    if 0 <= w < s.len() && s[w] == ':' {
        let e = run_end(s, w + 1, CharClass::Letter);
        lemma_run_end(s, w + 1, CharClass::Letter);
        if e > w + 1 {
            lemma_flags_bounds(s, e);
        }
    }
}

/// Reads the flags that follow one another from `i` on.
fn flags_at(s: &[char], i: usize) -> (r: Result<(Vec<String>, usize), Fault>)
    requires
        i <= s.len(),
    ensures
        match r {
            Ok((flags, end)) => spec_flags(s@, i as int) == Ok::<_, Failure>(
                (views(flags@), end as int),
            ) && i <= end <= s.len(),
            Err(f) => spec_flags(s@, i as int) == Err::<(Seq<Seq<char>>, int), _>(f@) && f.offset
                <= s.len(),
        },
{
    let mut flags: Vec<String> = Vec::new();
    let mut pos: usize = i;
    proof {
        assert(views(flags@) =~= Seq::<Seq<char>>::empty());
        if let Ok((more, end)) = spec_flags(s@, i as int) {
            assert(Seq::<Seq<char>>::empty() + more =~= more);
        }
    }
    loop
        invariant
            i <= pos <= s.len(),
            spec_flags(s@, i as int) == prepend(views(flags@), spec_flags(s@, pos as int)),
        decreases s.len() - pos,
    {
        let w = scan(s, pos, CharClass::Space);
        if !(w < s.len() && s[w] == ':') {
            proof {
                lemma_prepend_end(views(flags@), pos as int);
            }
            return Ok((flags, pos));
        }
        let e = scan(s, w + 1, CharClass::Letter);
        if e == w + 1 {
            return Err(Fault { kind: ErrorKind::Structure, offset: w + 1 });
        }
        let flag = to_string(s, w + 1, e);
        proof {
            lemma_prepend_push(views(flags@), flag@, spec_flags(s@, e as int));
            lemma_views_push(flags@, flag);
        }
        flags.push(flag);
        pos = e;
    }
}

/// Reads `:requirements :flag ...` at `i`.
pub fn requirements_at(s: &[char], i: usize) -> (r: Result<(Vec<String>, usize), Fault>)
    requires
        i <= s.len(),
    ensures
        match r {
            Ok((flags, end)) => spec_requirements(s@, i as int) == Ok::<_, Failure>(
                (views(flags@), end as int),
            ) && i < end <= s.len(),
            Err(f) => spec_requirements(s@, i as int) == Err::<(Seq<Seq<char>>, int), _>(f@)
                && f.offset <= s.len(),
        },
{
    match keyword_at(s, i, "requirements") {
        Err(f) => Err(f),
        Ok(k) => match flags_at(s, k) {
            Err(f) => Err(f),
            Ok((flags, end)) => if flags.len() == 0 {
                Err(Fault { kind: ErrorKind::Cardinality, offset: end })
            } else {
                Ok((flags, end))
            },
        },
    }
}

/// Reads `:requirements :flag ...` at the start of `input`, and hands back
/// the rest of the input with the flags.
pub fn parse_requirements(input: &str) -> (r: Result<(&str, Requirements), SyntaxError>)
    ensures
        match r {
            Ok((rest, flags)) => spec_requirements(input@, 0) matches Ok((v, end)) && views(flags@)
                == v && rest@ == input@.skip(end),
            Err(e) => spec_requirements(input@, 0) matches Err(f) && e.reports(input@, f),
        },
{
    let chars = to_chars(input);
    match requirements_at(chars.as_slice(), 0) {
        Ok((flags, end)) => Ok((tail(input, end), flags)),
        Err(f) => Err(locate(chars.as_slice(), f)),
    }
}

} // verus!
