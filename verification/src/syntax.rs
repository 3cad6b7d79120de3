//! What the grammars of the sections share: lists of identifiers,
//! punctuation and keywords.
use crate::error::{ErrorKind, Failure, Fault};
use crate::shared::{
    lemma_run_end, lemma_run_end_advances, named_at, scan, skip_spaces, spec_named, token,
    token_end, CharClass,
};
use crate::text::{lemma_views_push, spells, views};
use vstd::prelude::*;

verus! {

/// A list that has been read in part: the items `done`, followed by what
/// `rest` says of the remainder.
pub open spec fn prepend<T>(done: Seq<T>, rest: Result<(Seq<T>, int), Failure>) -> Result<
    (Seq<T>, int),
    Failure,
> {
    match rest {
        Ok((more, end)) => Ok((done + more, end)),
        Err(f) => Err(f),
    }
}

/// Reading one more item moves it from the remainder to the part read.
pub proof fn lemma_prepend_push<T>(done: Seq<T>, x: T, rest: Result<(Seq<T>, int), Failure>)
    ensures
        prepend(done, prepend(seq![x], rest)) == prepend(done.push(x), rest),
{
    if let Ok((more, end)) = rest {
        assert(done + (seq![x] + more) =~= done.push(x) + more);
    }
}

/// A list that ends here is the part read.
pub proof fn lemma_prepend_end<T>(done: Seq<T>, end: int)
    ensures
        prepend(done, Ok((Seq::<T>::empty(), end))) == Ok::<_, Failure>((done, end)),
{
    assert(done + Seq::<T>::empty() =~= done);
}

/// Whether a `-` stands alone as the token at `w`.
pub open spec fn is_dash(s: Seq<char>, w: int) -> bool {
    0 <= w < s.len() && token(s, w) == "-"@
}

/// The identifiers that follow one another from `i` on, parted by white
/// space, with the offset at which the last of them ends. The list ends,
/// without taking the white space before it, where no identifier follows:
/// at the end of the text, at a delimiter or at a reserved token.
pub open spec fn spec_names(s: Seq<char>, i: int) -> (Seq<Seq<char>>, int)
    decreases s.len() - i,
{
    let w = skip_spaces(s, i);
    match spec_named(s, w) {
        Ok((name, e)) if 0 <= w < s.len() => {
            proof {
                lemma_run_end_advances(s, i, CharClass::Space);
                lemma_run_end(s, w, CharClass::Word);
            }
            (seq![name] + spec_names(s, e).0, spec_names(s, e).1)
        },
        _ => (Seq::empty(), i),
    }
}

/// A list of identifiers ends at or after the offset where it starts, and
/// inside the text.
pub proof fn lemma_names_bounds(s: Seq<char>, i: int)
    ensures
        i <= spec_names(s, i).1,
        i <= s.len() ==> spec_names(s, i).1 <= s.len(),
    decreases s.len() - i,
{
    let w = skip_spaces(s, i);
    lemma_run_end_advances(s, i, CharClass::Space);
    if 0 <= w < s.len() {
        if let Ok((name, e)) = spec_named(s, w) {
            lemma_run_end(s, w, CharClass::Word);
            lemma_names_bounds(s, e);
        }
    }
}

/// Reads the identifiers that follow one another from `i` on.
pub fn names_at(s: &[char], i: usize) -> (r: (Vec<String>, usize))
    requires
        i <= s.len(),
    ensures
        spec_names(s@, i as int) == (views(r.0@), r.1 as int),
        i <= r.1 <= s.len(),
{
    let mut names: Vec<String> = Vec::new();
    let mut pos: usize = i;
    proof {
        assert(views(names@) + spec_names(s@, i as int).0 =~= spec_names(s@, i as int).0);
    }
    loop
        invariant
            i <= pos <= s.len(),
            spec_names(s@, i as int).0 == views(names@) + spec_names(s@, pos as int).0,
            spec_names(s@, i as int).1 == spec_names(s@, pos as int).1,
        decreases s.len() - pos,
    {
        let w = scan(s, pos, CharClass::Space);
        match named_at(s, w) {
            Err(_) => {
                proof {
                    assert(views(names@) + Seq::<Seq<char>>::empty() =~= views(names@));
                }
                return (names, pos);
            },
            Ok((name, end)) => {
                proof {
                    lemma_views_push(names@, name);
                    assert(views(names@) + (seq![name@] + spec_names(s@, end as int).0)
                        =~= views(names@).push(name@) + spec_names(s@, end as int).0);
                }
                names.push(name);
                pos = end;
            },
        }
    }
}

/// The offset after the character `c`, which must be the first after the
/// white space at `i`.
pub open spec fn spec_expect(s: Seq<char>, i: int, c: char) -> Result<int, Failure> {
    let w = skip_spaces(s, i);
    if 0 <= w < s.len() && s[w] == c {
        Ok(w + 1)
    } else {
        Err(Failure { kind: ErrorKind::Structure, at: w })
    }
}

/// Steps over white space and the character `c`.
pub fn expect_at(s: &[char], i: usize, c: char) -> (r: Result<usize, Fault>)
    requires
        i <= s.len(),
    ensures
        match r {
            Ok(end) => spec_expect(s@, i as int, c) == Ok::<_, Failure>(end as int) && i < end
                <= s.len(),
            Err(f) => spec_expect(s@, i as int, c) == Err::<int, _>(f@) && f.offset <= s.len(),
        },
{
    let w = scan(s, i, CharClass::Space);
    if w < s.len() && s[w] == c {
        Ok(w + 1)
    } else {
        Err(Fault { kind: ErrorKind::Structure, offset: w })
    }
}

/// The offset after the token `word`, which must be the first after the
/// white space at `i`, written exactly so.
pub open spec fn spec_word(s: Seq<char>, i: int, word: Seq<char>) -> Result<int, Failure> {
    let w = skip_spaces(s, i);
    if 0 <= w < s.len() && token(s, w) == word {
        Ok(token_end(s, w))
    } else {
        Err(Failure { kind: ErrorKind::Structure, at: w })
    }
}

/// Steps over white space and the token `word`.
pub fn word_at(s: &[char], i: usize, word: &str) -> (r: Result<usize, Fault>)
    requires
        i <= s.len(),
    ensures
        match r {
            Ok(end) => spec_word(s@, i as int, word@) == Ok::<_, Failure>(end as int) && i
                <= end <= s.len(),
            Err(f) => spec_word(s@, i as int, word@) == Err::<int, _>(f@) && f.offset
                <= s.len(),
        },
{
    let w = scan(s, i, CharClass::Space);
    let end = scan(s, w, CharClass::Word);
    if w < s.len() && spells(s, w, end, word) {
        Ok(end)
    } else {
        Err(Fault { kind: ErrorKind::Structure, offset: w })
    }
}

/// The offset after the keyword `:word`, which must be the first thing
/// after the white space at `i`.
pub open spec fn spec_keyword(s: Seq<char>, i: int, word: Seq<char>) -> Result<int, Failure> {
    let w = skip_spaces(s, i);
    if 0 <= w < s.len() && s[w] == ':' && token(s, w + 1) == word {
        Ok(token_end(s, w + 1))
    } else {
        Err(Failure { kind: ErrorKind::Structure, at: w })
    }
}

/// Steps over white space and the keyword `:word`.
pub fn keyword_at(s: &[char], i: usize, word: &str) -> (r: Result<usize, Fault>)
    requires
        i <= s.len(),
    ensures
        match r {
            Ok(end) => spec_keyword(s@, i as int, word@) == Ok::<_, Failure>(end as int) && i
                < end <= s.len(),
            Err(f) => spec_keyword(s@, i as int, word@) == Err::<int, _>(f@) && f.offset
                <= s.len(),
        },
{
    let w = scan(s, i, CharClass::Space);
    if w < s.len() && s[w] == ':' {
        let end = scan(s, w + 1, CharClass::Word);
        if spells(s, w + 1, end, word) {
            return Ok(end);
        }
    }
    Err(Fault { kind: ErrorKind::Structure, offset: w })
}

} // verus!
