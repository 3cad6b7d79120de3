//! The logical expressions of preconditions and effects.
use crate::error::{locate, ErrorKind, Failure, Fault, SyntaxError};
use crate::shared::{
    fold, fold_case, lemma_run_end, lemma_run_end_advances, lemma_run_end_unique, scan,
    skip_spaces, token, token_end, CharClass,
};
use crate::syntax::{expect_at, lemma_prepend_end, lemma_prepend_push, prepend, spec_expect};
use crate::term::{lemma_term_bounds, spec_term, term_at, Term, TermView};
use crate::text::{lemma_views_push, spells, tail, to_chars, views};
use vstd::prelude::*;

verus! {

/// The mathematical value of a [`StringExpression`].
pub enum ExpressionView {
    Predicate(TermView),
    Not(Box<ExpressionView>),
    And(Seq<ExpressionView>),
}

/// A logical expression over terms. The connectives are `not` and `and`;
/// the type is open to more of them, so code outside this crate that matches
/// on it must allow for variants it does not know.
#[non_exhaustive]
#[derive(Debug, PartialEq, Eq)]
pub enum StringExpression {
    /// A term on its own: `(at ?truck ?place)`.
    Predicate(Term),
    /// The negation of an expression: `(not <expression>)`.
    Not(Box<StringExpression>),
    /// The conjunction of any number of expressions: `(and <expression>*)`.
    And(Vec<StringExpression>),
}

impl StringExpression {
    /// The expression as a mathematical value.
    pub open spec fn model(self) -> ExpressionView
        decreases self,
    {
        match self {
            StringExpression::Predicate(t) => ExpressionView::Predicate(t@),
            StringExpression::Not(e) => ExpressionView::Not(Box::new(e.model())),
            StringExpression::And(v) => ExpressionView::And(
                Seq::new(
                    v@.len(),
                    |k: int|
                        if 0 <= k < v@.len() {
                            v@[k].model()
                        } else {
                            arbitrary()
                        },
                ),
            ),
        }
    }
}

impl View for StringExpression {
    type V = ExpressionView;

    open spec fn view(&self) -> ExpressionView {
        self.model()
    }
}

impl Clone for StringExpression {
    fn clone(&self) -> (r: Self)
        ensures
            r@ == self@,
        decreases self,
    {
        match self {
            StringExpression::Predicate(t) => StringExpression::Predicate(t.clone()),
            StringExpression::Not(e) => StringExpression::Not(Box::new((&**e).clone())),
            StringExpression::And(v) => {
                let mut parts: Vec<StringExpression> = Vec::new();
                let mut k: usize = 0;
                while k < v.len()
                    invariant
                        k <= v.len(),
                        *self == StringExpression::And(*v),
                        views(parts@) =~= views(v@).take(k as int),
                    decreases v.len() - k,
                {
                    assert(decreases_to!(*self => v@[k as int])) by {
                        assert(decreases_to!(*self => self->And_0));
                        assert(decreases_to!(self->And_0 => self->And_0@));
                        assert(decreases_to!(self->And_0@ => self->And_0@[k as int]));
                    }
                    let part = v[k].clone();
                    proof {
                        lemma_views_push(parts@, part);
                        assert(views(v@).take(k + 1) =~= views(v@).take(k as int).push(
                            v@[k as int]@,
                        ));
                    }
                    parts.push(part);
                    k = k + 1;
                }
                proof {
                    assert(views(v@).take(v.len() as int) =~= views(v@));
                    lemma_and_view(parts);
                    lemma_and_view(*v);
                }
                StringExpression::And(parts)
            },
        }
    }
}

/// A conjunction is the conjunction of the views of its parts.
proof fn lemma_and_view(v: Vec<StringExpression>)
    ensures
        StringExpression::And(v)@ == ExpressionView::And(views(v@)),
{
    assert(StringExpression::And(v).model()->And_0 =~= views(v@));
}

/// The expression that starts at `i`, after white space. It stands in
/// parentheses, and the first token inside them, folded, decides what it is:
/// `not` is followed by one expression, `and` by any number of them, and
/// anything else begins a term.
pub open spec fn spec_expression(s: Seq<char>, i: int) -> Result<(ExpressionView, int), Failure>
    decreases s.len() - i, 0nat,
{
    match spec_expect(s, i, '(') {
        Err(f) => Err(f),
        Ok(a) => {
            let b = skip_spaces(s, a);
            let head = fold_case(token(s, b));
            proof {
                lemma_run_end_advances(s, i, CharClass::Space);
                lemma_run_end(s, a, CharClass::Space);
                lemma_run_end(s, b, CharClass::Word);
            }
            if head == "not"@ {
                match spec_expression(s, token_end(s, b)) {
                    Err(f) => Err(f),
                    Ok((inner, e)) => match spec_expect(s, e, ')') {
                        Err(f) => Err(f),
                        Ok(end) => Ok((ExpressionView::Not(Box::new(inner)), end)),
                    },
                }
            } else if head == "and"@ {
                match spec_expressions(s, token_end(s, b)) {
                    Err(f) => Err(f),
                    Ok((parts, e)) => match spec_expect(s, e, ')') {
                        Err(f) => Err(f),
                        Ok(end) => Ok((ExpressionView::And(parts), end)),
                    },
                }
            } else {
                match spec_term(s, b) {
                    Err(f) => Err(f),
                    Ok((term, e)) => match spec_expect(s, e, ')') {
                        Err(f) => Err(f),
                        Ok(end) => Ok((ExpressionView::Predicate(term), end)),
                    },
                }
            }
        },
    }
}

/// The expressions that follow one another from `i` on, up to the first
/// thing that is no opening parenthesis. (An expression always ends after
/// it starts and inside the text: see [`lemma_expression_bounds`]. The test
/// for it here is what makes the definition well-founded.)
pub open spec fn spec_expressions(s: Seq<char>, i: int) -> Result<
    (Seq<ExpressionView>, int),
    Failure,
>
    decreases s.len() - i, 1nat,
{
    let w = skip_spaces(s, i);
    if 0 <= w < s.len() && s[w] == '(' {
        proof {
            lemma_run_end_advances(s, i, CharClass::Space);
        }
        match spec_expression(s, w) {
            Err(f) => Err(f),
            Ok((first, e)) => if w < e <= s.len() {
                prepend(seq![first], spec_expressions(s, e))
            } else {
                Err(Failure { kind: ErrorKind::Structure, at: w })
            },
        }
    } else {
        Ok((Seq::empty(), i))
    }
}

/// An expression ends after the offset where it starts, and inside the
/// text; a list of expressions ends at or after it.
pub proof fn lemma_expression_bounds(s: Seq<char>, i: int)
    requires
        0 <= i <= s.len(),
    ensures
        spec_expression(s, i) matches Ok((e, end)) ==> i < end <= s.len(),
        spec_expressions(s, i) matches Ok((parts, end)) ==> i <= end <= s.len(),
    decreases s.len() - i,
{
    lemma_run_end(s, i, CharClass::Space);
    let w = skip_spaces(s, i);
    if let Ok(a) = spec_expect(s, i, '(') {
        let b = skip_spaces(s, a);
        lemma_run_end(s, a, CharClass::Space);
        lemma_run_end(s, b, CharClass::Word);
        let head = fold_case(token(s, b));
        if head == "not"@ {
            lemma_expression_bounds(s, token_end(s, b));
            if let Ok((inner, e)) = spec_expression(s, token_end(s, b)) {
                lemma_run_end(s, e, CharClass::Space);
            }
        } else if head == "and"@ {
            lemma_expression_bounds(s, token_end(s, b));
            if let Ok((parts, e)) = spec_expressions(s, token_end(s, b)) {
                lemma_run_end(s, e, CharClass::Space);
            }
        } else {
            lemma_term_bounds(s, b);
            if let Ok((term, e)) = spec_term(s, b) {
                lemma_run_end(s, e, CharClass::Space);
            }
        }
        if let Ok((first, e)) = spec_expression(s, w) {
            if w < e <= s.len() {
                lemma_expression_bounds(s, e);
            }
        }
    }
}

/// Whether no term anywhere in `e` is named `not` or `and`.
pub open spec fn names_no_connective(e: ExpressionView) -> bool
    decreases e,
{
    match e {
        ExpressionView::Predicate(t) => t.name != "not"@ && t.name != "and"@,
        ExpressionView::Not(inner) => names_no_connective(*inner),
        ExpressionView::And(parts) => forall|k: int|
            0 <= k < parts.len() ==> names_no_connective(#[trigger] parts[k]),
    }
}

/// The connectives are never read as the names of terms: in an expression
/// that is read from a text, and in every expression of a list that is
/// read, no term is named `not` or `and`, however these are written.
pub proof fn lemma_connectives_are_no_names(s: Seq<char>, i: int)
    requires
        0 <= i <= s.len(),
    ensures
        spec_expression(s, i) matches Ok((e, end)) ==> names_no_connective(e),
        spec_expressions(s, i) matches Ok((parts, end)) ==> forall|k: int|
            0 <= k < parts.len() ==> names_no_connective(#[trigger] parts[k]),
    decreases s.len() - i,
{
    lemma_run_end(s, i, CharClass::Space);
    let w = skip_spaces(s, i);
    if let Ok(a) = spec_expect(s, i, '(') {
        let b = skip_spaces(s, a);
        lemma_run_end(s, a, CharClass::Space);
        lemma_run_end(s, b, CharClass::Word);
        let head = fold_case(token(s, b));
        lemma_expression_bounds(s, token_end(s, b));
        if head == "not"@ {
            lemma_connectives_are_no_names(s, token_end(s, b));
        } else if head == "and"@ {
            lemma_connectives_are_no_names(s, token_end(s, b));
        } else {
            lemma_run_end_unique(s, b, b, CharClass::Space);
        }
        if w > i {
            lemma_connectives_are_no_names(s, w);
        }
        lemma_expression_bounds(s, w);
        if let Ok((first, e)) = spec_expression(s, w) {
            lemma_connectives_are_no_names(s, e);
            if let Ok((rest, end)) = spec_expressions(s, e) {
                let parts = seq![first] + rest;
                assert forall|k: int| 0 <= k < parts.len() implies names_no_connective(
                    #[trigger] parts[k],
                ) by {
                    if k > 0 {
                        assert(parts[k] == rest[k - 1]);
                    }
                }
            }
        }
    }
}

/// Reads the expression that starts at `i`.
#[verifier::loop_isolation(false)]
pub fn expression_at(s: &[char], i: usize) -> (r: Result<(StringExpression, usize), Fault>)
    requires
        i <= s.len(),
    ensures
        match r {
            Ok((e, end)) => spec_expression(s@, i as int) == Ok::<_, Failure>((e@, end as int))
                && i < end <= s.len(),
            Err(f) => spec_expression(s@, i as int) == Err::<(ExpressionView, int), _>(f@)
                && f.offset <= s.len(),
        },
    decreases s.len() - i,
{
    let a = match expect_at(s, i, '(') {
        Err(f) => {
            return Err(f);
        },
        Ok(a) => a,
    };
    let b = scan(s, a, CharClass::Space);
    let word_end = scan(s, b, CharClass::Word);
    let head = fold(s, b, word_end);
    let n = head.len();
    assert(head@.subrange(0, n as int) =~= head@);
    if spells(head.as_slice(), 0, n, "not") {
        match expression_at(s, word_end) {
            Err(f) => Err(f),
            Ok((inner, e)) => match expect_at(s, e, ')') {
                Err(f) => Err(f),
                Ok(end) => Ok((StringExpression::Not(Box::new(inner)), end)),
            },
        }
    } else if spells(head.as_slice(), 0, n, "and") {
        let mut parts: Vec<StringExpression> = Vec::new();
        let mut pos: usize = word_end;
        proof {
            assert(views(parts@) =~= Seq::<ExpressionView>::empty());
            if let Ok((more, end)) = spec_expressions(s@, word_end as int) {
                assert(Seq::<ExpressionView>::empty() + more =~= more);
            }
        }
        loop
            invariant
                i < word_end <= pos <= s.len(),
                spec_expressions(s@, word_end as int) == prepend(
                    views(parts@),
                    spec_expressions(s@, pos as int),
                ),
            decreases s.len() - pos,
        {
            let w = scan(s, pos, CharClass::Space);
            if !(w < s.len() && s[w] == '(') {
                proof {
                    lemma_prepend_end(views(parts@), pos as int);
                    lemma_and_view(parts);
                }
                return match expect_at(s, pos, ')') {
                    Err(f) => Err(f),
                    Ok(end) => Ok((StringExpression::And(parts), end)),
                };
            }
            match expression_at(s, w) {
                Err(f) => {
                    return Err(f);
                },
                Ok((part, e)) => {
                    proof {
                        lemma_prepend_push(views(parts@), part@, spec_expressions(s@, e as int));
                        lemma_views_push(parts@, part);
                    }
                    parts.push(part);
                    pos = e;
                },
            }
        }
    } else {
        match term_at(s, b) {
            Err(f) => Err(f),
            Ok((term, e)) => match expect_at(s, e, ')') {
                Err(f) => Err(f),
                Ok(end) => Ok((StringExpression::Predicate(term), end)),
            },
        }
    }
}

/// Reads the expression at the start of `input`, and hands back the rest
/// of the input with it.
pub fn parse_expression(input: &str) -> (r: Result<(&str, StringExpression), SyntaxError>)
    ensures
        match r {
            Ok((rest, e)) => spec_expression(input@, 0) matches Ok((v, end)) && e@ == v && rest@
                == input@.skip(end),
            Err(e) => spec_expression(input@, 0) matches Err(f) && e.reports(input@, f),
        },
{
    let chars = to_chars(input);
    match expression_at(chars.as_slice(), 0) {
        Ok((e, end)) => Ok((tail(input, end), e)),
        Err(f) => Err(locate(chars.as_slice(), f)),
    }
}

} // verus!
