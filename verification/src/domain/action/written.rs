//! How an expression is written, and that what is written is read back.
use crate::domain::action::string_expression::{spec_expression, spec_expressions, ExpressionView};
use crate::error::Failure;
use crate::shared::{
    fold_case, is_delimiter, is_reserved, lemma_run_end_unique, skip_spaces, spec_named, token,
    token_end, CharClass,
};
use crate::domain::action::spec_conditions;
use crate::syntax::{is_dash, spec_keyword, spec_names};
use crate::term::{spec_term, TermView};
use vstd::prelude::*;

verus! {

/// Whether `n` is an identifier as the parser hands it out: not empty, free
/// of delimiters, in folded form and not reserved.
pub open spec fn is_name(n: Seq<char>) -> bool {
    &&& n.len() > 0
    &&& forall|k: int| 0 <= k < n.len() ==> !is_delimiter(#[trigger] n[k])
    &&& fold_case(n) == n
    &&& !is_reserved(n)
}

/// Whether every name in `e` is an identifier, and no term is named `not`.
pub open spec fn well_named(e: ExpressionView) -> bool
    decreases e,
{
    match e {
        ExpressionView::Predicate(t) => {
            &&& is_name(t.name)
            &&& t.name != "not"@
            &&& forall|k: int| 0 <= k < t.parameters.len() ==> is_name(#[trigger] t.parameters[k])
        },
        ExpressionView::Not(inner) => well_named(*inner),
        ExpressionView::And(parts) => forall|k: int|
            0 <= k < parts.len() ==> well_named(#[trigger] parts[k]),
    }
}

/// Names as arguments are written: each after a blank.
pub open spec fn written_names(names: Seq<Seq<char>>) -> Seq<char>
    decreases names.len(),
{
    if names.len() == 0 {
        Seq::empty()
    } else {
        seq![' '] + names.first() + written_names(names.drop_first())
    }
}

/// A term as it is written: its name, then its arguments.
pub open spec fn written_term(t: TermView) -> Seq<char> {
    t.name + written_names(t.parameters)
}

/// An expression as it is written, with single blanks and in small
/// letters.
pub open spec fn written(e: ExpressionView) -> Seq<char>
    decreases e,
{
    match e {
        ExpressionView::Predicate(t) => "("@ + written_term(t) + ")"@,
        ExpressionView::Not(inner) => "(not "@ + written(*inner) + ")"@,
        ExpressionView::And(parts) => "(and"@ + written_parts(parts) + ")"@,
    }
}

/// Expressions as the parts of a conjunction are written: each after a
/// blank.
pub open spec fn written_parts(parts: Seq<ExpressionView>) -> Seq<char>
    decreases parts,
{
    if parts.len() == 0 {
        Seq::empty()
    } else {
        seq![' '] + written(parts.first()) + written_parts(parts.drop_first())
    }
}

/// Whether `s` holds the text `x` at `i`.
pub open spec fn holds_at(s: Seq<char>, i: int, x: Seq<char>) -> bool {
    0 <= i && i + x.len() <= s.len() && s.subrange(i, i + x.len()) == x
}

/// A text is held where it is held as the first of two.
proof fn lemma_holds_first(s: Seq<char>, i: int, x: Seq<char>, y: Seq<char>)
    requires
        holds_at(s, i, x + y),
    ensures
        holds_at(s, i, x),
        holds_at(s, i + x.len(), y),
{
    let xy = x + y;
    assert(s.subrange(i, i + x.len()) =~= x) by {
        assert forall|k: int| 0 <= k < x.len() implies s.subrange(i, i + x.len())[k]
            == #[trigger] x[k] by {
            assert(s.subrange(i, i + xy.len())[k] == xy[k]);
        }
    }
    assert(s.subrange(i + x.len(), i + x.len() + y.len()) =~= y) by {
        assert forall|k: int| 0 <= k < y.len() implies s.subrange(
            i + x.len(),
            i + x.len() + y.len(),
        )[k] == #[trigger] y[k] by {
            assert(s.subrange(i, i + xy.len())[x.len() + k] == xy[x.len() + k]);
        }
    }
}

/// A character of a text that is held stands in the text that holds it.
proof fn lemma_holds_char(s: Seq<char>, i: int, x: Seq<char>, k: int)
    requires
        holds_at(s, i, x),
        0 <= k < x.len(),
    ensures
        s[i + k] == x[k],
{
    assert(s.subrange(i, i + x.len())[k] == s[i + k]);
}

/// A name that is followed by a delimiter is read as that name.
proof fn lemma_read_name(s: Seq<char>, w: int, n: Seq<char>)
    requires
        is_name(n),
        holds_at(s, w, n),
        w + n.len() < s.len(),
        is_delimiter(s[w + n.len()]),
    ensures
        token_end(s, w) == w + n.len(),
        token(s, w) == n,
        spec_named(s, w) == Ok::<_, Failure>((n, w + n.len())),
        skip_spaces(s, w) == w,
        !is_delimiter(s[w]),
        !is_dash(s, w),
{
    assert forall|k: int| w <= k < w + n.len() implies CharClass::Word.holds(#[trigger] s[k]) by {
        lemma_holds_char(s, w, n, k - w);
    }
    lemma_run_end_unique(s, w, w + n.len(), CharClass::Word);
    assert(CharClass::Word.holds(s[w]));
    lemma_run_end_unique(s, w, w, CharClass::Space);
    reveal_strlit("-");
    reveal_strlit("=");
    reveal_strlit("and");
}

/// Names that are written as arguments before a closing parenthesis are
/// read as those names.
proof fn lemma_read_names(s: Seq<char>, p: int, names: Seq<Seq<char>>)
    requires
        forall|k: int| 0 <= k < names.len() ==> is_name(#[trigger] names[k]),
        holds_at(s, p, written_names(names) + seq![')']),
    ensures
        spec_names(s, p) == (names, p + written_names(names).len()),
        is_delimiter(s[p]),
    decreases names.len(),
{
    let w = written_names(names);
    lemma_holds_first(s, p, w, seq![')']);
    lemma_holds_char(s, p + w.len(), seq![')'], 0);
    if names.len() == 0 {
        lemma_run_end_unique(s, p, p, CharClass::Space);
        assert(names =~= Seq::<Seq<char>>::empty());
    } else {
        let n = names.first();
        let rest = names.drop_first();
        let later = written_names(rest);
        assert(is_name(names[0]));
        assert forall|k: int| 0 <= k < rest.len() implies is_name(#[trigger] rest[k]) by {
            assert(rest[k] == names[k + 1]);
        }
        assert(w + seq![')'] =~= seq![' '] + (n + (later + seq![')'])));
        lemma_holds_first(s, p, seq![' '], n + (later + seq![')']));
        lemma_holds_char(s, p, seq![' '], 0);
        lemma_holds_first(s, p + 1, n, later + seq![')']);
        lemma_read_names(s, p + 1 + n.len(), rest);
        lemma_read_name(s, p + 1, n);
        lemma_run_end_unique(s, p, p + 1, CharClass::Space);
        assert(seq![n] + rest =~= names);
    }
}

/// A term that is written before a closing parenthesis is read as that
/// term.
proof fn lemma_read_term(s: Seq<char>, h: int, t: TermView)
    requires
        is_name(t.name),
        forall|k: int| 0 <= k < t.parameters.len() ==> is_name(#[trigger] t.parameters[k]),
        holds_at(s, h, written_term(t) + seq![')']),
    ensures
        spec_term(s, h) == Ok::<_, Failure>((t, h + written_term(t).len())),
        skip_spaces(s, h) == h,
        token(s, h) == t.name,
{
    let args = written_names(t.parameters);
    assert(written_term(t) + seq![')'] =~= t.name + (args + seq![')']));
    lemma_holds_first(s, h, t.name, args + seq![')']);
    lemma_read_names(s, h + t.name.len(), t.parameters);
    lemma_read_name(s, h, t.name);
    if t.parameters.len() == 0 {
        lemma_holds_char(s, h + t.name.len(), args + seq![')'], 0);
        lemma_run_end_unique(s, h + t.name.len(), h + t.name.len(), CharClass::Space);
    }
}

/// What is written of an expression begins with an opening parenthesis.
proof fn lemma_written_opens(e: ExpressionView)
    ensures
        written(e).len() >= 2,
        written(e)[0] == '(',
{
    reveal_strlit("(");
    reveal_strlit(")");
    reveal_strlit("(not ");
    reveal_strlit("(and");
}

/// Every expression is read back from what is written of it: wherever a
/// text holds the written form of an expression whose names are identifiers,
/// that expression is read there, however deep it is, and the reading stops
/// where the written form ends.
pub proof fn lemma_read_back(s: Seq<char>, i: int, e: ExpressionView)
    requires
        well_named(e),
        holds_at(s, i, written(e)),
    ensures
        spec_expression(s, i) == Ok::<_, Failure>((e, i + written(e).len())),
    decreases e,
{
    reveal_strlit("(");
    reveal_strlit(")");
    reveal_strlit("(not ");
    reveal_strlit("(and");
    reveal_strlit("not");
    reveal_strlit("and");
    let w = written(e);
    lemma_written_opens(e);
    lemma_holds_char(s, i, w, 0);
    lemma_holds_char(s, i, w, w.len() - 1);
    lemma_run_end_unique(s, i, i, CharClass::Space);
    match e {
        ExpressionView::Predicate(t) => {
            assert("("@ =~= seq!['(']);
            assert(")"@ =~= seq![')']);
            assert(w =~= seq!['('] + (written_term(t) + seq![')']));
            lemma_holds_first(s, i, seq!['('], written_term(t) + seq![')']);
            lemma_read_term(s, i + 1, t);
            lemma_run_end_unique(s, i + 1 + written_term(t).len(), i + 1 + written_term(t).len(),
                CharClass::Space);
            assert(fold_case(token(s, skip_spaces(s, i + 1))) == t.name);
            assert(spec_expression(s, i) == Ok::<_, Failure>((e, i + w.len())));
        },
        ExpressionView::Not(inner) => {
            let x = written(*inner);
            lemma_written_opens(*inner);
            assert(w =~= "(not "@ + (x + ")"@));
            lemma_holds_first(s, i, "(not "@, x + ")"@);
            lemma_holds_first(s, i + 5, x, ")"@);
            lemma_holds_char(s, i, "(not "@, 1);
            lemma_holds_char(s, i, "(not "@, 2);
            lemma_holds_char(s, i, "(not "@, 3);
            lemma_holds_char(s, i, "(not "@, 4);
            lemma_holds_char(s, i + 5, x, 0);
            lemma_run_end_unique(s, i + 1, i + 1, CharClass::Space);
            lemma_run_end_unique(s, i + 1, i + 4, CharClass::Word);
            assert(token(s, i + 1) =~= "not"@);
            assert(fold_case("not"@) =~= "not"@);
            lemma_run_end_unique(s, i + 4, i + 5, CharClass::Space);
            lemma_run_end_unique(s, i + 5, i + 5, CharClass::Space);
            lemma_read_back(s, i + 5, *inner);
            lemma_run_end_unique(s, i + 5 + x.len(), i + 5 + x.len(), CharClass::Space);
            assert(spec_expression(s, i + 4) == spec_expression(s, i + 5));
            assert(spec_expression(s, i) == Ok::<_, Failure>((e, i + w.len())));
        },
        ExpressionView::And(parts) => {
            let x = written_parts(parts);
            assert(w =~= "(and"@ + (x + ")"@));
            assert(")"@ =~= seq![')']);
            lemma_holds_first(s, i, "(and"@, x + seq![')']);
            lemma_holds_char(s, i, "(and"@, 1);
            lemma_holds_char(s, i, "(and"@, 2);
            lemma_holds_char(s, i, "(and"@, 3);
            lemma_read_parts(s, i + 4, parts);
            lemma_run_end_unique(s, i + 1, i + 1, CharClass::Space);
            lemma_run_end_unique(s, i + 1, i + 4, CharClass::Word);
            assert(token(s, i + 1) =~= "and"@);
            assert(fold_case("and"@) =~= "and"@);
            lemma_run_end_unique(s, i + 4 + x.len(), i + 4 + x.len(), CharClass::Space);
            assert("and"@[0] != "not"@[0]);
            assert(spec_expression(s, i) == Ok::<_, Failure>((e, i + w.len())));
        },
    }
}

/// The parts of a conjunction that are written before its closing
/// parenthesis are read as those parts.
proof fn lemma_read_parts(s: Seq<char>, p: int, parts: Seq<ExpressionView>)
    requires
        forall|k: int| 0 <= k < parts.len() ==> well_named(#[trigger] parts[k]),
        holds_at(s, p, written_parts(parts) + seq![')']),
    ensures
        spec_expressions(s, p) == Ok::<_, Failure>((parts, p + written_parts(parts).len())),
        is_delimiter(s[p]),
    decreases parts,
{
    let w = written_parts(parts);
    lemma_holds_first(s, p, w, seq![')']);
    lemma_holds_char(s, p + w.len(), seq![')'], 0);
    if parts.len() == 0 {
        lemma_run_end_unique(s, p, p, CharClass::Space);
        assert(parts =~= Seq::<ExpressionView>::empty());
    } else {
        let first = parts.first();
        let rest = parts.drop_first();
        let x = written(first);
        let later = written_parts(rest);
        assert(well_named(parts[0]));
        assert forall|k: int| 0 <= k < rest.len() implies well_named(#[trigger] rest[k]) by {
            assert(rest[k] == parts[k + 1]);
        }
        lemma_written_opens(first);
        assert(w + seq![')'] =~= seq![' '] + (x + (later + seq![')'])));
        lemma_holds_first(s, p, seq![' '], x + (later + seq![')']));
        lemma_holds_char(s, p, seq![' '], 0);
        lemma_holds_first(s, p + 1, x, later + seq![')']);
        lemma_holds_char(s, p + 1, x, 0);
        lemma_run_end_unique(s, p, p + 1, CharClass::Space);
        assert(decreases_to!(parts => rest)) by {
            assert(rest == parts.subrange(1, parts.len() as int));
        }
        lemma_read_back(s, p + 1, first);
        lemma_read_parts(s, p + 1 + x.len(), rest);
        assert(seq![first] + rest =~= parts);
    }
}

/// An effect is read back from what is written of it: where a text holds
/// ` :effect ` and then the written form of an expression, no precondition
/// and that expression as the effect are read.
pub proof fn lemma_effect_read_back(s: Seq<char>, i: int, e: ExpressionView)
    requires
        well_named(e),
        holds_at(s, i, " :effect "@ + written(e)),
    ensures
        spec_conditions(s, i) == Ok::<_, Failure>(
            ((None::<ExpressionView>, e), i + 9 + written(e).len()),
        ),
{
    reveal_strlit(" :effect ");
    reveal_strlit("effect");
    reveal_strlit("precondition");
    let key = " :effect "@;
    lemma_holds_first(s, i, key, written(e));
    lemma_holds_char(s, i, key, 0);
    lemma_holds_char(s, i, key, 1);
    lemma_holds_char(s, i, key, 2);
    lemma_holds_char(s, i, key, 3);
    lemma_holds_char(s, i, key, 4);
    lemma_holds_char(s, i, key, 5);
    lemma_holds_char(s, i, key, 6);
    lemma_holds_char(s, i, key, 7);
    lemma_holds_char(s, i, key, 8);
    lemma_written_opens(e);
    lemma_holds_char(s, i + 9, written(e), 0);
    lemma_run_end_unique(s, i, i + 1, CharClass::Space);
    lemma_run_end_unique(s, i + 2, i + 8, CharClass::Word);
    assert(token(s, i + 2) =~= "effect"@);
    assert(token(s, i + 2).len() != "precondition"@.len());
    lemma_run_end_unique(s, i + 8, i + 9, CharClass::Space);
    lemma_run_end_unique(s, i + 9, i + 9, CharClass::Space);
    lemma_read_back(s, i + 9, e);
    assert(spec_expression(s, i + 8) == spec_expression(s, i + 9));
    assert(spec_keyword(s, i, "effect"@) == Ok::<_, Failure>(i + 8));
    assert(spec_keyword(s, i, "precondition"@) is Err);
}

} // verus!
