//! What a section means does not depend on where in a text it stands: so
//! sections may be written in any order, and a written effect is read back
//! from the whole definition that holds it.
use crate::domain::action::string_expression::{
    lemma_expression_bounds, spec_expression, spec_expressions, ExpressionView,
};
use crate::domain::action::written::{holds_at, lemma_effect_read_back, well_named, written};
use crate::domain::action::{
    lemma_conditions_bounds, lemma_effect_bounds, spec_action, spec_conditions, spec_effect,
    spec_heading, ActionView,
};
use crate::domain::parameter::{spec_groups, spec_parameters, ParameterView};
use crate::domain::predicate::{
    lemma_signature_bounds, lemma_signatures_bounds, spec_signature, spec_signatures,
};
use crate::domain::requirement::spec_flags;
use crate::domain::{
    actions_of, lemma_action_is_kept, lemma_domain_without_comments, lemma_section_bounds,
    lemma_section_order_is_free, of_kind, spec_assemble, spec_body, spec_definition, spec_domain,
    spec_section, spec_sections, SectionKind, SectionView,
};
use crate::error::Failure;
use crate::shared::{
    fold_case, is_delimiter, is_space, lemma_run_end, lemma_run_end_advances, lemma_run_end_unique,
    run_end, skip_spaces, spec_named, token, token_end, CharClass,
};
use crate::syntax::{
    is_dash, lemma_prepend_end, prepend, spec_expect, spec_keyword, spec_names, spec_word,
};
use crate::term::spec_term;
use vstd::prelude::*;

verus! {

/// Whether `t` holds, `d` characters further on, what `s` holds from `lo`
/// to `hi`, where `s` has a closing parenthesis at `hi`.
spec fn moved(s: Seq<char>, t: Seq<char>, lo: int, hi: int, d: int) -> bool {
    &&& 0 <= lo <= hi < s.len()
    &&& 0 <= lo + d
    &&& hi + d < t.len()
    &&& s[hi] == ')'
    &&& forall|k: int| lo <= k <= hi ==> #[trigger] s[k] == t[k + d]
}

/// A result with its offset moved by `d`.
spec fn shifted<T>(r: Result<(T, int), Failure>, d: int) -> Result<(T, int), Failure> {
    match r {
        Ok((v, end)) => Ok((v, end + d)),
        Err(f) => Err(Failure { kind: f.kind, at: f.at + d }),
    }
}

/// An offset, or a failure, moved by `d`.
spec fn shifted_offset(r: Result<int, Failure>, d: int) -> Result<int, Failure> {
    match r {
        Ok(end) => Ok(end + d),
        Err(f) => Err(Failure { kind: f.kind, at: f.at + d }),
    }
}

/// A run that starts in the part that was moved ends in it, and moves with
/// it.
proof fn lemma_moved_run(
    s: Seq<char>,
    t: Seq<char>,
    lo: int,
    hi: int,
    d: int,
    i: int,
    class: CharClass,
)
    requires
        moved(s, t, lo, hi, d),
        lo <= i <= hi,
    ensures
        i <= run_end(s, i, class) <= hi,
        run_end(t, i + d, class) == run_end(s, i, class) + d,
    decreases hi - i,
{
    assert(s[i] == t[i + d]);
    if i < hi && class.holds(s[i]) {
        lemma_moved_run(s, t, lo, hi, d, i + 1, class);
    }
}

/// The token at an offset of the part that was moved moves with it.
proof fn lemma_moved_token(s: Seq<char>, t: Seq<char>, lo: int, hi: int, d: int, w: int)
    requires
        moved(s, t, lo, hi, d),
        lo <= w <= hi,
    ensures
        w <= token_end(s, w) <= hi,
        token_end(t, w + d) == token_end(s, w) + d,
        token(t, w + d) == token(s, w),
{
    lemma_moved_run(s, t, lo, hi, d, w, CharClass::Word);
    assert forall|k: int| 0 <= k < token(s, w).len() implies token(s, w)[k] == token(t, w + d)[k] by {
        assert(s[w + k] == t[w + k + d]);
    }
    assert(token(t, w + d) =~= token(s, w));
}

/// The identifier at an offset of the part that was moved moves with it.
proof fn lemma_moved_named(s: Seq<char>, t: Seq<char>, lo: int, hi: int, d: int, w: int)
    requires
        moved(s, t, lo, hi, d),
        lo <= w <= hi,
    ensures
        spec_named(t, w + d) == shifted(spec_named(s, w), d),
        spec_named(s, w) matches Ok((name, end)) ==> w < end <= hi,
{
    lemma_moved_token(s, t, lo, hi, d, w);
}

/// A character is expected at an offset of the part that was moved with
/// the outcome that moves with it.
proof fn lemma_moved_expect(
    s: Seq<char>,
    t: Seq<char>,
    lo: int,
    hi: int,
    d: int,
    i: int,
    c: char,
)
    requires
        moved(s, t, lo, hi, d),
        lo <= i <= hi,
    ensures
        spec_expect(t, i + d, c) == shifted_offset(spec_expect(s, i, c), d),
        spec_expect(s, i, c) matches Ok(end) ==> i < end <= hi + 1,
        spec_expect(s, i, c) matches Ok(end) ==> c != ')' ==> end <= hi,
{
    lemma_moved_run(s, t, lo, hi, d, i, CharClass::Space);
    assert(s[skip_spaces(s, i)] == t[skip_spaces(s, i) + d]);
}

/// A keyword is found at an offset of the part that was moved with the
/// outcome that moves with it.
proof fn lemma_moved_keyword(
    s: Seq<char>,
    t: Seq<char>,
    lo: int,
    hi: int,
    d: int,
    i: int,
    word: Seq<char>,
)
    requires
        moved(s, t, lo, hi, d),
        lo <= i <= hi,
    ensures
        spec_keyword(t, i + d, word) == shifted_offset(spec_keyword(s, i, word), d),
        spec_keyword(s, i, word) matches Ok(end) ==> i < end <= hi,
{
    lemma_moved_run(s, t, lo, hi, d, i, CharClass::Space);
    let w = skip_spaces(s, i);
    assert(s[w] == t[w + d]);
    if s[w] == ':' {
        lemma_moved_token(s, t, lo, hi, d, w + 1);
    }
}

/// A word is found at an offset of the part that was moved with the
/// outcome that moves with it.
proof fn lemma_moved_word(
    s: Seq<char>,
    t: Seq<char>,
    lo: int,
    hi: int,
    d: int,
    i: int,
    word: Seq<char>,
)
    requires
        moved(s, t, lo, hi, d),
        lo <= i <= hi,
    ensures
        spec_word(t, i + d, word) == shifted_offset(spec_word(s, i, word), d),
        spec_word(s, i, word) matches Ok(end) ==> i <= end <= hi,
{
    lemma_moved_run(s, t, lo, hi, d, i, CharClass::Space);
    lemma_moved_token(s, t, lo, hi, d, skip_spaces(s, i));
}

/// The identifiers from an offset of the part that was moved move with it.
proof fn lemma_moved_names(s: Seq<char>, t: Seq<char>, lo: int, hi: int, d: int, i: int)
    requires
        moved(s, t, lo, hi, d),
        lo <= i <= hi,
    ensures
        spec_names(t, i + d) == (spec_names(s, i).0, spec_names(s, i).1 + d),
        i <= spec_names(s, i).1 <= hi,
    decreases hi - i,
{
    lemma_moved_run(s, t, lo, hi, d, i, CharClass::Space);
    let w = skip_spaces(s, i);
    lemma_moved_named(s, t, lo, hi, d, w);
    if let Ok((name, e)) = spec_named(s, w) {
        lemma_moved_names(s, t, lo, hi, d, e);
    }
}

/// The typed list from an offset of the part that was moved moves with it.
proof fn lemma_moved_groups(s: Seq<char>, t: Seq<char>, lo: int, hi: int, d: int, i: int)
    requires
        moved(s, t, lo, hi, d),
        lo <= i <= hi,
    ensures
        spec_groups(t, i + d) == shifted(spec_groups(s, i), d),
        spec_parameters(t, i + d) == shifted(spec_parameters(s, i), d),
        spec_groups(s, i) matches Ok((groups, end)) ==> i <= end <= hi,
    decreases hi - i,
{
    lemma_moved_names(s, t, lo, hi, d, i);
    let (names, e) = spec_names(s, i);
    lemma_moved_run(s, t, lo, hi, d, e, CharClass::Space);
    let w = skip_spaces(s, e);
    lemma_moved_token(s, t, lo, hi, d, w);
    if is_dash(s, w) && names.len() > 0 {
        reveal_strlit("-");
        assert(token(s, w).len() == 1);
        lemma_moved_run(s, t, lo, hi, d, w + 1, CharClass::Space);
        let at = skip_spaces(s, w + 1);
        lemma_moved_named(s, t, lo, hi, d, at);
        if let Ok((type_of, after)) = spec_named(s, at) {
            lemma_moved_groups(s, t, lo, hi, d, after);
        }
    }
}

/// The term at an offset of the part that was moved moves with it.
proof fn lemma_moved_term(s: Seq<char>, t: Seq<char>, lo: int, hi: int, d: int, i: int)
    requires
        moved(s, t, lo, hi, d),
        lo <= i <= hi,
    ensures
        spec_term(t, i + d) == shifted(spec_term(s, i), d),
        spec_term(s, i) matches Ok((term, end)) ==> i < end <= hi,
{
    lemma_moved_run(s, t, lo, hi, d, i, CharClass::Space);
    lemma_moved_named(s, t, lo, hi, d, skip_spaces(s, i));
    if let Ok((name, e)) = spec_named(s, skip_spaces(s, i)) {
        lemma_moved_names(s, t, lo, hi, d, e);
        lemma_moved_run(s, t, lo, hi, d, e, CharClass::Space);
    }
}

/// An expression, and a list of expressions, that lies in the part that
/// was moved moves with it.
proof fn lemma_moved_expression(s: Seq<char>, t: Seq<char>, lo: int, hi: int, d: int, i: int)
    requires
        moved(s, t, lo, hi, d),
        lo <= i <= hi,
    ensures
        spec_expression(s, i) matches Ok((e, end)) && end <= hi ==> spec_expression(t, i + d)
            == shifted(spec_expression(s, i), d),
        spec_expressions(s, i) matches Ok((parts, end)) && end <= hi ==> spec_expressions(
            t,
            i + d,
        ) == shifted(spec_expressions(s, i), d),
    decreases hi - i,
{
    lemma_moved_expect(s, t, lo, hi, d, i, '(');
    lemma_moved_run(s, t, lo, hi, d, i, CharClass::Space);
    let w = skip_spaces(s, i);
    if let Ok(open) = spec_expect(s, i, '(') {
        lemma_moved_run(s, t, lo, hi, d, open, CharClass::Space);
        let h = skip_spaces(s, open);
        lemma_moved_token(s, t, lo, hi, d, h);
        let head = fold_case(token(s, h));
        let after = token_end(s, h);
        if head == "not"@ {
            lemma_moved_expression(s, t, lo, hi, d, after);
            lemma_expression_bounds(s, after);
            if let Ok((inner, e)) = spec_expression(s, after) {
                if e <= hi {
                    lemma_moved_expect(s, t, lo, hi, d, e, ')');
                } else {
                    lemma_run_end_advances(s, e, CharClass::Space);
                }
            }
        } else if head == "and"@ {
            lemma_moved_expression(s, t, lo, hi, d, after);
            lemma_expression_bounds(s, after);
            if let Ok((parts, e)) = spec_expressions(s, after) {
                if e <= hi {
                    lemma_moved_expect(s, t, lo, hi, d, e, ')');
                } else {
                    lemma_run_end_advances(s, e, CharClass::Space);
                }
            }
        } else {
            lemma_moved_term(s, t, lo, hi, d, h);
            if let Ok((term, e)) = spec_term(s, h) {
                lemma_moved_expect(s, t, lo, hi, d, e, ')');
            }
        }
        if w > i {
            lemma_moved_expression(s, t, lo, hi, d, w);
        }
        lemma_expression_bounds(s, w);
        if let Ok((first, e)) = spec_expression(s, w) {
            lemma_expression_bounds(s, e);
            if e <= hi {
                lemma_moved_expression(s, t, lo, hi, d, e);
            }
        }
    }
}

/// The flags from an offset of the part that was moved move with it.
proof fn lemma_moved_flags(s: Seq<char>, t: Seq<char>, lo: int, hi: int, d: int, i: int)
    requires
        moved(s, t, lo, hi, d),
        lo <= i <= hi,
    ensures
        spec_flags(t, i + d) == shifted(spec_flags(s, i), d),
        spec_flags(s, i) matches Ok((flags, end)) ==> i <= end <= hi,
    decreases hi - i,
{
    lemma_moved_run(s, t, lo, hi, d, i, CharClass::Space);
    let w = skip_spaces(s, i);
    assert(s[w] == t[w + d]);
    if s[w] == ':' {
        lemma_moved_run(s, t, lo, hi, d, w + 1, CharClass::Letter);
        let e = run_end(s, w + 1, CharClass::Letter);
        assert(s.subrange(w + 1, e) =~= t.subrange(w + 1 + d, e + d)) by {
            assert forall|k: int| 0 <= k < e - w - 1 implies #[trigger] s.subrange(w + 1, e)[k]
                == t.subrange(w + 1 + d, e + d)[k] by {
                assert(s[w + 1 + k] == t[w + 1 + k + d]);
            }
        }
        if e > w + 1 {
            lemma_moved_flags(s, t, lo, hi, d, e);
        }
    }
}

/// A signature, and a list of signatures, that lies in the part that was
/// moved moves with it.
proof fn lemma_moved_signatures(s: Seq<char>, t: Seq<char>, lo: int, hi: int, d: int, i: int)
    requires
        moved(s, t, lo, hi, d),
        lo <= i <= hi,
    ensures
        spec_signature(s, i) matches Ok((p, end)) && end <= hi ==> spec_signature(t, i + d)
            == shifted(spec_signature(s, i), d),
        spec_signatures(s, i) matches Ok((ps, end)) && end <= hi ==> spec_signatures(t, i + d)
            == shifted(spec_signatures(s, i), d),
    decreases hi - i,
{
    lemma_moved_expect(s, t, lo, hi, d, i, '(');
    lemma_moved_run(s, t, lo, hi, d, i, CharClass::Space);
    let w = skip_spaces(s, i);
    assert(s[w] == t[w + d]);
    if let Ok(open) = spec_expect(s, i, '(') {
        lemma_moved_run(s, t, lo, hi, d, open, CharClass::Space);
        let at = skip_spaces(s, open);
        lemma_moved_named(s, t, lo, hi, d, at);
        if let Ok((name, e)) = spec_named(s, at) {
            lemma_moved_groups(s, t, lo, hi, d, e);
            if let Ok((groups, c)) = spec_groups(s, e) {
                lemma_moved_expect(s, t, lo, hi, d, c, ')');
            }
        }
        lemma_run_end(s, i, CharClass::Space);
        lemma_run_end_advances(s, w, CharClass::Space);
        assert(skip_spaces(s, w) == w) by {
            lemma_run_end_unique(s, w, w, CharClass::Space);
        }
        lemma_moved_run(s, t, lo, hi, d, w, CharClass::Space);
        lemma_signature_bounds(s, w);
        if let Ok((first, e)) = spec_signature(s, w) {
            lemma_signatures_bounds(s, e);
            if e <= hi {
                lemma_moved_signatures(s, t, lo, hi, d, e);
            }
        }
    }
}

/// A precondition and effect that lie in the part that was moved move with
/// it.
proof fn lemma_moved_conditions(s: Seq<char>, t: Seq<char>, lo: int, hi: int, d: int, i: int)
    requires
        moved(s, t, lo, hi, d),
        lo <= i <= hi,
    ensures
        spec_effect(s, i) matches Ok((e, end)) && end <= hi ==> spec_effect(t, i + d) == shifted(
            spec_effect(s, i),
            d,
        ),
        spec_conditions(s, i) matches Ok((found, end)) && end <= hi ==> spec_conditions(t, i + d)
            == shifted(spec_conditions(s, i), d),
{
    lemma_moved_keyword(s, t, lo, hi, d, i, "effect"@);
    lemma_moved_keyword(s, t, lo, hi, d, i, "precondition"@);
    if let Ok(k) = spec_keyword(s, i, "effect"@) {
        lemma_moved_expression(s, t, lo, hi, d, k);
    }
    if let Ok(k) = spec_keyword(s, i, "precondition"@) {
        lemma_moved_expression(s, t, lo, hi, d, k);
        lemma_expression_bounds(s, k);
        if let Ok((precondition, p)) = spec_expression(s, k) {
            lemma_effect_bounds(s, p);
            if p <= hi {
                lemma_moved_keyword(s, t, lo, hi, d, p, "effect"@);
                if let Ok(q) = spec_keyword(s, p, "effect"@) {
                    lemma_moved_expression(s, t, lo, hi, d, q);
                }
            }
        }
    }
}

/// An action that lies in the part that was moved moves with it.
proof fn lemma_moved_action(s: Seq<char>, t: Seq<char>, lo: int, hi: int, d: int, i: int)
    requires
        moved(s, t, lo, hi, d),
        lo <= i <= hi,
    ensures
        spec_action(s, i) matches Ok((action, end)) && end <= hi ==> spec_action(t, i + d)
            == shifted(spec_action(s, i), d),
{
    lemma_moved_keyword(s, t, lo, hi, d, i, "action"@);
    if let Ok(k) = spec_keyword(s, i, "action"@) {
        lemma_moved_run(s, t, lo, hi, d, k, CharClass::Space);
        lemma_moved_named(s, t, lo, hi, d, skip_spaces(s, k));
        if let Ok((name, n)) = spec_named(s, skip_spaces(s, k)) {
            lemma_moved_keyword(s, t, lo, hi, d, n, "parameters"@);
            if let Ok(p) = spec_keyword(s, n, "parameters"@) {
                lemma_moved_expect(s, t, lo, hi, d, p, '(');
                if let Ok(c) = spec_expect(s, p, '(') {
                    lemma_moved_groups(s, t, lo, hi, d, c);
                    if let Ok((groups, g)) = spec_groups(s, c) {
                        lemma_moved_expect(s, t, lo, hi, d, g, ')');
                        if let Ok(e) = spec_expect(s, g, ')') {
                            if e <= s.len() {
                                lemma_conditions_bounds(s, e);
                            }
                            if e <= hi {
                                lemma_moved_conditions(s, t, lo, hi, d, e);
                            }
                        }
                    }
                }
            }
        }
    }
}

/// A section whose inside lies in the part that was moved moves with it.
proof fn lemma_moved_section(s: Seq<char>, t: Seq<char>, lo: int, hi: int, d: int, i: int)
    requires
        moved(s, t, lo, hi, d),
        lo <= i <= hi,
    ensures
        spec_section(s, i) matches Ok((section, end)) && end <= hi ==> spec_section(t, i + d)
            == shifted(spec_section(s, i), d),
{
    reveal(spec_section);
    lemma_moved_run(s, t, lo, hi, d, i, CharClass::Space);
    let w = skip_spaces(s, i);
    assert(s[w] == t[w + d]);
    if s[w] == ':' {
        lemma_moved_token(s, t, lo, hi, d, w + 1);
        let k = token_end(s, w + 1);
        lemma_moved_flags(s, t, lo, hi, d, k);
        lemma_moved_groups(s, t, lo, hi, d, k);
        lemma_moved_signatures(s, t, lo, hi, d, k);
        lemma_moved_action(s, t, lo, hi, d, i);
    } else {
        lemma_moved_word(s, t, lo, hi, d, i, "domain"@);
        if let Ok(k) = spec_word(s, i, "domain"@) {
            lemma_moved_run(s, t, lo, hi, d, k, CharClass::Space);
            lemma_moved_named(s, t, lo, hi, d, skip_spaces(s, k));
        }
    }
}

/// The section that stands in parentheses at `i`, after white space, with
/// the offset after its closing parenthesis.
pub open spec fn spec_group(s: Seq<char>, i: int) -> Result<(SectionView, int), Failure> {
    match spec_expect(s, i, '(') {
        Err(f) => Err(f),
        Ok(a) => match spec_section(s, a) {
            Err(f) => Err(f),
            Ok((section, e)) => match spec_expect(s, e, ')') {
                Err(f) => Err(f),
                Ok(end) => Ok((section, end)),
            },
        },
    }
}

/// Whether `g` is the text of one section: white space, if any, and then
/// the section in its parentheses, with nothing after it.
pub open spec fn is_section_text(g: Seq<char>) -> bool {
    spec_group(g, 0) matches Ok((section, end)) && end == g.len()
}

/// The section that a section text holds.
pub open spec fn section_of(g: Seq<char>) -> SectionView {
    spec_group(g, 0)->Ok_0.0
}

/// The texts of `groups`, one after the other.
pub open spec fn joined(groups: Seq<Seq<char>>) -> Seq<char>
    decreases groups.len(),
{
    if groups.len() == 0 {
        Seq::empty()
    } else {
        groups.first() + joined(groups.drop_first())
    }
}

/// Whether `x` holds nothing but white space.
pub open spec fn is_blank(x: Seq<char>) -> bool {
    forall|k: int| 0 <= k < x.len() ==> is_space(#[trigger] x[k])
}

/// The text of the definition whose sections are written as `groups`, with
/// the white space `gap` before its closing parenthesis and the white space
/// `after` behind it.
pub open spec fn definition_text(groups: Seq<Seq<char>>, gap: Seq<char>, after: Seq<char>) -> Seq<
    char,
> {
    "(define"@ + joined(groups) + gap + ")"@ + after
}

/// A section text holds the same section wherever it stands: in any text
/// that holds it at `j`, that section is read at `j`, and the reading stops
/// where the section text ends.
pub proof fn lemma_section_in_place(g: Seq<char>, s: Seq<char>, j: int)
    requires
        is_section_text(g),
        0 <= j,
        j + g.len() <= s.len(),
        s.subrange(j, j + g.len()) == g,
    ensures
        spec_group(s, j) == Ok::<_, Failure>((section_of(g), j + g.len())),
        spec_sections(s, j) == prepend(seq![section_of(g)], spec_sections(s, j + g.len())),
        g.len() > 0,
        is_delimiter(s[j]),
{
    let hi = g.len() - 1;
    lemma_run_end(g, 0, CharClass::Space);
    let open = spec_expect(g, 0, '(')->Ok_0;
    lemma_section_bounds(g, open);
    let (section, e) = spec_section(g, open)->Ok_0;
    lemma_run_end(g, e, CharClass::Space);
    assert(skip_spaces(g, e) == hi);
    assert forall|k: int| 0 <= k <= hi implies #[trigger] g[k] == s[k + j] by {
        assert(s.subrange(j, j + g.len())[k] == s[j + k]);
    }
    assert(moved(g, s, 0, hi, j));
    lemma_moved_expect(g, s, 0, hi, j, 0, '(');
    lemma_moved_section(g, s, 0, hi, j, open);
    lemma_moved_expect(g, s, 0, hi, j, e, ')');
    assert(g[0] == s[j]);
}

/// Section texts that stand one after the other in a text are read as
/// their sections, in their order.
pub proof fn lemma_sections_in_place(groups: Seq<Seq<char>>, s: Seq<char>, j: int)
    requires
        forall|k: int| 0 <= k < groups.len() ==> is_section_text(#[trigger] groups[k]),
        0 <= j,
        j + joined(groups).len() <= s.len(),
        s.subrange(j, j + joined(groups).len()) == joined(groups),
    ensures
        spec_sections(s, j) == prepend(
            groups.map_values(|g: Seq<char>| section_of(g)),
            spec_sections(s, j + joined(groups).len()),
        ),
    decreases groups.len(),
{
    let sections = groups.map_values(|g: Seq<char>| section_of(g));
    let rest_of = spec_sections(s, j + joined(groups).len());
    if groups.len() == 0 {
        assert(sections =~= Seq::<SectionView>::empty());
        if let Ok((more, end)) = rest_of {
            assert(sections + more =~= more);
        }
    } else {
        let g = groups.first();
        let rest = groups.drop_first();
        let all = joined(groups);
        assert(is_section_text(groups[0]));
        assert forall|k: int| 0 <= k < rest.len() implies is_section_text(#[trigger] rest[k]) by {
            assert(rest[k] == groups[k + 1]);
        }
        assert(s.subrange(j, j + g.len()) =~= g) by {
            assert forall|k: int| 0 <= k < g.len() implies s.subrange(j, j + g.len())[k]
                == #[trigger] g[k] by {
                assert(s.subrange(j, j + all.len())[k] == all[k]);
            }
        }
        assert(s.subrange(j + g.len(), j + g.len() + joined(rest).len()) =~= joined(rest)) by {
            assert forall|k: int| 0 <= k < joined(rest).len() implies s.subrange(
                j + g.len(),
                j + g.len() + joined(rest).len(),
            )[k] == #[trigger] joined(rest)[k] by {
                assert(s.subrange(j, j + all.len())[g.len() + k] == all[g.len() + k]);
            }
        }
        lemma_section_in_place(g, s, j);
        lemma_sections_in_place(rest, s, j + g.len());
        let later = rest.map_values(|g: Seq<char>| section_of(g));
        assert(sections =~= seq![section_of(g)] + later);
        if let Ok((more, end)) = rest_of {
            assert(seq![section_of(g)] + (later + more) =~= sections + more);
        }
    }
}

/// The definition written with the section texts `groups` holds their
/// sections, in their order, and nothing but white space after them.
pub proof fn lemma_definition_text(groups: Seq<Seq<char>>, gap: Seq<char>, after: Seq<char>)
    requires
        forall|k: int| 0 <= k < groups.len() ==> is_section_text(#[trigger] groups[k]),
        is_blank(gap),
        is_blank(after),
    ensures
        spec_body(definition_text(groups, gap, after)) == Ok::<_, Failure>(
            (
                groups.map_values(|g: Seq<char>| section_of(g)),
                (8 + joined(groups).len() + gap.len()) as int,
            ),
        ),
        skip_spaces(
            definition_text(groups, gap, after),
            (8 + joined(groups).len() + gap.len()) as int,
        ) == definition_text(groups, gap, after).len(),
{
    reveal_strlit("(define");
    reveal_strlit("define");
    reveal_strlit(")");
    let s = definition_text(groups, gap, after);
    let body = joined(groups);
    let sections = groups.map_values(|g: Seq<char>| section_of(g));
    let gap_at = 7 + body.len();
    let close = gap_at + gap.len();
    assert(s.len() == close + 1 + after.len());
    assert(s[0] == '(' && s[1] == 'd' && s[2] == 'e' && s[3] == 'f' && s[4] == 'i' && s[5] == 'n'
        && s[6] == 'e');
    assert(s[close as int] == ')');
    assert(s.subrange(7, gap_at as int) =~= body);
    assert forall|k: int| gap_at <= k < close implies CharClass::Space.holds(#[trigger] s[k]) by {
        assert(s[k] == gap[k - gap_at]);
    }
    assert forall|k: int| close < k < s.len() implies CharClass::Space.holds(#[trigger] s[k]) by {
        assert(s[k] == after[k - close - 1]);
    }
    assert(is_delimiter(s[7])) by {
        if groups.len() > 0 {
            assert(is_section_text(groups[0]));
            let g = groups.first();
            assert(body =~= g + joined(groups.drop_first()));
            assert(s.subrange(7, 7 + g.len() as int) =~= g) by {
                assert forall|k: int| 0 <= k < g.len() implies s.subrange(7, 7 + g.len() as int)[k]
                    == #[trigger] g[k] by {
                    assert(s.subrange(7, gap_at as int)[k] == body[k]);
                }
            }
            lemma_section_in_place(g, s, 7);
        } else {
            assert(body.len() == 0);
            if gap.len() > 0 {
                assert(CharClass::Space.holds(s[7]));
            }
        }
    }
    lemma_run_end_unique(s, 0, 0, CharClass::Space);
    lemma_run_end_unique(s, 1, 1, CharClass::Space);
    lemma_run_end_unique(s, 1, 7, CharClass::Word);
    assert(token(s, 1) =~= "define"@);
    lemma_sections_in_place(groups, s, 7);
    lemma_run_end_unique(s, gap_at as int, close as int, CharClass::Space);
    lemma_run_end_unique(s, (close + 1) as int, s.len() as int, CharClass::Space);
    lemma_prepend_end(sections, gap_at as int);
}

/// Putting each item of a list through a function keeps what the list
/// holds, whatever the order.
proof fn lemma_map_permuted<A, B>(a: Seq<A>, b: Seq<A>, f: spec_fn(A) -> B)
    requires
        a.to_multiset() == b.to_multiset(),
    ensures
        a.map_values(f).to_multiset() == b.map_values(f).to_multiset(),
    decreases a.len(),
{
    broadcast use vstd::seq_lib::group_to_multiset_ensures;

    assert(a.len() == b.len()) by {
        assert(a.len() == a.to_multiset().len());
        assert(b.len() == b.to_multiset().len());
    }
    if a.len() == 0 {
        assert(a.map_values(f) =~= b.map_values(f));
    } else {
        let x = a.last();
        let before = a.drop_last();
        assert(a =~= before.push(x));
        assert(a.to_multiset().count(x) > 0);
        assert(b.contains(x));
        let k = choose|k: int| 0 <= k < b.len() && b[k] == x;
        let others = b.remove(k);
        assert(before.to_multiset() =~= others.to_multiset()) by {
            assert(a.to_multiset() =~= before.to_multiset().insert(x));
            assert(others.to_multiset() =~= b.to_multiset().remove(x));
            assert(before.to_multiset().insert(x).remove(x) =~= before.to_multiset());
        }
        lemma_map_permuted(before, others, f);
        assert(a.map_values(f) =~= before.map_values(f).push(f(x)));
        assert(others.map_values(f) =~= b.map_values(f).remove(k));
        assert(a.map_values(f).to_multiset() =~= before.map_values(f).to_multiset().insert(f(x)));
        assert(b.map_values(f).remove(k).to_multiset() =~= b.map_values(f).to_multiset().remove(
            f(x),
        ));
        assert(b.map_values(f).to_multiset().count(f(x)) > 0) by {
            assert(b.map_values(f)[k] == f(x));
            assert(b.map_values(f).contains(f(x)));
        }
        assert(b.map_values(f).to_multiset() =~= b.map_values(f).to_multiset().remove(
            f(x),
        ).insert(f(x)));
    }
}

/// The sections of a definition may be written in any order: two
/// definitions written with the same section texts, differently ordered
/// but for the actions among themselves, define the same domain, or neither
/// defines one.
pub proof fn lemma_sections_may_be_permuted(
    a: Seq<Seq<char>>,
    gap_a: Seq<char>,
    after_a: Seq<char>,
    b: Seq<Seq<char>>,
    gap_b: Seq<char>,
    after_b: Seq<char>,
)
    requires
        forall|k: int| 0 <= k < a.len() ==> is_section_text(#[trigger] a[k]),
        forall|k: int| 0 <= k < b.len() ==> is_section_text(#[trigger] b[k]),
        a.to_multiset() == b.to_multiset(),
        actions_of(a.map_values(|g: Seq<char>| section_of(g))) == actions_of(
            b.map_values(|g: Seq<char>| section_of(g)),
        ),
        is_blank(gap_a) && is_blank(after_a) && is_blank(gap_b) && is_blank(after_b),
    ensures
        spec_definition(definition_text(a, gap_a, after_a)) is Ok <==> spec_definition(
            definition_text(b, gap_b, after_b),
        ) is Ok,
        spec_definition(definition_text(a, gap_a, after_a)) is Ok ==> spec_definition(
            definition_text(a, gap_a, after_a),
        ) == spec_definition(definition_text(b, gap_b, after_b)),
{
    lemma_definition_text(a, gap_a, after_a);
    lemma_definition_text(b, gap_b, after_b);
    lemma_map_permuted(a, b, |g: Seq<char>| section_of(g));
    lemma_section_order_is_free(
        a.map_values(|g: Seq<char>| section_of(g)),
        b.map_values(|g: Seq<char>| section_of(g)),
    );
}

/// The heading of an action at an offset of the part that was moved moves
/// with it.
proof fn lemma_moved_heading(s: Seq<char>, t: Seq<char>, lo: int, hi: int, d: int, i: int)
    requires
        moved(s, t, lo, hi, d),
        lo <= i <= hi,
    ensures
        spec_heading(t, i + d) == shifted(spec_heading(s, i), d),
{
    lemma_moved_keyword(s, t, lo, hi, d, i, "action"@);
    if let Ok(k) = spec_keyword(s, i, "action"@) {
        lemma_moved_run(s, t, lo, hi, d, k, CharClass::Space);
        lemma_moved_named(s, t, lo, hi, d, skip_spaces(s, k));
        if let Ok((name, n)) = spec_named(s, skip_spaces(s, k)) {
            lemma_moved_keyword(s, t, lo, hi, d, n, "parameters"@);
            if let Ok(p) = spec_keyword(s, n, "parameters"@) {
                lemma_moved_expect(s, t, lo, hi, d, p, '(');
                if let Ok(c) = spec_expect(s, p, '(') {
                    lemma_moved_groups(s, t, lo, hi, d, c);
                    if let Ok((groups, g)) = spec_groups(s, c) {
                        lemma_moved_expect(s, t, lo, hi, d, g, ')');
                    }
                }
            }
        }
    }
}

/// Whether `head` is the text of an action from its opening parenthesis to
/// the closing parenthesis of its parameters.
pub open spec fn is_action_head(head: Seq<char>) -> bool {
    &&& spec_expect(head, 0, '(') is Ok
    &&& spec_heading(head, spec_expect(head, 0, '(')->Ok_0) matches Ok((found, end)) && end
        == head.len()
}

/// The name and the parameters that the head of an action gives.
pub open spec fn heading_of(head: Seq<char>) -> (Seq<char>, Seq<ParameterView>) {
    spec_heading(head, spec_expect(head, 0, '(')->Ok_0)->Ok_0.0
}

/// The text of the action whose head is `head`, which has no precondition
/// and whose effect is written out from `e`.
pub open spec fn action_text(head: Seq<char>, e: ExpressionView) -> Seq<char> {
    head + " :effect "@ + written(e) + ")"@
}

/// The action with the effect `e` that `action_text` writes.
pub open spec fn action_with(head: Seq<char>, e: ExpressionView) -> ActionView {
    ActionView {
        name: heading_of(head).0,
        parameters: heading_of(head).1,
        precondition: None,
        effect: e,
    }
}

/// A text that ends with a closing parenthesis stands unmoved at the start
/// of any text that begins with it.
proof fn lemma_moved_start(head: Seq<char>, rest: Seq<char>)
    requires
        head.len() > 0,
        head.last() == ')',
    ensures
        moved(head, head + rest, 0, head.len() - 1, 0),
{
    let t = head + rest;
    assert forall|k: int| 0 <= k <= head.len() - 1 implies #[trigger] head[k] == t[k + 0] by {}
}

/// A section that begins with the keyword `:action` is the action that is
/// read there.
proof fn lemma_action_section(s: Seq<char>, i: int)
    requires
        spec_keyword(s, i, "action"@) is Ok,
    ensures
        spec_section(s, i) == match spec_action(s, i) {
            Err(f) => Err(f),
            Ok((action, end)) => Ok((SectionView::Action(action), end)),
        },
{
    reveal(spec_section);
    reveal_strlit("action");
    reveal_strlit("requirements");
    reveal_strlit("types");
    reveal_strlit("constants");
    reveal_strlit("predicates");
    let w = skip_spaces(s, i);
    assert(token(s, w + 1).len() == 6);
}

/// The head of an action is read alike at the start of every text that
/// begins with it.
proof fn lemma_head_stays(head: Seq<char>, rest: Seq<char>)
    requires
        is_action_head(head),
    ensures
        spec_expect(head + rest, 0, '(') == spec_expect(head, 0, '('),
        spec_heading(head + rest, spec_expect(head, 0, '(')->Ok_0) == spec_heading(
            head,
            spec_expect(head, 0, '(')->Ok_0,
        ),
{
    let open = spec_expect(head, 0, '(')->Ok_0;
    let h = head.len() as int;
    lemma_run_end(head, 0, CharClass::Space);
    lemma_heading_ends_closed(head, open);
    lemma_moved_start(head, rest);
    lemma_moved_expect(head, head + rest, 0, h - 1, 0, 0, '(');
    lemma_moved_heading(head, head + rest, 0, h - 1, 0, open);
}

/// A text holds at its end what is appended to it.
proof fn lemma_holds_appended(head: Seq<char>, x: Seq<char>, rest: Seq<char>)
    ensures
        holds_at(head + (x + rest), head.len() as int, x),
{
    let t = head + (x + rest);
    assert(t.subrange(head.len() as int, (head.len() + x.len()) as int) =~= x);
}

/// An action is its heading and what follows it.
proof fn lemma_action_composed(
    t: Seq<char>,
    open: int,
    heading: (Seq<char>, Seq<ParameterView>),
    h: int,
    e: ExpressionView,
    end: int,
)
    requires
        spec_heading(t, open) == Ok::<_, Failure>((heading, h)),
        spec_conditions(t, h) == Ok::<_, Failure>(((None::<ExpressionView>, e), end)),
    ensures
        spec_keyword(t, open, "action"@) is Ok,
        spec_action(t, open) == Ok::<_, Failure>(
            (
                ActionView {
                    name: heading.0,
                    parameters: heading.1,
                    precondition: None,
                    effect: e,
                },
                end,
            ),
        ),
{
}

/// What a text of an action with a written effect is made of.
proof fn lemma_action_text_parts(head: Seq<char>, e: ExpressionView)
    ensures
        action_text(head, e) == head + (" :effect "@ + written(e) + ")"@),
        action_text(head, e).len() == head.len() + 9 + written(e).len() + 1,
        action_text(head, e).last() == ')',
        holds_at(action_text(head, e), head.len() as int, " :effect "@ + written(e)),
{
    reveal_strlit(")");
    reveal_strlit(" :effect ");
    let t = action_text(head, e);
    let effect = " :effect "@ + written(e);
    assert(t =~= head + (effect + ")"@));
    lemma_holds_appended(head, effect, ")"@);
}

/// The text of an action with a written effect is a section text, and the
/// section it holds is the action with that very effect, however deep the
/// effect is nested.
pub proof fn lemma_action_text(head: Seq<char>, e: ExpressionView)
    requires
        is_action_head(head),
        well_named(e),
    ensures
        is_section_text(action_text(head, e)),
        section_of(action_text(head, e)) == SectionView::Action(action_with(head, e)),
{
    let t = action_text(head, e);
    let h = head.len() as int;
    let open = spec_expect(head, 0, '(')->Ok_0;
    lemma_action_text_parts(head, e);
    lemma_head_stays(head, " :effect "@ + written(e) + ")"@);
    lemma_effect_read_back(t, h, e);
    lemma_action_composed(t, open, heading_of(head), h, e, t.len() - 1);
    lemma_action_section(t, open);
    lemma_run_end_unique(t, t.len() - 1, t.len() - 1, CharClass::Space);
}

/// A heading that is read ends just after a closing parenthesis.
proof fn lemma_heading_ends_closed(s: Seq<char>, i: int)
    requires
        spec_heading(s, i) is Ok,
    ensures
        ({
            let end = spec_heading(s, i)->Ok_0.1;
            0 < end <= s.len() && s[end - 1] == ')'
        }),
{
}

/// A written effect is read back from a whole definition: where one of the
/// section texts of a definition is the text of an action with a written
/// effect, and the sections make a domain, the definition defines that
/// domain, and the action with that very effect is among its actions, and
/// is all of them where there is no other.
pub proof fn lemma_effect_read_back_in_definition(
    groups: Seq<Seq<char>>,
    gap: Seq<char>,
    after: Seq<char>,
    k: int,
    head: Seq<char>,
    e: ExpressionView,
)
    requires
        0 <= k < groups.len(),
        groups[k] == action_text(head, e),
        is_action_head(head),
        well_named(e),
        forall|j: int| 0 <= j < groups.len() && j != k ==> is_section_text(#[trigger] groups[j]),
        is_blank(gap),
        is_blank(after),
        spec_assemble(groups.map_values(|g: Seq<char>| section_of(g))) is Some,
    ensures
        ({
            let text = definition_text(groups, gap, after);
            let sections = groups.map_values(|g: Seq<char>| section_of(g));
            &&& spec_definition(text) matches Ok(d) && d.actions.contains(action_with(head, e))
                && (of_kind(sections, SectionKind::Action).len() == 1 ==> d.actions
                == seq![action_with(head, e)])
            &&& (forall|i: int| 0 <= i < text.len() ==> text[i] != ';') ==> spec_domain(text)
                == spec_definition(text)
        }),
{
    let text = definition_text(groups, gap, after);
    let sections = groups.map_values(|g: Seq<char>| section_of(g));
    lemma_action_text(head, e);
    assert forall|j: int| 0 <= j < groups.len() implies is_section_text(#[trigger] groups[j]) by {}
    lemma_definition_text(groups, gap, after);
    assert(sections[k] == SectionView::Action(action_with(head, e)));
    lemma_action_is_kept(sections, k);
    if forall|i: int| 0 <= i < text.len() ==> text[i] != ';' {
        lemma_domain_without_comments(text);
    }
}

} // verus!
