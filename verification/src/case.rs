//! Identifiers are case-insensitive: the case of their ASCII letters leaves
//! no trace in what a text defines.
use crate::domain::action::string_expression::{
    lemma_expression_bounds, spec_expression, spec_expressions,
};
use crate::domain::action::{spec_action, spec_conditions, spec_effect, spec_heading};
use crate::domain::parameter::{lemma_groups_bounds, spec_groups, spec_parameters};
use crate::domain::predicate::{lemma_signature_bounds, spec_signature, spec_signatures};
use crate::domain::requirement::spec_flags;
use crate::domain::{
    lemma_section_bounds, spec_definition, spec_domain, spec_section, spec_sections,
};
use crate::shared::{
    fold_case, fold_char, is_ascii_text, is_letter, lemma_run_end, lemma_run_end_advances,
    lemma_run_end_unique, run_end, skip_spaces, spec_named, strip_comments, token, token_end,
    CharClass,
};
use crate::syntax::{is_dash, lemma_names_bounds, spec_expect, spec_keyword, spec_names, spec_word};
use crate::term::{lemma_term_bounds, spec_term};
use vstd::prelude::*;

verus! {

/// Whether position `i` of `s` lies in the word that follows a colon: a
/// keyword or a flag.
pub open spec fn in_colon_word(s: Seq<char>, i: int) -> bool {
    exists|w: int| 0 < w <= i && s[w - 1] == ':' && i < #[trigger] token_end(s, w)
}

/// Whether every token of `s` that covers position `i` holds ASCII
/// characters only.
pub open spec fn in_ascii_word(s: Seq<char>, i: int) -> bool {
    forall|w: int| 0 <= w <= i && i < token_end(s, w) ==> is_ascii_text(#[trigger] token(s, w))
}

/// Whether `a` and `b` hold the same character at `i`, or the same ASCII
/// letter in different case, inside an ASCII token that follows no colon.
pub open spec fn same_but_case_at(a: Seq<char>, b: Seq<char>, i: int) -> bool {
    a[i] == b[i] || (is_letter(a[i]) && is_letter(b[i]) && fold_char(a[i]) == fold_char(b[i])
        && !in_colon_word(a, i) && in_ascii_word(a, i))
}

/// Whether `b` is `a` but for the case of ASCII letters in tokens that are
/// neither keywords nor flags.
pub open spec fn same_but_case(a: Seq<char>, b: Seq<char>) -> bool {
    a.len() == b.len() && forall|i: int|
        0 <= i < a.len() ==> #[trigger] same_but_case_at(a, b, i)
}

/// Case changes no delimiter: runs of white space and tokens end at the
/// same offsets in both texts.
proof fn lemma_same_runs(a: Seq<char>, b: Seq<char>, i: int, class: CharClass)
    requires
        same_but_case(a, b),
        class != CharClass::Letter,
    ensures
        run_end(a, i, class) == run_end(b, i, class),
    decreases a.len() - i,
{
    if 0 <= i < a.len() {
        assert(same_but_case_at(a, b, i));
        if class.holds(a[i]) {
            lemma_same_runs(a, b, i + 1, class);
        }
    }
}

/// The tokens at an offset fold to the same identifier in both texts.
proof fn lemma_same_fold(a: Seq<char>, b: Seq<char>, w: int)
    requires
        same_but_case(a, b),
        0 <= w <= a.len(),
    ensures
        token_end(a, w) == token_end(b, w),
        fold_case(token(a, w)) == fold_case(token(b, w)),
{
    lemma_same_runs(a, b, w, CharClass::Word);
    lemma_run_end(a, w, CharClass::Word);
    let e = token_end(a, w);
    let ta = token(a, w);
    let tb = token(b, w);
    if ta =~= tb {
    } else {
        let k = choose|k: int| 0 <= k < ta.len() && ta[k] != tb[k];
        assert(same_but_case_at(a, b, w + k));
        assert(is_ascii_text(token(a, w)));
        assert forall|j: int| 0 <= j < tb.len() implies #[trigger] tb[j] <= '\u{7f}' && fold_char(
            ta[j],
        ) == fold_char(tb[j]) by {
            assert(same_but_case_at(a, b, w + j));
            assert(ta[j] <= '\u{7f}');
        }
        assert(fold_case(ta) =~= fold_case(tb));
    }
}

/// The same identifier is read at an offset of both texts.
proof fn lemma_same_named(a: Seq<char>, b: Seq<char>, w: int)
    requires
        same_but_case(a, b),
        0 <= w <= a.len(),
    ensures
        spec_named(a, w) == spec_named(b, w),
{
    lemma_same_fold(a, b, w);
}

/// A character that is no letter is expected with the same outcome in both
/// texts.
proof fn lemma_same_expect(a: Seq<char>, b: Seq<char>, i: int, c: char)
    requires
        same_but_case(a, b),
        !is_letter(c),
    ensures
        spec_expect(a, i, c) == spec_expect(b, i, c),
{
    lemma_same_runs(a, b, i, CharClass::Space);
    let w = skip_spaces(a, i);
    if 0 <= w < a.len() {
        assert(same_but_case_at(a, b, w));
    }
}

/// The word after a colon is the same in both texts.
proof fn lemma_same_colon_word(a: Seq<char>, b: Seq<char>, w: int)
    requires
        same_but_case(a, b),
        0 <= w < a.len(),
        a[w] == ':',
    ensures
        b[w] == ':',
        token_end(a, w + 1) == token_end(b, w + 1),
        token(a, w + 1) == token(b, w + 1),
{
    assert(same_but_case_at(a, b, w));
    lemma_same_runs(a, b, w + 1, CharClass::Word);
    lemma_run_end(a, w + 1, CharClass::Word);
    assert forall|j: int| w + 1 <= j < token_end(a, w + 1) implies a[j] == b[j] by {
        assert(same_but_case_at(a, b, j));
        assert(in_colon_word(a, j));
    }
    assert(token(a, w + 1) =~= token(b, w + 1));
}

/// A keyword is found with the same outcome in both texts.
proof fn lemma_same_keyword(a: Seq<char>, b: Seq<char>, i: int, word: Seq<char>)
    requires
        same_but_case(a, b),
    ensures
        spec_keyword(a, i, word) == spec_keyword(b, i, word),
{
    lemma_same_runs(a, b, i, CharClass::Space);
    let w = skip_spaces(a, i);
    if 0 <= w < a.len() {
        assert(same_but_case_at(a, b, w));
        if a[w] == ':' {
            lemma_same_colon_word(a, b, w);
        }
    }
}

/// A lone `-` stands at the same offsets of both texts.
proof fn lemma_same_dash(a: Seq<char>, b: Seq<char>, w: int)
    requires
        same_but_case(a, b),
    ensures
        is_dash(a, w) == is_dash(b, w),
{
    reveal_strlit("-");
    if 0 <= w < a.len() {
        lemma_same_runs(a, b, w, CharClass::Word);
        lemma_run_end(a, w, CharClass::Word);
        assert(same_but_case_at(a, b, w));
        let ta = token(a, w);
        let tb = token(b, w);
        assert("-"@ =~= seq!['-']);
        assert(ta.len() == tb.len());
        if ta == "-"@ {
            assert(ta[0] == '-');
            assert(tb =~= "-"@);
        }
        if tb == "-"@ {
            assert(tb[0] == '-');
            assert(ta =~= "-"@);
        }
    }
}

/// The same identifiers are read from an offset on in both texts.
proof fn lemma_same_names(a: Seq<char>, b: Seq<char>, i: int)
    requires
        same_but_case(a, b),
    ensures
        spec_names(a, i) == spec_names(b, i),
    decreases a.len() - i,
{
    lemma_same_runs(a, b, i, CharClass::Space);
    let w = skip_spaces(a, i);
    if 0 <= w < a.len() {
        lemma_same_named(a, b, w);
        if let Ok((name, e)) = spec_named(a, w) {
            lemma_run_end(a, w, CharClass::Word);
            lemma_run_end_advances(a, i, CharClass::Space);
            lemma_same_names(a, b, e);
        }
    }
}

/// The same typed list is read from an offset on in both texts.
proof fn lemma_same_groups(a: Seq<char>, b: Seq<char>, i: int)
    requires
        same_but_case(a, b),
        0 <= i <= a.len(),
    ensures
        spec_groups(a, i) == spec_groups(b, i),
        spec_parameters(a, i) == spec_parameters(b, i),
    decreases a.len() - i,
{
    lemma_same_names(a, b, i);
    lemma_names_bounds(a, i);
    let (names, e) = spec_names(a, i);
    lemma_same_runs(a, b, e, CharClass::Space);
    lemma_run_end(a, e, CharClass::Space);
    let w = skip_spaces(a, e);
    lemma_same_dash(a, b, w);
    if is_dash(a, w) && names.len() > 0 {
        lemma_same_runs(a, b, w + 1, CharClass::Space);
        lemma_run_end(a, w + 1, CharClass::Space);
        let t = skip_spaces(a, w + 1);
        lemma_same_named(a, b, t);
        if let Ok((type_of, after)) = spec_named(a, t) {
            lemma_run_end(a, t, CharClass::Word);
            lemma_same_groups(a, b, after);
        }
    }
}

/// The same term is read at an offset of both texts.
proof fn lemma_same_term(a: Seq<char>, b: Seq<char>, i: int)
    requires
        same_but_case(a, b),
        0 <= i <= a.len(),
    ensures
        spec_term(a, i) == spec_term(b, i),
{
    lemma_same_runs(a, b, i, CharClass::Space);
    lemma_run_end(a, i, CharClass::Space);
    lemma_same_named(a, b, skip_spaces(a, i));
    if let Ok((name, e)) = spec_named(a, skip_spaces(a, i)) {
        lemma_same_names(a, b, e);
        lemma_same_runs(a, b, e, CharClass::Space);
    }
}

/// The same expression, and the same list of expressions, is read at an
/// offset of both texts.
proof fn lemma_same_expression(a: Seq<char>, b: Seq<char>, i: int)
    requires
        same_but_case(a, b),
        0 <= i <= a.len(),
    ensures
        spec_expression(a, i) == spec_expression(b, i),
        spec_expressions(a, i) == spec_expressions(b, i),
    decreases a.len() - i,
{
    lemma_same_expect(a, b, i, '(');
    lemma_same_runs(a, b, i, CharClass::Space);
    lemma_run_end(a, i, CharClass::Space);
    let w = skip_spaces(a, i);
    if let Ok(open) = spec_expect(a, i, '(') {
        lemma_same_runs(a, b, open, CharClass::Space);
        lemma_run_end(a, open, CharClass::Space);
        let h = skip_spaces(a, open);
        lemma_same_fold(a, b, h);
        lemma_run_end(a, h, CharClass::Word);
        let head = fold_case(token(a, h));
        let after = token_end(a, h);
        if head == "not"@ {
            lemma_same_expression(a, b, after);
            lemma_expression_bounds(a, after);
            if let Ok((inner, e)) = spec_expression(a, after) {
                lemma_same_expect(a, b, e, ')');
            }
        } else if head == "and"@ {
            lemma_same_expression(a, b, after);
            lemma_expression_bounds(a, after);
            if let Ok((parts, e)) = spec_expressions(a, after) {
                lemma_same_expect(a, b, e, ')');
            }
        } else {
            lemma_same_term(a, b, h);
            lemma_term_bounds(a, h);
            if let Ok((term, e)) = spec_term(a, h) {
                lemma_same_expect(a, b, e, ')');
            }
        }
        if w > i {
            lemma_same_expression(a, b, w);
        }
        lemma_expression_bounds(a, w);
        if let Ok((first, e)) = spec_expression(a, w) {
            lemma_same_expression(a, b, e);
        }
    }
}

/// No run of letters is longer than the token it starts.
proof fn lemma_letters_within_token(s: Seq<char>, i: int)
    ensures
        run_end(s, i, CharClass::Letter) <= token_end(s, i),
    decreases s.len() - i,
{
    if 0 <= i < s.len() && is_letter(s[i]) {
        lemma_letters_within_token(s, i + 1);
    } else {
        lemma_run_end_advances(s, i, CharClass::Word);
    }
}

/// The same flags are read from an offset on in both texts, as they are
/// written.
proof fn lemma_same_flags(a: Seq<char>, b: Seq<char>, i: int)
    requires
        same_but_case(a, b),
        0 <= i <= a.len(),
    ensures
        spec_flags(a, i) == spec_flags(b, i),
    decreases a.len() - i,
{
    lemma_same_runs(a, b, i, CharClass::Space);
    lemma_run_end(a, i, CharClass::Space);
    let w = skip_spaces(a, i);
    if 0 <= w < a.len() {
        assert(same_but_case_at(a, b, w));
        if a[w] == ':' {
            lemma_same_colon_word(a, b, w);
            lemma_letters_within_token(a, w + 1);
            lemma_run_end(a, w + 1, CharClass::Letter);
            lemma_run_end(a, w + 1, CharClass::Word);
            let e = run_end(a, w + 1, CharClass::Letter);
            assert forall|k: int| w + 1 <= k < e implies CharClass::Letter.holds(
                #[trigger] b[k],
            ) by {
                assert(token(a, w + 1)[k - w - 1] == token(b, w + 1)[k - w - 1]);
            }
            if e < a.len() {
                assert(same_but_case_at(a, b, e));
            }
            lemma_run_end_unique(b, w + 1, e, CharClass::Letter);
            assert(a.subrange(w + 1, e) =~= b.subrange(w + 1, e)) by {
                assert forall|k: int| w + 1 <= k < e implies a[k] == b[k] by {
                    assert(token(a, w + 1)[k - w - 1] == token(b, w + 1)[k - w - 1]);
                }
            }
            if e > w + 1 {
                lemma_same_flags(a, b, e);
            }
        }
    }
}

/// The same signature is read at an offset of both texts.
proof fn lemma_same_signature(a: Seq<char>, b: Seq<char>, i: int)
    requires
        same_but_case(a, b),
        0 <= i <= a.len(),
    ensures
        spec_signature(a, i) == spec_signature(b, i),
{
    lemma_same_expect(a, b, i, '(');
    lemma_run_end(a, i, CharClass::Space);
    if let Ok(open) = spec_expect(a, i, '(') {
        lemma_same_runs(a, b, open, CharClass::Space);
        lemma_run_end(a, open, CharClass::Space);
        let t = skip_spaces(a, open);
        lemma_same_named(a, b, t);
        if let Ok((name, e)) = spec_named(a, t) {
            lemma_run_end(a, t, CharClass::Word);
            lemma_same_groups(a, b, e);
            lemma_groups_bounds(a, e);
            if let Ok((groups, c)) = spec_groups(a, e) {
                lemma_same_expect(a, b, c, ')');
            }
        }
    }
}

/// The same signatures are read from an offset on in both texts.
proof fn lemma_same_signatures(a: Seq<char>, b: Seq<char>, i: int)
    requires
        same_but_case(a, b),
        0 <= i <= a.len(),
    ensures
        spec_signatures(a, i) == spec_signatures(b, i),
    decreases a.len() - i,
{
    lemma_same_runs(a, b, i, CharClass::Space);
    lemma_run_end(a, i, CharClass::Space);
    let w = skip_spaces(a, i);
    if 0 <= w < a.len() {
        assert(same_but_case_at(a, b, w));
        if a[w] == '(' {
            lemma_same_signature(a, b, w);
            lemma_signature_bounds(a, w);
            if let Ok((first, e)) = spec_signature(a, w) {
                lemma_same_signatures(a, b, e);
            }
        }
    }
}

/// The same precondition and effect are read at an offset of both texts.
proof fn lemma_same_conditions(a: Seq<char>, b: Seq<char>, i: int)
    requires
        same_but_case(a, b),
        0 <= i <= a.len(),
    ensures
        spec_effect(a, i) == spec_effect(b, i),
        spec_conditions(a, i) == spec_conditions(b, i),
{
    lemma_run_end(a, i, CharClass::Space);
    lemma_same_keyword(a, b, i, "effect"@);
    lemma_same_keyword(a, b, i, "precondition"@);
    if skip_spaces(a, i) < a.len() {
        lemma_run_end(a, skip_spaces(a, i) + 1, CharClass::Word);
        let k = token_end(a, skip_spaces(a, i) + 1);
        lemma_same_expression(a, b, k);
        lemma_expression_bounds(a, k);
        if let Ok((precondition, p)) = spec_expression(a, k) {
            lemma_run_end(a, p, CharClass::Space);
            lemma_same_keyword(a, b, p, "effect"@);
            if skip_spaces(a, p) < a.len() {
                lemma_run_end(a, skip_spaces(a, p) + 1, CharClass::Word);
                lemma_same_expression(a, b, token_end(a, skip_spaces(a, p) + 1));
            }
        }
    }
}

/// The same action is read at an offset of both texts.
proof fn lemma_same_action(a: Seq<char>, b: Seq<char>, i: int)
    requires
        same_but_case(a, b),
        0 <= i <= a.len(),
    ensures
        spec_heading(a, i) == spec_heading(b, i),
        spec_action(a, i) == spec_action(b, i),
{
    lemma_run_end(a, i, CharClass::Space);
    lemma_same_keyword(a, b, i, "action"@);
    if let Ok(k) = spec_keyword(a, i, "action"@) {
        lemma_run_end(a, skip_spaces(a, i) + 1, CharClass::Word);
        lemma_same_runs(a, b, k, CharClass::Space);
        lemma_run_end(a, k, CharClass::Space);
        let t = skip_spaces(a, k);
        lemma_same_named(a, b, t);
        if let Ok((name, n)) = spec_named(a, t) {
            lemma_run_end(a, t, CharClass::Word);
            lemma_same_keyword(a, b, n, "parameters"@);
            lemma_run_end(a, n, CharClass::Space);
            if let Ok(p) = spec_keyword(a, n, "parameters"@) {
                lemma_run_end(a, skip_spaces(a, n) + 1, CharClass::Word);
                lemma_same_expect(a, b, p, '(');
                lemma_run_end(a, p, CharClass::Space);
                if let Ok(c) = spec_expect(a, p, '(') {
                    lemma_same_groups(a, b, c);
                    lemma_groups_bounds(a, c);
                    if let Ok((groups, d)) = spec_groups(a, c) {
                        lemma_same_expect(a, b, d, ')');
                        lemma_run_end(a, d, CharClass::Space);
                        if let Ok(e) = spec_expect(a, d, ')') {
                            lemma_same_conditions(a, b, e);
                        }
                    }
                }
            }
        }
    }
}

/// Whether the first word of every section that `a` holds from `i` on is
/// written in `b` as it is in `a`.
pub open spec fn heads_alike(a: Seq<char>, b: Seq<char>, i: int) -> bool
    decreases a.len() - i,
{
    match spec_expect(a, i, '(') {
        Err(_) => true,
        Ok(open) => token(a, skip_spaces(a, open)) == token(b, skip_spaces(a, open))
            && match spec_section(a, open) {
            Err(_) => true,
            Ok((section, e)) => match spec_expect(a, e, ')') {
                Err(_) => true,
                Ok(end) => {
                    proof {
                        lemma_run_end_advances(a, i, CharClass::Space);
                        lemma_run_end_advances(a, e, CharClass::Space);
                    }
                    open <= e ==> heads_alike(a, b, end)
                },
            },
        },
    }
}

/// Whether the words that are no identifiers but stand where identifiers
/// could, the word after the first parenthesis of `a` (`define`) and the
/// first word of every section of `a` (`domain`, where it is no keyword
/// after a colon), are written in `b` as they are in `a`.
pub open spec fn keywords_alike(a: Seq<char>, b: Seq<char>) -> bool {
    match spec_expect(a, 0, '(') {
        Err(_) => true,
        Ok(open) => {
            let w = skip_spaces(a, open);
            token(a, w) == token(b, w) && heads_alike(a, b, token_end(a, w))
        },
    }
}

/// The same section is read at an offset of both texts, if one is read in
/// each or its first word is written alike in both. (The word `domain` is
/// no identifier: written in capitals, it names no section.)
proof fn lemma_same_section(a: Seq<char>, b: Seq<char>, i: int)
    requires
        same_but_case(a, b),
        0 <= i <= a.len(),
        token(a, skip_spaces(a, i)) == token(b, skip_spaces(a, i)) || (spec_section(a, i) is Ok
            && spec_section(b, i) is Ok),
    ensures
        spec_section(a, i) == spec_section(b, i),
{
    reveal(spec_section);
    lemma_same_runs(a, b, i, CharClass::Space);
    lemma_run_end(a, i, CharClass::Space);
    let w = skip_spaces(a, i);
    if 0 <= w < a.len() {
        assert(same_but_case_at(a, b, w));
        if a[w] == ':' {
            lemma_same_colon_word(a, b, w);
            lemma_run_end(a, w + 1, CharClass::Word);
            let k = token_end(a, w + 1);
            lemma_same_flags(a, b, k);
            lemma_same_groups(a, b, k);
            lemma_same_signatures(a, b, k);
            lemma_same_action(a, b, i);
        } else {
            lemma_same_runs(a, b, w, CharClass::Word);
            lemma_run_end(a, w, CharClass::Word);
            let k = token_end(a, w);
            lemma_same_runs(a, b, k, CharClass::Space);
            lemma_run_end(a, k, CharClass::Space);
            lemma_same_named(a, b, skip_spaces(a, k));
        }
    }
}

/// The same sections are read from an offset on in both texts, if sections
/// are read in each or their first words are written alike in both.
proof fn lemma_same_sections(a: Seq<char>, b: Seq<char>, i: int)
    requires
        same_but_case(a, b),
        0 <= i <= a.len(),
        heads_alike(a, b, i) || (spec_sections(a, i) is Ok && spec_sections(b, i) is Ok),
    ensures
        spec_sections(a, i) == spec_sections(b, i),
    decreases a.len() - i,
{
    lemma_same_expect(a, b, i, '(');
    lemma_run_end(a, i, CharClass::Space);
    if let Ok(open) = spec_expect(a, i, '(') {
        lemma_same_section(a, b, open);
        lemma_section_bounds(a, open);
        if let Ok((section, e)) = spec_section(a, open) {
            lemma_same_expect(a, b, e, ')');
            lemma_run_end(a, e, CharClass::Space);
            if let Ok(end) = spec_expect(a, e, ')') {
                lemma_same_sections(a, b, end);
            }
        }
    }
}

/// The same definition is read from both texts, if one is read from each
/// or the keywords are written alike in both.
proof fn lemma_same_definition(a: Seq<char>, b: Seq<char>)
    requires
        same_but_case(a, b),
        keywords_alike(a, b) || (spec_definition(a) is Ok && spec_definition(b) is Ok),
    ensures
        spec_definition(a) == spec_definition(b),
{
    lemma_same_expect(a, b, 0, '(');
    lemma_run_end(a, 0, CharClass::Space);
    if let Ok(open) = spec_expect(a, 0, '(') {
        lemma_same_runs(a, b, open, CharClass::Space);
        lemma_run_end(a, open, CharClass::Space);
        lemma_same_runs(a, b, skip_spaces(a, open), CharClass::Word);
        lemma_run_end(a, skip_spaces(a, open), CharClass::Word);
        let k = token_end(a, skip_spaces(a, open));
        if spec_word(a, open, "define"@) is Ok || spec_word(b, open, "define"@) is Ok {
            lemma_same_sections(a, b, k);
            if let Ok((sections, c)) = spec_sections(a, k) {
                lemma_same_expect(a, b, c, ')');
                if let Ok(end) = spec_expect(a, c, ')') {
                    lemma_same_runs(a, b, end, CharClass::Space);
                }
            }
        }
    }
}

/// Identifiers are case-insensitive: two texts that, their comments taken
/// out, differ only in the case of ASCII letters, in ASCII tokens that
/// follow no colon, define the same domain, if each of them defines one.
pub proof fn lemma_case_leaves_no_trace(a: Seq<char>, b: Seq<char>)
    requires
        same_but_case(strip_comments(a), strip_comments(b)),
        spec_domain(a) is Ok,
        spec_domain(b) is Ok,
    ensures
        spec_domain(a) == spec_domain(b),
{
    lemma_same_definition(strip_comments(a), strip_comments(b));
}

/// Writing identifiers in other case changes nothing: if `b` is `a` but for
/// the case of ASCII letters in identifiers, every identifier included that
/// is itself spelled `define` or `domain`, and the keywords are left as
/// they are, then `b` defines the domain that `a` defines; and where `a`
/// defines none, `b` fails as `a` does.
pub proof fn lemma_case_keeps_outcome(a: Seq<char>, b: Seq<char>)
    requires
        same_but_case(strip_comments(a), strip_comments(b)),
        keywords_alike(strip_comments(a), strip_comments(b)),
    ensures
        spec_domain(a) == spec_domain(b),
{
    lemma_same_definition(strip_comments(a), strip_comments(b));
}

} // verus!
