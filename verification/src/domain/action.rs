//! Actions: what can be done, when, and to what effect.
use crate::domain::action::string_expression::{
    expression_at, lemma_expression_bounds, spec_expression, ExpressionView, StringExpression,
};
use crate::domain::parameter::{parameters_at, spec_parameters, Parameter, ParameterView};
use crate::error::{locate, Failure, Fault, SyntaxError};
use crate::shared::{lemma_run_end, named_at, scan, skip_spaces, spec_named, CharClass};
use crate::syntax::{expect_at, keyword_at, spec_expect, spec_keyword};
use crate::text::{copy_items, tail, to_chars, views};
use vstd::prelude::*;

pub mod string_expression;
pub mod written;

verus! {

/// The mathematical value of an [`Action`].
pub struct ActionView {
    pub name: Seq<char>,
    pub parameters: Seq<ParameterView>,
    pub precondition: Option<ExpressionView>,
    pub effect: ExpressionView,
}

/// An action: its name, its parameters, the condition under which it can
/// be taken, if it has one, and what it brings about.
#[derive(Debug, PartialEq, Eq)]
pub struct Action {
    pub name: String,
    pub parameters: Vec<Parameter>,
    pub precondition: Option<StringExpression>,
    pub effect: StringExpression,
}

impl View for Action {
    type V = ActionView;

    open spec fn view(&self) -> ActionView {
        ActionView {
            name: self.name@,
            parameters: views(self.parameters@),
            precondition: match self.precondition {
                Some(e) => Some(e@),
                None => None,
            },
            effect: self.effect@,
        }
    }
}

impl Clone for Action {
    fn clone(&self) -> (r: Self)
        ensures
            r@ == self@,
    {
        Action {
            name: self.name.clone(),
            parameters: copy_items(&self.parameters),
            precondition: match &self.precondition {
                Some(e) => Some(e.clone()),
                None => None,
            },
            effect: self.effect.clone(),
        }
    }
}

pub type Actions = Vec<Action>;

/// The effect given by `:effect <expression>` at `i`.
pub open spec fn spec_effect(s: Seq<char>, i: int) -> Result<(ExpressionView, int), Failure> {
    match spec_keyword(s, i, "effect"@) {
        Err(f) => Err(f),
        Ok(k) => spec_expression(s, k),
    }
}

/// The precondition and the effect given at `i`: `:precondition
/// <expression>`, which may be left out, and then `:effect <expression>`.
pub open spec fn spec_conditions(s: Seq<char>, i: int) -> Result<
    ((Option<ExpressionView>, ExpressionView), int),
    Failure,
> {
    match spec_keyword(s, i, "precondition"@) {
        Ok(k) => match spec_expression(s, k) {
            Err(f) => Err(f),
            Ok((precondition, p)) => match spec_effect(s, p) {
                Err(f) => Err(f),
                Ok((effect, end)) => Ok(((Some(precondition), effect), end)),
            },
        },
        Err(_) => match spec_effect(s, i) {
            Err(f) => Err(f),
            Ok((effect, end)) => Ok(((None, effect), end)),
        },
    }
}

/// An effect ends after the offset where it starts, and inside the text.
pub proof fn lemma_effect_bounds(s: Seq<char>, i: int)
    requires
        0 <= i <= s.len(),
    ensures
        spec_effect(s, i) matches Ok((effect, end)) ==> i < end <= s.len(),
{
    lemma_run_end(s, i, CharClass::Space);
    if let Ok(k) = spec_keyword(s, i, "effect"@) {
        lemma_run_end(s, skip_spaces(s, i) + 1, CharClass::Word);
        lemma_expression_bounds(s, k);
    }
}

/// A precondition and effect end after the offset where they start, and
/// inside the text.
pub proof fn lemma_conditions_bounds(s: Seq<char>, i: int)
    requires
        0 <= i <= s.len(),
    ensures
        spec_conditions(s, i) matches Ok((found, end)) ==> i < end <= s.len(),
{
    lemma_run_end(s, i, CharClass::Space);
    match spec_keyword(s, i, "precondition"@) {
        Ok(k) => {
            lemma_run_end(s, skip_spaces(s, i) + 1, CharClass::Word);
            lemma_expression_bounds(s, k);
            if let Ok((precondition, p)) = spec_expression(s, k) {
                lemma_effect_bounds(s, p);
            }
        },
        Err(_) => {
            lemma_effect_bounds(s, i);
        },
    }
}

/// The name and the parameters given at `i`: `:action <name> :parameters
/// (<typed list>)`.
pub open spec fn spec_heading(s: Seq<char>, i: int) -> Result<
    ((Seq<char>, Seq<ParameterView>), int),
    Failure,
> {
    match spec_keyword(s, i, "action"@) {
        Err(f) => Err(f),
        Ok(k) => match spec_named(s, skip_spaces(s, k)) {
            Err(f) => Err(f),
            Ok((name, a)) => match spec_keyword(s, a, "parameters"@) {
                Err(f) => Err(f),
                Ok(b) => match spec_expect(s, b, '(') {
                    Err(f) => Err(f),
                    Ok(c) => match spec_parameters(s, c) {
                        Err(f) => Err(f),
                        Ok((parameters, d)) => match spec_expect(s, d, ')') {
                            Err(f) => Err(f),
                            Ok(end) => Ok(((name, parameters), end)),
                        },
                    },
                },
            },
        },
    }
}

/// The action given at `i`: `:action <name> :parameters (<typed list>)`,
/// then `:precondition <expression>`, which may be left out, then `:effect
/// <expression>`, in this order.
pub open spec fn spec_action(s: Seq<char>, i: int) -> Result<(ActionView, int), Failure> {
    match spec_heading(s, i) {
        Err(f) => Err(f),
        Ok(((name, parameters), e)) => match spec_conditions(s, e) {
            Err(f) => Err(f),
            Ok(((precondition, effect), end)) => Ok(
                (ActionView { name, parameters, precondition, effect }, end),
            ),
        },
    }
}

/// Reads `:action <name> :parameters (<typed list>)` at `i`.
fn heading_at(s: &[char], i: usize) -> (r: Result<((String, Vec<Parameter>), usize), Fault>)
    requires
        i <= s.len(),
    ensures
        match r {
            Ok(((name, parameters), end)) => spec_heading(s@, i as int) == Ok::<_, Failure>(
                ((name@, views(parameters@)), end as int),
            ) && i < end <= s.len(),
            Err(f) => spec_heading(s@, i as int) == Err::<
                ((Seq<char>, Seq<ParameterView>), int),
                _,
            >(f@) && f.offset <= s.len(),
        },
{
    let k = match keyword_at(s, i, "action") {
        Err(f) => {
            return Err(f);
        },
        Ok(k) => k,
    };
    let (name, a) = match named_at(s, scan(s, k, CharClass::Space)) {
        Err(f) => {
            return Err(f);
        },
        Ok(found) => found,
    };
    let b = match keyword_at(s, a, "parameters") {
        Err(f) => {
            return Err(f);
        },
        Ok(b) => b,
    };
    let c = match expect_at(s, b, '(') {
        Err(f) => {
            return Err(f);
        },
        Ok(c) => c,
    };
    let (parameters, d) = match parameters_at(s, c) {
        Err(f) => {
            return Err(f);
        },
        Ok(found) => found,
    };
    match expect_at(s, d, ')') {
        Err(f) => Err(f),
        Ok(end) => Ok(((name, parameters), end)),
    }
}

/// Reads `:effect <expression>` at `i`.
fn effect_at(s: &[char], i: usize) -> (r: Result<(StringExpression, usize), Fault>)
    requires
        i <= s.len(),
    ensures
        match r {
            Ok((e, end)) => spec_effect(s@, i as int) == Ok::<_, Failure>((e@, end as int)) && i
                < end <= s.len(),
            Err(f) => spec_effect(s@, i as int) == Err::<(ExpressionView, int), _>(f@) && f.offset
                <= s.len(),
        },
{
    match keyword_at(s, i, "effect") {
        Err(f) => Err(f),
        Ok(k) => expression_at(s, k),
    }
}

/// Reads an action at `i`, from its keyword to its effect.
pub fn action_at(s: &[char], i: usize) -> (r: Result<(Action, usize), Fault>)
    requires
        i <= s.len(),
    ensures
        match r {
            Ok((action, end)) => spec_action(s@, i as int) == Ok::<_, Failure>(
                (action@, end as int),
            ) && i < end <= s.len(),
            Err(f) => spec_action(s@, i as int) == Err::<(ActionView, int), _>(f@) && f.offset
                <= s.len(),
        },
{
    let ((name, parameters), e) = match heading_at(s, i) {
        Err(f) => {
            return Err(f);
        },
        Ok(found) => found,
    };
    let (precondition, p) = match keyword_at(s, e, "precondition") {
        Err(_) => (None, e),
        Ok(k) => match expression_at(s, k) {
            Err(f) => {
                return Err(f);
            },
            Ok((precondition, p)) => (Some(precondition), p),
        },
    };
    match effect_at(s, p) {
        Err(f) => Err(f),
        Ok((effect, end)) => Ok((Action { name, parameters, precondition, effect }, end)),
    }
}

/// Reads an action at the start of `input`, and hands back the rest of the
/// input with it.
pub fn parse_action(input: &str) -> (r: Result<(&str, Action), SyntaxError>)
    ensures
        match r {
            Ok((rest, action)) => spec_action(input@, 0) matches Ok((v, end)) && action@ == v
                && rest@ == input@.skip(end),
            Err(e) => spec_action(input@, 0) matches Err(f) && e.reports(input@, f),
        },
{
    let chars = to_chars(input);
    match action_at(chars.as_slice(), 0) {
        Ok((action, end)) => Ok((tail(input, end), action)),
        Err(f) => Err(locate(chars.as_slice(), f)),
    }
}

} // verus!
