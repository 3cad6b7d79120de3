//! Typed lists: names that share the type written after them.
use crate::error::{locate, ErrorKind, Failure, Fault, SyntaxError};
use crate::shared::{
    lemma_run_end, lemma_run_end_advances, named_at, scan, skip_spaces, spec_named, CharClass,
};
use crate::syntax::{
    is_dash, lemma_names_bounds, lemma_prepend_end, lemma_prepend_push, names_at, prepend,
    spec_names,
};
use crate::text::{lemma_views_push, spells, tail, to_chars, views};
use vstd::prelude::*;

verus! {

/// The mathematical value of a [`Group`].
pub struct GroupView {
    pub names: Seq<Seq<char>>,
    pub type_of: Option<Seq<char>>,
}

/// One batch of a typed list: the names written before a `- type`, with
/// that type; or the names at the end of the list that no type follows.
#[derive(Debug, PartialEq, Eq)]
pub struct Group {
    pub names: Vec<String>,
    pub type_of: Option<String>,
}

impl View for Group {
    type V = GroupView;

    open spec fn view(&self) -> GroupView {
        GroupView {
            names: views(self.names@),
            type_of: match self.type_of {
                Some(t) => Some(t@),
                None => None,
            },
        }
    }
}

/// The typed list that starts at `i`, as its batches.
///
/// `n1 n2 - t1 n3 - t2 n4 n5` has three batches: `n1 n2` of type `t1`, `n3`
/// of type `t2`, and `n4 n5` without a type. A `-` must follow at least one
/// name and be followed by an identifier.
pub open spec fn spec_groups(s: Seq<char>, i: int) -> Result<(Seq<GroupView>, int), Failure>
    decreases s.len() - i,
{
    let (names, e) = spec_names(s, i);
    let w = skip_spaces(s, e);
    if is_dash(s, w) {
        if names.len() == 0 {
            Err(Failure { kind: ErrorKind::Structure, at: w })
        } else {
            match spec_named(s, skip_spaces(s, w + 1)) {
                Err(f) => Err(Failure { kind: ErrorKind::Structure, at: f.at }),
                Ok((type_of, after)) => {
                    proof {
                        lemma_names_bounds(s, i);
                        lemma_run_end_advances(s, e, CharClass::Space);
                        lemma_run_end(s, w + 1, CharClass::Space);
                        lemma_run_end(s, skip_spaces(s, w + 1), CharClass::Word);
                    }
                    prepend(
                        seq![GroupView { names, type_of: Some(type_of) }],
                        spec_groups(s, after),
                    )
                },
            }
        }
    } else if names.len() == 0 {
        Ok((Seq::empty(), e))
    } else {
        Ok((seq![GroupView { names, type_of: None }], e))
    }
}

/// A typed list ends at or after the offset where it starts, and inside
/// the text.
pub proof fn lemma_groups_bounds(s: Seq<char>, i: int)
    requires
        0 <= i <= s.len(),
    ensures
        spec_groups(s, i) matches Ok((groups, end)) ==> i <= end <= s.len(),
    decreases s.len() - i,
{
    lemma_names_bounds(s, i);
    let (names, e) = spec_names(s, i);
    let w = skip_spaces(s, e);
    lemma_run_end(s, e, CharClass::Space);
    if is_dash(s, w) && names.len() > 0 {
        lemma_run_end(s, w + 1, CharClass::Space);
        if let Ok((type_of, after)) = spec_named(s, skip_spaces(s, w + 1)) {
            lemma_run_end(s, skip_spaces(s, w + 1), CharClass::Word);
            lemma_groups_bounds(s, after);
        }
    }
}

/// Reads the typed list that starts at `i`, batch by batch.
pub fn groups_at(s: &[char], i: usize) -> (r: Result<(Vec<Group>, usize), Fault>)
    requires
        i <= s.len(),
    ensures
        match r {
            Ok((groups, end)) => spec_groups(s@, i as int) == Ok::<_, Failure>(
                (views(groups@), end as int),
            ) && i <= end <= s.len(),
            Err(f) => spec_groups(s@, i as int) == Err::<(Seq<GroupView>, int), _>(f@)
                && f.offset <= s.len(),
        },
{
    let mut groups: Vec<Group> = Vec::new();
    let mut pos: usize = i;
    proof {
        assert(views(groups@) =~= Seq::<GroupView>::empty());
        if let Ok((more, end)) = spec_groups(s@, i as int) {
            assert(Seq::<GroupView>::empty() + more =~= more);
        }
    }
    loop
        invariant
            i <= pos <= s.len(),
            spec_groups(s@, i as int) == prepend(views(groups@), spec_groups(s@, pos as int)),
        decreases s.len() - pos,
    {
        let (names, e) = names_at(s, pos);
        let w = scan(s, e, CharClass::Space);
        let dash = w < s.len() && spells(s, w, scan(s, w, CharClass::Word), "-");
        if !dash {
            if names.len() > 0 {
                let last = Group { names, type_of: None };
                proof {
                    lemma_views_push(groups@, last);
                    assert(views(groups@) + seq![last@] =~= views(groups@).push(last@));
                }
                groups.push(last);
            } else {
                proof {
                    lemma_prepend_end(views(groups@), e as int);
                }
            }
            return Ok((groups, e));
        }
        if names.len() == 0 {
            return Err(Fault { kind: ErrorKind::Structure, offset: w });
        }
        proof {
            reveal_strlit("-");
            lemma_run_end(s@, w as int, CharClass::Word);
        }
        let start = scan(s, w + 1, CharClass::Space);
        match named_at(s, start) {
            Err(f) => {
                return Err(Fault { kind: ErrorKind::Structure, offset: f.offset });
            },
            Ok((type_of, after)) => {
                let group = Group { names, type_of: Some(type_of) };
                proof {
                    lemma_prepend_push(views(groups@), group@, spec_groups(s@, after as int));
                    lemma_views_push(groups@, group);
                }
                groups.push(group);
                pos = after;
            },
        }
    }
}

/// The mathematical value of a [`Parameter`].
pub enum ParameterView {
    Typed { name: Seq<char>, type_of: Seq<char> },
    Untyped { name: Seq<char> },
}

/// A declared name: a constant, or a parameter of a predicate or of an
/// action. A name without a type is kept apart from a name of any named
/// type.
#[derive(Debug, PartialEq, Eq)]
pub enum Parameter {
    Typed { name: String, type_of: String },
    Untyped { name: String },
}

impl View for Parameter {
    type V = ParameterView;

    open spec fn view(&self) -> ParameterView {
        match self {
            Parameter::Typed { name, type_of } => ParameterView::Typed {
                name: name@,
                type_of: type_of@,
            },
            Parameter::Untyped { name } => ParameterView::Untyped { name: name@ },
        }
    }
}

impl Clone for Parameter {
    fn clone(&self) -> (r: Self)
        ensures
            r@ == self@,
    {
        match self {
            Parameter::Typed { name, type_of } => Parameter::Typed {
                name: name.clone(),
                type_of: type_of.clone(),
            },
            Parameter::Untyped { name } => Parameter::Untyped { name: name.clone() },
        }
    }
}

pub type Parameters = Vec<Parameter>;

/// The declaration that a batch makes of one of its names.
pub open spec fn stamp(name: Seq<char>, type_of: Option<Seq<char>>) -> ParameterView {
    match type_of {
        Some(t) => ParameterView::Typed { name, type_of: t },
        None => ParameterView::Untyped { name },
    }
}

/// The declarations that a typed list makes: each name in turn, with the
/// type of its batch.
pub open spec fn parameters_of(groups: Seq<GroupView>) -> Seq<ParameterView>
    decreases groups.len(),
{
    if groups.len() == 0 {
        Seq::empty()
    } else {
        parameters_of(groups.drop_last()) + groups.last().names.map_values(
            |n: Seq<char>| stamp(n, groups.last().type_of),
        )
    }
}

/// The parameters declared by the typed list that starts at `i`.
pub open spec fn spec_parameters(s: Seq<char>, i: int) -> Result<(Seq<ParameterView>, int), Failure> {
    match spec_groups(s, i) {
        Err(f) => Err(f),
        Ok((groups, end)) => Ok((parameters_of(groups), end)),
    }
}

/// Turns the batches of a typed list into declarations.
pub fn into_parameters(groups: &Vec<Group>) -> (parameters: Vec<Parameter>)
    ensures
        views(parameters@) == parameters_of(views(groups@)),
{
    let mut parameters: Vec<Parameter> = Vec::new();
    let mut g: usize = 0;
    assert(views(groups@).take(0) =~= Seq::<GroupView>::empty());
    assert(views(parameters@) =~= parameters_of(views(groups@).take(0)));
    while g < groups.len()
        invariant
            g <= groups.len(),
            views(parameters@) == parameters_of(views(groups@).take(g as int)),
        decreases groups.len() - g,
    {
        let group = &groups[g];
        let ghost before = views(parameters@);
        let ghost gv = group@;
        let mut k: usize = 0;
        while k < group.names.len()
            invariant
                k <= group.names.len(),
                gv == group@,
                views(parameters@) == before + gv.names.take(k as int).map_values(
                    |n: Seq<char>| stamp(n, gv.type_of),
                ),
            decreases group.names.len() - k,
        {
            let name = group.names[k].clone();
            let parameter = match &group.type_of {
                Some(t) => Parameter::Typed { name, type_of: t.clone() },
                None => Parameter::Untyped { name },
            };
            proof {
                lemma_views_push(parameters@, parameter);
                assert(gv.names[k as int] == group.names@[k as int]@);
                assert(parameter@ == stamp(gv.names[k as int], gv.type_of));
                assert(gv.names.take(k + 1).map_values(|n: Seq<char>| stamp(n, gv.type_of))
                    =~= gv.names.take(k as int).map_values(
                    |n: Seq<char>| stamp(n, gv.type_of),
                ).push(stamp(gv.names[k as int], gv.type_of)));
            }
            parameters.push(parameter);
            k = k + 1;
        }
        proof {
            assert(gv.names.take(group.names.len() as int) =~= gv.names);
            assert(views(groups@).take(g + 1).drop_last() =~= views(groups@).take(g as int));
            assert(views(groups@).take(g + 1).last() == gv);
        }
        g = g + 1;
    }
    assert(views(groups@).take(groups.len() as int) =~= views(groups@));
    parameters
}

/// Reads the typed list that starts at `i` as declarations.
pub fn parameters_at(s: &[char], i: usize) -> (r: Result<(Vec<Parameter>, usize), Fault>)
    requires
        i <= s.len(),
    ensures
        match r {
            Ok((parameters, end)) => spec_parameters(s@, i as int) == Ok::<_, Failure>(
                (views(parameters@), end as int),
            ) && i <= end <= s.len(),
            Err(f) => spec_parameters(s@, i as int) == Err::<(Seq<ParameterView>, int), _>(f@)
                && f.offset <= s.len(),
        },
{
    match groups_at(s, i) {
        Err(f) => Err(f),
        Ok((groups, end)) => Ok((into_parameters(&groups), end)),
    }
}

/// Reads the typed list at the start of `input`, and hands back the rest
/// of the input with its declarations: `n1 n2 - t1 n3` declares `n1` and
/// `n2` with type `t1`, and `n3` without a type.
pub fn parse_parameters(input: &str) -> (r: Result<(&str, Vec<Parameter>), SyntaxError>)
    ensures
        match r {
            Ok((rest, parameters)) => spec_parameters(input@, 0) matches Ok((p, end)) && views(
                parameters@,
            ) == p && rest@ == input@.skip(end),
            Err(e) => spec_parameters(input@, 0) matches Err(f) && e.reports(input@, f),
        },
{
    let chars = to_chars(input);
    match parameters_at(chars.as_slice(), 0) {
        Ok((parameters, end)) => Ok((tail(input, end), parameters)),
        Err(f) => Err(locate(chars.as_slice(), f)),
    }
}

} // verus!
