//! The section that declares the types of a domain.
use crate::domain::parameter::{groups_at, spec_groups, Group, GroupView};
use crate::error::{locate, ErrorKind, Failure, Fault, SyntaxError};
use crate::syntax::{keyword_at, spec_keyword};
use crate::text::{copy_items, lemma_views_push, tail, to_chars, views};
use vstd::prelude::*;

verus! {

/// The mathematical value of a [`Type`].
pub struct TypeView {
    pub name: Seq<char>,
    pub sub_types: Seq<Seq<char>>,
}

/// A type together with the types declared directly under it. The records
/// of a domain are the edges of its type hierarchy; nothing here builds the
/// hierarchy or looks for cycles in it.
#[derive(Debug, PartialEq, Eq)]
pub struct Type {
    pub name: String,
    pub sub_types: Vec<String>,
}

impl View for Type {
    type V = TypeView;

    open spec fn view(&self) -> TypeView {
        TypeView { name: self.name@, sub_types: views(self.sub_types@) }
    }
}

impl Clone for Type {
    fn clone(&self) -> (r: Self)
        ensures
            r@ == self@,
    {
        Type { name: self.name.clone(), sub_types: copy_items(&self.sub_types) }
    }
}

pub type Types = Vec<Type>;

/// The type record that a batch of a typed list stands for: the type after
/// the `-` is the supertype of the names before it.
pub open spec fn record_of(group: GroupView) -> TypeView {
    TypeView { name: group.type_of->0, sub_types: group.names }
}

/// The type records that a typed list stands for, one for each batch.
/// There are none where a batch names no supertype.
pub open spec fn types_of(groups: Seq<GroupView>) -> Option<Seq<TypeView>> {
    if forall|k: int| 0 <= k < groups.len() ==> (#[trigger] groups[k]).type_of is Some {
        Some(groups.map_values(|g: GroupView| record_of(g)))
    } else {
        None
    }
}

/// The type records declared by `:types <typed list>` at `i`.
pub open spec fn spec_types(s: Seq<char>, i: int) -> Result<(Seq<TypeView>, int), Failure> {
    match spec_keyword(s, i, "types"@) {
        Err(f) => Err(f),
        Ok(k) => match spec_groups(s, k) {
            Err(f) => Err(f),
            Ok((groups, end)) => match types_of(groups) {
                None => Err(Failure { kind: ErrorKind::Structure, at: end }),
                Some(types) => Ok((types, end)),
            },
        },
    }
}

/// Turns the batches of a typed list into type records.
pub fn into_types(groups: &Vec<Group>) -> (r: Option<Vec<Type>>)
    ensures
        match r {
            Some(types) => types_of(views(groups@)) == Some(views(types@)),
            None => types_of(views(groups@)) is None,
        },
{
    let mut types: Vec<Type> = Vec::new();
    let mut k: usize = 0;
    let ghost gs = views(groups@);
    while k < groups.len()
        invariant
            k <= groups.len(),
            gs == views(groups@),
            forall|j: int| 0 <= j < k ==> (#[trigger] gs[j]).type_of is Some,
            views(types@) =~= gs.take(k as int).map_values(|g: GroupView| record_of(g)),
        decreases groups.len() - k,
    {
        let group = &groups[k];
        assert(gs[k as int] == group@);
        match &group.type_of {
            None => {
                return None;
            },
            Some(t) => {
                let record = Type { name: t.clone(), sub_types: copy_items(&group.names) };
                proof {
                    lemma_views_push(types@, record);
                    assert(record@ == record_of(gs[k as int]));
                }
                types.push(record);
            },
        }
        k = k + 1;
    }
    assert(gs.take(groups.len() as int) =~= gs);
    Some(types)
}

/// Reads `:types <typed list>` at `i`.
pub fn types_at(s: &[char], i: usize) -> (r: Result<(Vec<Type>, usize), Fault>)
    requires
        i <= s.len(),
    ensures
        match r {
            Ok((types, end)) => spec_types(s@, i as int) == Ok::<_, Failure>(
                (views(types@), end as int),
            ) && i < end <= s.len(),
            Err(f) => spec_types(s@, i as int) == Err::<(Seq<TypeView>, int), _>(f@) && f.offset
                <= s.len(),
        },
{
    match keyword_at(s, i, "types") {
        Err(f) => Err(f),
        Ok(k) => match groups_at(s, k) {
            Err(f) => Err(f),
            Ok((groups, end)) => match into_types(&groups) {
                None => Err(Fault { kind: ErrorKind::Structure, offset: end }),
                Some(types) => Ok((types, end)),
            },
        },
    }
}

/// Reads `:types <typed list>` at the start of `input`, and hands back the
/// rest of the input with the type records.
pub fn parse_types(input: &str) -> (r: Result<(&str, Types), SyntaxError>)
    ensures
        match r {
            Ok((rest, types)) => spec_types(input@, 0) matches Ok((v, end)) && views(types@) == v
                && rest@ == input@.skip(end),
            Err(e) => spec_types(input@, 0) matches Err(f) && e.reports(input@, f),
        },
{
    let chars = to_chars(input);
    match types_at(chars.as_slice(), 0) {
        Ok((types, end)) => Ok((tail(input, end), types)),
        Err(f) => Err(locate(chars.as_slice(), f)),
    }
}

} // verus!
