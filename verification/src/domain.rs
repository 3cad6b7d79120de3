//! Domain definitions and their sections.
use crate::domain::action::{
    action_at, lemma_conditions_bounds, spec_action, Action, ActionView, Actions,
};
use crate::domain::constants::{constants_at, spec_constants};
use crate::domain::name::{name_at, spec_name};
use crate::domain::parameter::{lemma_groups_bounds, spec_groups, ParameterView, Parameters};
use crate::domain::predicate::{
    lemma_signatures_bounds, predicates_at, spec_predicates, PredicateView, Predicates,
};
use crate::domain::requirement::{
    lemma_flags_bounds, requirements_at, spec_requirements, Requirements,
};
use crate::domain::types::{spec_types, types_at, TypeView, Types};
use crate::error::{locate, ErrorKind, Failure, Fault, SyntaxError};
use crate::shared::{
    lemma_plain_text_unchanged, lemma_run_end, lemma_run_end_advances, origin, origin_at,
    remove_comments, scan,
    skip_spaces, spec_named, strip_comments, token, token_end, CharClass,
};
use crate::syntax::{
    expect_at, lemma_prepend_end, lemma_prepend_push, prepend, spec_expect, spec_keyword,
    spec_word, word_at,
};
use crate::text::{copy_items, lemma_views_push, spells, to_chars, views};
use vstd::prelude::*;

pub mod action;
pub mod constants;
pub mod name;
pub mod parameter;
pub mod predicate;
pub mod requirement;
pub mod types;

verus! {

/// The mathematical value of a [`Domain`].
pub struct DomainView {
    pub name: Seq<char>,
    pub requirements: Option<Seq<Seq<char>>>,
    pub types: Option<Seq<TypeView>>,
    pub constants: Option<Seq<ParameterView>>,
    pub predicates: Seq<PredicateView>,
    pub actions: Seq<ActionView>,
}

impl DomainView {
    /// What holds of every domain that a text defines: it has a name, at
    /// least one predicate and at least one action.
    pub open spec fn well_formed(self) -> bool {
        self.name.len() > 0 && self.predicates.len() > 0 && self.actions.len() > 0
    }
}

/// A planning domain: the vocabulary in which problems are stated.
#[derive(Debug, PartialEq, Eq)]
pub struct Domain {
    pub name: String,
    pub requirements: Option<Requirements>,
    pub types: Option<Types>,
    pub constants: Option<Parameters>,
    pub predicates: Predicates,
    pub actions: Actions,
}

impl View for Domain {
    type V = DomainView;

    open spec fn view(&self) -> DomainView {
        DomainView {
            name: self.name@,
            requirements: match self.requirements {
                Some(r) => Some(views(r@)),
                None => None,
            },
            types: match self.types {
                Some(t) => Some(views(t@)),
                None => None,
            },
            constants: match self.constants {
                Some(c) => Some(views(c@)),
                None => None,
            },
            predicates: views(self.predicates@),
            actions: views(self.actions@),
        }
    }
}

impl Clone for Domain {
    fn clone(&self) -> (r: Self)
        ensures
            r@ == self@,
    {
        Domain {
            name: self.name.clone(),
            requirements: match &self.requirements {
                Some(r) => Some(copy_items(r)),
                None => None,
            },
            types: match &self.types {
                Some(t) => Some(copy_items(t)),
                None => None,
            },
            constants: match &self.constants {
                Some(c) => Some(copy_items(c)),
                None => None,
            },
            predicates: copy_items(&self.predicates),
            actions: copy_items(&self.actions),
        }
    }
}

/// The kinds of section that a definition is made of.
#[derive(Clone, Copy, Debug, PartialEq, Eq)]
pub enum SectionKind {
    Name,
    Requirements,
    Types,
    Constants,
    Predicates,
    Action,
}

/// The mathematical value of a [`Section`].
pub enum SectionView {
    Name(Seq<char>),
    Requirements(Seq<Seq<char>>),
    Types(Seq<TypeView>),
    Constants(Seq<ParameterView>),
    Predicates(Seq<PredicateView>),
    Action(ActionView),
}

impl SectionView {
    pub open spec fn kind(self) -> SectionKind {
        match self {
            SectionView::Name(_) => SectionKind::Name,
            SectionView::Requirements(_) => SectionKind::Requirements,
            SectionView::Types(_) => SectionKind::Types,
            SectionView::Constants(_) => SectionKind::Constants,
            SectionView::Predicates(_) => SectionKind::Predicates,
            SectionView::Action(_) => SectionKind::Action,
        }
    }
}

/// One parenthesised section of a definition, parsed.
#[derive(Debug, PartialEq, Eq)]
pub enum Section {
    Name(String),
    Requirements(Requirements),
    Types(Types),
    Constants(Parameters),
    Predicates(Predicates),
    Action(Action),
}

impl View for Section {
    type V = SectionView;

    open spec fn view(&self) -> SectionView {
        match self {
            Section::Name(n) => SectionView::Name(n@),
            Section::Requirements(r) => SectionView::Requirements(views(r@)),
            Section::Types(t) => SectionView::Types(views(t@)),
            Section::Constants(c) => SectionView::Constants(views(c@)),
            Section::Predicates(p) => SectionView::Predicates(views(p@)),
            Section::Action(a) => SectionView::Action(a@),
        }
    }
}

/// The section whose inside starts at `i`, just after its opening
/// parenthesis. Its first token says which section it is: `domain`, or one
/// of the keywords `:requirements`, `:types`, `:constants`, `:predicates`
/// and `:action`.
#[verifier::opaque]
pub open spec fn spec_section(s: Seq<char>, i: int) -> Result<(SectionView, int), Failure> {
    let w = skip_spaces(s, i);
    if 0 <= w < s.len() && s[w] == ':' {
        let keyword = token(s, w + 1);
        if keyword == "requirements"@ {
            match spec_requirements(s, i) {
                Err(f) => Err(f),
                Ok((flags, end)) => Ok((SectionView::Requirements(flags), end)),
            }
        } else if keyword == "types"@ {
            match spec_types(s, i) {
                Err(f) => Err(f),
                Ok((types, end)) => Ok((SectionView::Types(types), end)),
            }
        } else if keyword == "constants"@ {
            match spec_constants(s, i) {
                Err(f) => Err(f),
                Ok((constants, end)) => Ok((SectionView::Constants(constants), end)),
            }
        } else if keyword == "predicates"@ {
            match spec_predicates(s, i) {
                Err(f) => Err(f),
                Ok((predicates, end)) => Ok((SectionView::Predicates(predicates), end)),
            }
        } else if keyword == "action"@ {
            match spec_action(s, i) {
                Err(f) => Err(f),
                Ok((action, end)) => Ok((SectionView::Action(action), end)),
            }
        } else {
            Err(Failure { kind: ErrorKind::Structure, at: w })
        }
    } else {
        match spec_name(s, i) {
            Err(f) => Err(f),
            Ok((name, end)) => Ok((SectionView::Name(name), end)),
        }
    }
}

/// A section ends after the offset where its inside starts, and inside the
/// text.
pub proof fn lemma_section_bounds(s: Seq<char>, i: int)
    requires
        0 <= i <= s.len(),
    ensures
        spec_section(s, i) matches Ok((section, end)) ==> i < end <= s.len(),
{
    reveal(spec_section);
    let w = skip_spaces(s, i);
    lemma_run_end(s, i, CharClass::Space);
    if 0 <= w < s.len() && s[w] == ':' {
        let k = token_end(s, w + 1);
        lemma_run_end(s, w + 1, CharClass::Word);
        lemma_flags_bounds(s, k);
        lemma_groups_bounds(s, k);
        lemma_signatures_bounds(s, k);
        lemma_run_end(s, k, CharClass::Space);
        lemma_run_end(s, skip_spaces(s, k), CharClass::Word);
        if let Ok((name, a)) = spec_named(s, skip_spaces(s, k)) {
            lemma_run_end(s, a, CharClass::Space);
            if let Ok(b) = spec_keyword(s, a, "parameters"@) {
                lemma_run_end(s, skip_spaces(s, a) + 1, CharClass::Word);
                lemma_run_end(s, b, CharClass::Space);
                if let Ok(c) = spec_expect(s, b, '(') {
                    lemma_groups_bounds(s, c);
                    if let Ok((groups, d)) = spec_groups(s, c) {
                        lemma_run_end(s, d, CharClass::Space);
                        if let Ok(e) = spec_expect(s, d, ')') {
                            lemma_conditions_bounds(s, e);
                        }
                    }
                }
            }
        }
    } else {
        if let Ok(k) = spec_word(s, i, "domain"@) {
            lemma_run_end(s, w, CharClass::Word);
            lemma_run_end(s, k, CharClass::Space);
            lemma_run_end(s, skip_spaces(s, k), CharClass::Word);
        }
    }
}

/// Reads the section whose inside starts at `i`.
pub fn section_at(s: &[char], i: usize) -> (r: Result<(Section, usize), Fault>)
    requires
        i <= s.len(),
    ensures
        match r {
            Ok((section, end)) => spec_section(s@, i as int) == Ok::<_, Failure>(
                (section@, end as int),
            ) && i < end <= s.len(),
            Err(f) => spec_section(s@, i as int) == Err::<(SectionView, int), _>(f@) && f.offset
                <= s.len(),
        },
{
    proof {
        reveal(spec_section);
    }
    let w = scan(s, i, CharClass::Space);
    if w < s.len() && s[w] == ':' {
        let e = scan(s, w + 1, CharClass::Word);
        if spells(s, w + 1, e, "requirements") {
            match requirements_at(s, i) {
                Err(f) => Err(f),
                Ok((flags, end)) => Ok((Section::Requirements(flags), end)),
            }
        } else if spells(s, w + 1, e, "types") {
            match types_at(s, i) {
                Err(f) => Err(f),
                Ok((types, end)) => Ok((Section::Types(types), end)),
            }
        } else if spells(s, w + 1, e, "constants") {
            match constants_at(s, i) {
                Err(f) => Err(f),
                Ok((constants, end)) => Ok((Section::Constants(constants), end)),
            }
        } else if spells(s, w + 1, e, "predicates") {
            match predicates_at(s, i) {
                Err(f) => Err(f),
                Ok((predicates, end)) => Ok((Section::Predicates(predicates), end)),
            }
        } else if spells(s, w + 1, e, "action") {
            match action_at(s, i) {
                Err(f) => Err(f),
                Ok((action, end)) => Ok((Section::Action(action), end)),
            }
        } else {
            Err(Fault { kind: ErrorKind::Structure, offset: w })
        }
    } else {
        match name_at(s, i) {
            Err(f) => Err(f),
            Ok((name, end)) => Ok((Section::Name(name), end)),
        }
    }
}

/// The sections that follow one another from `i` on, each in its own
/// parentheses, up to the first thing that is no opening parenthesis. (A
/// section never ends before it starts: see [`lemma_section_bounds`]. The
/// test for it here is what makes the definition well-founded.)
pub open spec fn spec_sections(s: Seq<char>, i: int) -> Result<(Seq<SectionView>, int), Failure>
    decreases s.len() - i,
{
    match spec_expect(s, i, '(') {
        Err(_) => Ok((Seq::empty(), i)),
        Ok(a) => match spec_section(s, a) {
            Err(f) => Err(f),
            Ok((section, e)) => match spec_expect(s, e, ')') {
                Err(f) => Err(f),
                Ok(end) => {
                    proof {
                        lemma_run_end_advances(s, i, CharClass::Space);
                        lemma_run_end_advances(s, e, CharClass::Space);
                    }
                    if a <= e {
                        prepend(seq![section], spec_sections(s, end))
                    } else {
                        Err(Failure { kind: ErrorKind::Structure, at: a })
                    }
                },
            },
        },
    }
}

/// The sections of `kind` among `sections`, in their order.
pub open spec fn of_kind(sections: Seq<SectionView>, kind: SectionKind) -> Seq<SectionView>
    decreases sections.len(),
{
    if sections.len() == 0 {
        Seq::empty()
    } else if sections.last().kind() == kind {
        of_kind(sections.drop_last(), kind).push(sections.last())
    } else {
        of_kind(sections.drop_last(), kind)
    }
}

/// Whether a section that may stand only once stands more than once.
pub open spec fn repeats(sections: Seq<SectionView>) -> bool {
    ||| of_kind(sections, SectionKind::Name).len() > 1
    ||| of_kind(sections, SectionKind::Requirements).len() > 1
    ||| of_kind(sections, SectionKind::Types).len() > 1
    ||| of_kind(sections, SectionKind::Constants).len() > 1
    ||| of_kind(sections, SectionKind::Predicates).len() > 1
}

/// The one section of `kind` among `sections`, if there is any.
pub open spec fn the(sections: Seq<SectionView>, kind: SectionKind) -> Option<SectionView> {
    if of_kind(sections, kind).len() > 0 {
        Some(of_kind(sections, kind)[0])
    } else {
        None
    }
}

/// The actions among `sections`, in their order.
pub open spec fn actions_of(sections: Seq<SectionView>) -> Seq<ActionView> {
    of_kind(sections, SectionKind::Action).map_values(|a: SectionView| a->Action_0)
}

/// The domain that `sections` define together, in whatever order they
/// stand.
///
/// The name and the predicates must each be given once, and neither may be
/// empty; requirements, types and constants may each be given once or not
/// at all; there must be at least one action, and the actions keep their
/// order.
pub open spec fn spec_assemble(sections: Seq<SectionView>) -> Option<DomainView> {
    let name = the(sections, SectionKind::Name);
    let predicates = the(sections, SectionKind::Predicates);
    if repeats(sections) || name is None || predicates is None || actions_of(sections).len() == 0
        || name->0->Name_0.len() == 0 || predicates->0->Predicates_0.len() == 0 {
        None
    } else {
        Some(
            DomainView {
                name: name->0->Name_0,
                requirements: match the(sections, SectionKind::Requirements) {
                    Some(r) => Some(r->Requirements_0),
                    None => None,
                },
                types: match the(sections, SectionKind::Types) {
                    Some(t) => Some(t->Types_0),
                    None => None,
                },
                constants: match the(sections, SectionKind::Constants) {
                    Some(c) => Some(c->Constants_0),
                    None => None,
                },
                predicates: predicates->0->Predicates_0,
                actions: actions_of(sections),
            },
        )
    }
}

/// The sections of a text without comments, which must be `(define
/// <section>*)` after white space, and the offset after its closing
/// parenthesis.
pub open spec fn spec_body(s: Seq<char>) -> Result<(Seq<SectionView>, int), Failure> {
    match spec_expect(s, 0, '(') {
        Err(f) => Err(f),
        Ok(a) => match spec_word(s, a, "define"@) {
            Err(f) => Err(f),
            Ok(b) => match spec_sections(s, b) {
                Err(f) => Err(f),
                Ok((sections, c)) => match spec_expect(s, c, ')') {
                    Err(f) => Err(f),
                    Ok(end) => Ok((sections, end)),
                },
            },
        },
    }
}

/// The domain defined by a text without comments: what its sections
/// define together, provided that nothing but white space follows the
/// closing parenthesis.
pub open spec fn spec_definition(s: Seq<char>) -> Result<DomainView, Failure> {
    match spec_body(s) {
        Err(f) => Err(f),
        Ok((sections, end)) => match spec_assemble(sections) {
            None => Err(Failure { kind: ErrorKind::Cardinality, at: end - 1 }),
            Some(domain) => if skip_spaces(s, end) < s.len() {
                Err(Failure { kind: ErrorKind::Completeness, at: skip_spaces(s, end) })
            } else {
                Ok(domain)
            },
        },
    }
}

/// The domain defined by a text: that of the text without its comments.
pub open spec fn spec_domain(text: Seq<char>) -> Result<DomainView, Failure> {
    spec_definition(strip_comments(text))
}

/// A text without `;` defines what it defines as it stands.
pub proof fn lemma_domain_without_comments(text: Seq<char>)
    requires
        forall|k: int| 0 <= k < text.len() ==> text[k] != ';',
    ensures
        spec_domain(text) == spec_definition(text),
{
    lemma_plain_text_unchanged(text);
}

/// Reads the sections that follow one another from `i` on.
pub fn sections_at(s: &[char], i: usize) -> (r: Result<(Vec<Section>, usize), Fault>)
    requires
        i <= s.len(),
    ensures
        match r {
            Ok((sections, end)) => spec_sections(s@, i as int) == Ok::<_, Failure>(
                (views(sections@), end as int),
            ) && i <= end <= s.len(),
            Err(f) => spec_sections(s@, i as int) == Err::<(Seq<SectionView>, int), _>(f@)
                && f.offset <= s.len(),
        },
{
    let mut sections: Vec<Section> = Vec::new();
    let mut pos: usize = i;
    proof {
        assert(views(sections@) =~= Seq::<SectionView>::empty());
        if let Ok((more, end)) = spec_sections(s@, i as int) {
            assert(Seq::<SectionView>::empty() + more =~= more);
        }
    }
    loop
        invariant
            i <= pos <= s.len(),
            spec_sections(s@, i as int) == prepend(
                views(sections@),
                spec_sections(s@, pos as int),
            ),
        decreases s.len() - pos,
    {
        let a = match expect_at(s, pos, '(') {
            Err(_) => {
                proof {
                    lemma_prepend_end(views(sections@), pos as int);
                }
                return Ok((sections, pos));
            },
            Ok(a) => a,
        };
        let (section, e) = match section_at(s, a) {
            Err(f) => {
                return Err(f);
            },
            Ok(found) => found,
        };
        match expect_at(s, e, ')') {
            Err(f) => {
                return Err(f);
            },
            Ok(end) => {
                proof {
                    lemma_prepend_push(
                        views(sections@),
                        section@,
                        spec_sections(s@, end as int),
                    );
                    lemma_views_push(sections@, section);
                }
                sections.push(section);
                pos = end;
            },
        }
    }
}

/// What one more section adds to the sections of a kind.
proof fn lemma_of_kind_push(done: Seq<SectionView>, x: SectionView, kind: SectionKind)
    ensures
        of_kind(done.push(x), kind) == if x.kind() == kind {
            of_kind(done, kind).push(x)
        } else {
            of_kind(done, kind)
        },
{
    assert(done.push(x).drop_last() =~= done);
}

/// Puts sections together into a domain, in whatever order they stand.
pub fn assemble(sections: Vec<Section>) -> (r: Option<Domain>)
    ensures
        match r {
            Some(domain) => spec_assemble(views(sections@)) == Some(domain@),
            None => spec_assemble(views(sections@)) is None,
        },
{
    let ghost all = views(sections@);
    let mut name: Option<String> = None;
    let mut requirements: Option<Requirements> = None;
    let mut types: Option<Types> = None;
    let mut constants: Option<Parameters> = None;
    let mut predicates: Option<Predicates> = None;
    let mut actions: Actions = Vec::new();
    let mut repeated = false;
    proof {
        assert(all.take(0) =~= Seq::<SectionView>::empty());
        assert(views(actions@) =~= actions_of(all.take(0)));
    }
    for section in it: sections
        invariant
            views(it.seq()) == all,
            repeated == repeats(all.take(it.index() as int)),
            the(all.take(it.index() as int), SectionKind::Name) == match name {
                Some(n) => Some(SectionView::Name(n@)),
                None => None,
            },
            the(all.take(it.index() as int), SectionKind::Requirements) == match requirements {
                Some(r) => Some(SectionView::Requirements(views(r@))),
                None => None,
            },
            the(all.take(it.index() as int), SectionKind::Types) == match types {
                Some(t) => Some(SectionView::Types(views(t@))),
                None => None,
            },
            the(all.take(it.index() as int), SectionKind::Constants) == match constants {
                Some(c) => Some(SectionView::Constants(views(c@))),
                None => None,
            },
            the(all.take(it.index() as int), SectionKind::Predicates) == match predicates {
                Some(p) => Some(SectionView::Predicates(views(p@))),
                None => None,
            },
            views(actions@) == actions_of(all.take(it.index() as int)),
    {
        let ghost k = it.index() as int;
        let ghost done = all.take(k);
        proof {
            assert(all[k] == section@);
            assert(all.take(k + 1) =~= done.push(section@));
            lemma_of_kind_push(done, section@, SectionKind::Name);
            lemma_of_kind_push(done, section@, SectionKind::Requirements);
            lemma_of_kind_push(done, section@, SectionKind::Types);
            lemma_of_kind_push(done, section@, SectionKind::Constants);
            lemma_of_kind_push(done, section@, SectionKind::Predicates);
            lemma_of_kind_push(done, section@, SectionKind::Action);
        }
        match section {
            Section::Name(n) => {
                if name.is_some() {
                    repeated = true;
                } else {
                    name = Some(n);
                }
            },
            Section::Requirements(r) => {
                if requirements.is_some() {
                    repeated = true;
                } else {
                    requirements = Some(r);
                }
            },
            Section::Types(t) => {
                if types.is_some() {
                    repeated = true;
                } else {
                    types = Some(t);
                }
            },
            Section::Constants(c) => {
                if constants.is_some() {
                    repeated = true;
                } else {
                    constants = Some(c);
                }
            },
            Section::Predicates(p) => {
                if predicates.is_some() {
                    repeated = true;
                } else {
                    predicates = Some(p);
                }
            },
            Section::Action(a) => {
                proof {
                    lemma_views_push(actions@, a);
                    assert(actions_of(done.push(section@)) =~= actions_of(done).push(a@));
                }
                actions.push(a);
            },
        }
    }
    assert(all.take(all.len() as int) =~= all);
    if repeated || actions.len() == 0 {
        return None;
    }
    match (name, predicates) {
        (Some(name), Some(predicates)) => {
            if name.as_str().is_empty() || predicates.len() == 0 {
                None
            } else {
                Some(Domain { name, requirements, types, constants, predicates, actions })
            }
        },
        _ => None,
    }
}

/// Reads `(define <section>*)` at the start of `s`.
fn body_at(s: &[char]) -> (r: Result<(Vec<Section>, usize), Fault>)
    ensures
        match r {
            Ok((sections, end)) => spec_body(s@) == Ok::<_, Failure>(
                (views(sections@), end as int),
            ) && 0 < end <= s.len(),
            Err(f) => spec_body(s@) == Err::<(Seq<SectionView>, int), _>(f@) && f.offset
                <= s.len(),
        },
{
    let a = match expect_at(s, 0, '(') {
        Err(f) => {
            return Err(f);
        },
        Ok(a) => a,
    };
    let b = match word_at(s, a, "define") {
        Err(f) => {
            return Err(f);
        },
        Ok(b) => b,
    };
    let (sections, c) = match sections_at(s, b) {
        Err(f) => {
            return Err(f);
        },
        Ok(found) => found,
    };
    match expect_at(s, c, ')') {
        Err(f) => Err(f),
        Ok(end) => Ok((sections, end)),
    }
}

/// Reads the definition of a domain from a text without comments.
pub fn definition_at(s: &[char]) -> (r: Result<Domain, Fault>)
    ensures
        match r {
            Ok(domain) => spec_definition(s@) == Ok::<_, Failure>(domain@)
                && domain@.well_formed(),
            Err(f) => spec_definition(s@) == Err::<DomainView, _>(f@) && f.offset <= s.len(),
        },
{
    let (sections, end) = match body_at(s) {
        Err(f) => {
            return Err(f);
        },
        Ok(found) => found,
    };
    let domain = match assemble(sections) {
        None => {
            return Err(Fault { kind: ErrorKind::Cardinality, offset: end - 1 });
        },
        Some(domain) => domain,
    };
    let rest = scan(s, end, CharClass::Space);
    if rest < s.len() {
        return Err(Fault { kind: ErrorKind::Completeness, offset: rest });
    }
    Ok(domain)
}

/// Parses the definition of a domain.
///
/// Comments are taken out first. What is left must be `(define ...)` around
/// the sections of the domain, which may stand in any order.
///
/// An error is reported where it lies in `input` itself, comments
/// included: its offset, line, column and character are those of the
/// character of `input` at which the text without comments fails, or of the
/// end of `input` where that text fails at its end. [`lemma_origin`] says
/// how the two offsets belong together.
///
/// [`lemma_origin`]: crate::shared::lemma_origin
pub fn parse_domain(input: &str) -> (r: Result<Domain, SyntaxError>)
    ensures
        match r {
            Ok(domain) => spec_domain(input@) == Ok::<_, Failure>(domain@)
                && domain@.well_formed(),
            Err(e) => spec_domain(input@) matches Err(f) && e.reports(
                input@,
                Failure { kind: f.kind, at: origin(input@, f.at) },
            ),
        },
{
    let clean = remove_comments(input);
    let chars = to_chars(clean.as_str());
    match definition_at(chars.as_slice()) {
        Ok(domain) => Ok(domain),
        Err(f) => {
            let text = to_chars(input);
            let at = origin_at(text.as_slice(), f.offset);
            Err(locate(text.as_slice(), Fault { kind: f.kind, offset: at }))
        },
    }
}

/// A section occurs among the sections of its kind as often as among all
/// sections, and among those of another kind not at all.
proof fn lemma_of_kind_count(sections: Seq<SectionView>, kind: SectionKind, x: SectionView)
    ensures
        of_kind(sections, kind).to_multiset().count(x) == if x.kind() == kind {
            sections.to_multiset().count(x)
        } else {
            0
        },
    decreases sections.len(),
{
    broadcast use vstd::seq_lib::group_to_multiset_ensures;

    if sections.len() == 0 {
        assert(of_kind(sections, kind).to_multiset().count(x) == 0);
        assert(sections.to_multiset().count(x) == 0);
    } else {
        let rest = sections.drop_last();
        let last = sections.last();
        lemma_of_kind_count(rest, kind, x);
        assert(sections =~= rest.push(last));
        assert(sections.to_multiset() =~= rest.to_multiset().insert(last));
        if last.kind() == kind {
            assert(of_kind(sections, kind).to_multiset() =~= of_kind(rest, kind).to_multiset().insert(
                last,
            ));
        }
    }
}

/// Sections that are the same but for their order have, of each kind, the
/// same sections but for their order: as many, and the same one where
/// there is one.
proof fn lemma_of_kind_permuted(a: Seq<SectionView>, b: Seq<SectionView>, kind: SectionKind)
    requires
        a.to_multiset() == b.to_multiset(),
    ensures
        of_kind(a, kind).len() == of_kind(b, kind).len(),
        of_kind(a, kind).len() == 1 ==> of_kind(a, kind) == of_kind(b, kind),
{
    broadcast use vstd::seq_lib::group_to_multiset_ensures;

    let ka = of_kind(a, kind);
    let kb = of_kind(b, kind);
    assert forall|x: SectionView| ka.to_multiset().count(x) == kb.to_multiset().count(x) by {
        lemma_of_kind_count(a, kind, x);
        lemma_of_kind_count(b, kind, x);
    }
    assert(ka.to_multiset() =~= kb.to_multiset());
    assert(ka.len() == ka.to_multiset().len());
    assert(kb.len() == kb.to_multiset().len());
    if ka.len() == 1 {
        assert(ka.contains(ka[0]));
        assert(kb.to_multiset().count(ka[0]) > 0);
        assert(kb.contains(ka[0]));
        assert(ka =~= kb);
    }
}

/// The sections of a definition may stand in any order: two lists of
/// sections that hold the same sections, with the actions in the same order
/// among themselves, define the same domain, or neither defines one.
pub proof fn lemma_section_order_is_free(a: Seq<SectionView>, b: Seq<SectionView>)
    requires
        a.to_multiset() == b.to_multiset(),
        actions_of(a) == actions_of(b),
    ensures
        spec_assemble(a) == spec_assemble(b),
{
    lemma_of_kind_permuted(a, b, SectionKind::Name);
    lemma_of_kind_permuted(a, b, SectionKind::Requirements);
    lemma_of_kind_permuted(a, b, SectionKind::Types);
    lemma_of_kind_permuted(a, b, SectionKind::Constants);
    lemma_of_kind_permuted(a, b, SectionKind::Predicates);
}

/// Two texts whose sections are the same but for their order, with the
/// actions in the same order among themselves, define the same domain, or
/// neither defines one.
pub proof fn lemma_section_order_is_free_in_text(a: Seq<char>, b: Seq<char>)
    requires
        spec_body(a) is Ok,
        spec_body(b) is Ok,
        spec_body(a)->Ok_0.0.to_multiset() == spec_body(b)->Ok_0.0.to_multiset(),
        actions_of(spec_body(a)->Ok_0.0) == actions_of(spec_body(b)->Ok_0.0),
        skip_spaces(a, spec_body(a)->Ok_0.1) >= a.len() <==> skip_spaces(b, spec_body(b)->Ok_0.1)
            >= b.len(),
    ensures
        spec_definition(a) is Ok <==> spec_definition(b) is Ok,
        spec_definition(a) is Ok ==> spec_definition(a) == spec_definition(b),
{
    lemma_section_order_is_free(spec_body(a)->Ok_0.0, spec_body(b)->Ok_0.0);
}

/// An action among the sections is an action of the domain: it stands among
/// their actions, and is the only one of them where no other section is an
/// action.
pub proof fn lemma_action_is_kept(sections: Seq<SectionView>, k: int)
    requires
        0 <= k < sections.len(),
        sections[k] is Action,
    ensures
        actions_of(sections).contains(sections[k]->Action_0),
        of_kind(sections, SectionKind::Action).len() == 1 ==> actions_of(sections)
            == seq![sections[k]->Action_0],
    decreases sections.len(),
{
    let rest = sections.drop_last();
    let last = sections.last();
    let found = of_kind(rest, SectionKind::Action);
    if k == sections.len() - 1 {
        assert(actions_of(sections)[found.len() as int] == last->Action_0);
        if found.len() == 0 {
            assert(actions_of(sections) =~= seq![last->Action_0]);
        }
    } else {
        lemma_action_is_kept(rest, k);
        let j = choose|j: int|
            0 <= j < actions_of(rest).len() && actions_of(rest)[j] == sections[k]->Action_0;
        assert(actions_of(sections)[j] == sections[k]->Action_0);
        if last.kind() != SectionKind::Action {
            assert(actions_of(sections) =~= actions_of(rest));
        }
    }
}

/// Sections define a domain only if its name and its predicates are among
/// them once and an action at least once, and the domain they define is
/// well formed.
pub proof fn lemma_mandatory_sections(sections: Seq<SectionView>)
    ensures
        spec_assemble(sections) is Some ==> {
            &&& of_kind(sections, SectionKind::Name).len() == 1
            &&& of_kind(sections, SectionKind::Predicates).len() == 1
            &&& of_kind(sections, SectionKind::Action).len() >= 1
            &&& spec_assemble(sections)->0.well_formed()
        },
{
}

/// A text that holds no `:predicates` section, or no `:action` section,
/// defines no domain.
pub proof fn lemma_mandatory_sections_in_text(text: Seq<char>)
    ensures
        spec_domain(text) is Ok ==> {
            &&& spec_body(strip_comments(text)) matches Ok((sections, end))
            &&& of_kind(sections, SectionKind::Name).len() == 1
            &&& of_kind(sections, SectionKind::Predicates).len() == 1
            &&& of_kind(sections, SectionKind::Action).len() >= 1
            &&& spec_domain(text)->Ok_0.well_formed()
        },
{
    if let Ok((sections, end)) = spec_body(strip_comments(text)) {
        lemma_mandatory_sections(sections);
    }
}

} // verus!
