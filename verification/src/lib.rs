//! A parser for planning-domain definitions written in the PDDL style.
//!
//! [`domain::parse_domain`] turns the text of a definition into a
//! [`domain::Domain`]: its name, requirement flags, types, constants,
//! predicates and actions, the actions with their preconditions and effects as
//! logical expressions.
//!
//! The grammar is stated as mathematical functions on sequences of
//! characters, and every executable parser is proved to compute exactly the
//! function that stands beside it. On top of that the crate proves what makes
//! the language pleasant to write: comments end with their line
//! ([`shared`]), identifiers are case-insensitive ([`case`]), sections may
//! stand in any order ([`placement`]), every expression is read back from
//! its written form ([`domain::action::written`]), and an error is reported
//! where it lies in the text that was handed in ([`shared::lemma_origin`]).
pub mod case;
pub mod domain;
pub mod error;
pub mod placement;
pub mod shared;
pub mod syntax;
pub mod term;
pub mod text;
