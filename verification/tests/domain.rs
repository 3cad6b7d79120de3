use spingus::domain::action::string_expression::StringExpression;
use spingus::domain::action::Action;
use spingus::domain::parameter::Parameter;
use spingus::domain::predicate::Predicate;
use spingus::domain::types::Type;
use spingus::domain::{assemble, parse_domain, Domain, Section};
use spingus::error::{ErrorKind, SyntaxError};
use spingus::term::Term;

#[test]
fn parse_dummy_domain() {
    assert_eq!(
        Ok(Domain {
            name: "name".to_string(),
            requirements: None,
            types: None,
            constants: Some(vec![Parameter::Untyped {
                name: "a".to_owned()
            }]),
            predicates: vec![Predicate {
                name: "predicate".to_string(),
                parameters: vec![Parameter::Untyped {
                    name: "?a".to_string(),
                },]
            },],
            actions: vec![Action {
                name: "action".to_string(),
                parameters: vec![Parameter::Untyped {
                    name: "?a".to_string(),
                }],
                precondition: None,
                effect: StringExpression::And(vec![StringExpression::Predicate(Term {
                    name: "predicate".to_string(),
                    parameters: vec!["?a".to_string()]
                }),])
            }]
        }),
        parse_domain(
            "(define (domain name)
                     (:constants a)
                     (:predicates
                         (predicate ?a)
                     )
                    

                    (:action action
                        :parameters (?a)
                        :effect (and
                            (predicate ?a)
                        )
                    )
                )",
        )
    );
}

#[test]
fn parse_dummy_domain_2() {
    assert_eq!(
        Ok(Domain {
            name: "name".to_string(),
            requirements: None,
            types: Some(vec![Type {
                name: "object".to_owned(),
                sub_types: vec!["type1".to_owned()]
            }]),
            constants: Some(vec![Parameter::Typed {
                name: "kitchen".to_owned(),
                type_of: "place".to_owned()
            }]),
            predicates: vec![Predicate {
                name: "predicate".to_string(),
                parameters: vec![Parameter::Typed {
                    name: "?a".to_string(),
                    type_of: "type1".to_owned()
                },]
            },],
            actions: vec![Action {
                name: "action".to_string(),
                parameters: vec![Parameter::Typed {
                    name: "?a".to_string(),
                    type_of: "type1".to_owned()
                }],
                precondition: None,
                effect: StringExpression::And(vec![StringExpression::Predicate(Term {
                    name: "predicate".to_string(),
                    parameters: vec!["?a".to_string()]
                }),])
            }]
        }),
        parse_domain(
            "(define (domain name)
                     (:types
                        type1 - object
                     )
                     (:predicates
                         (predicate ?a - type1)
                     )
                     (:constants kitchen - place)
                    

                    (:action action
                        :parameters (?a - type1)
                        :effect (and
                            (predicate ?a)
                        )
                    )
                )",
        )
    );
}

#[test]
fn parse_dummy_domain_3() {
    assert_eq!(
        Ok(Domain {
            name: "name".to_string(),
            requirements: Some(vec!["strips".to_string(), "typing".to_string()]),
            types: Some(vec![
                Type {
                    name: "object".to_string(),
                    sub_types: vec!["type1".to_string(), "type2".to_string()]
                },
                Type {
                    name: "type1".to_string(),
                    sub_types: vec!["subtype1".to_string()]
                },
            ]),
            constants: None,
            predicates: vec![
                Predicate {
                    name: "predicate1".to_string(),
                    parameters: vec![Parameter::Typed {
                        name: "?a".to_string(),
                        type_of: "type1".to_string()
                    },]
                },
                Predicate {
                    name: "predicate2".to_string(),
                    parameters: vec![Parameter::Untyped {
                        name: "?a".to_string(),
                    },]
                }
            ],
            actions: vec![Action {
                name: "action1".to_string(),
                parameters: vec![Parameter::Typed {
                    name: "?a".to_string(),
                    type_of: "type1".to_string()
                }],
                precondition: Some(StringExpression::And(vec![
                    StringExpression::Predicate(Term {
                        name: "predicate1".to_string(),
                        parameters: vec!["?a".to_string()]
                    }),
                    StringExpression::Not(Box::new(StringExpression::Predicate(Term {
                        name: "predicate2".to_string(),
                        parameters: vec!["?a".to_string()]
                    })))
                ])),
                effect: StringExpression::And(vec![
                    StringExpression::Predicate(Term {
                        name: "predicate1".to_string(),
                        parameters: vec!["?a".to_string()]
                    }),
                    StringExpression::Predicate(Term {
                        name: "predicate2".to_string(),
                        parameters: vec!["?a".to_string()]
                    })
                ])
            }]
        }),
        parse_domain(
            "(define (domain name)
                     (:requirements :strips :typing)
                     (:types
                        type1 type2 - object
                        subtype1 - type1
                     )
                     (:predicates
                         (predicate1 ?a - type1)
                         (predicate2 ?a)
                     )

                    (:action action1
                        :parameters (?a - type1)
                        :precondition (and
                            (predicate1 ?a)
                            (not (predicate2 ?a))
                        )
                        :effect (and
                            (predicate1 ?a)
                            (predicate2 ?a)
                        )
                    )
             )",
        )
    );
}

fn small_domain() -> Domain {
    Domain {
        name: "d".to_string(),
        requirements: None,
        types: None,
        constants: None,
        predicates: vec![Predicate {
            name: "p".to_string(),
            parameters: vec![Parameter::Untyped { name: "?a".to_string() }],
        }],
        actions: vec![Action {
            name: "act".to_string(),
            parameters: vec![Parameter::Untyped { name: "?a".to_string() }],
            precondition: None,
            effect: StringExpression::And(vec![StringExpression::Predicate(Term {
                name: "p".to_string(),
                parameters: vec!["?a".to_string()],
            })]),
        }],
    }
}

#[test]
fn end_to_end() {
    assert_eq!(
        Ok(small_domain()),
        parse_domain(
            "(define (domain d)\n  (:predicates (p ?a))\n  (:action act :parameters (?a) :effect (and (p ?a))))"
        )
    );
}

#[test]
fn identifiers_in_capitals_give_the_same_tree() {
    assert_eq!(
        Ok(small_domain()),
        parse_domain(
            "(define (domain D)\n  (:predicates (P ?A))\n  (:action ACT :parameters (?A) :effect (AND (P ?A))))"
        )
    );
}

#[test]
fn comments_are_ignored() {
    assert_eq!(
        Ok(small_domain()),
        parse_domain(
            "; a domain\n(define (domain d) ; its name\n  (:predicates (p ?a)) ;)\n  (:action act :parameters (?a) :effect (and (p ?a))))\n; end"
        )
    );
}

const NAME: &str = "(domain d)";
const REQUIREMENTS: &str = "(:requirements :strips)";
const TYPES: &str = "(:types t - object)";
const CONSTANTS: &str = "(:constants c - t)";
const PREDICATES: &str = "(:predicates (p ?a - t))";
const ACTION_1: &str = "(:action one :parameters (?a - t) :precondition (p ?a) :effect (not (p ?a)))";
const ACTION_2: &str = "(:action two :parameters () :effect (p c))";

fn definition(sections: &[&str]) -> String {
    let mut text = "(define".to_string();
    for section in sections {
        text.push(' ');
        text.push_str(section);
    }
    text.push(')');
    text
}

#[test]
fn section_order_is_free() {
    let reference = parse_domain(&definition(&[
        NAME,
        REQUIREMENTS,
        TYPES,
        CONSTANTS,
        PREDICATES,
        ACTION_1,
        ACTION_2,
    ]));
    let domain = reference.as_ref().unwrap();
    assert_eq!("d", domain.name);
    assert_eq!(Some(vec!["strips".to_string()]), domain.requirements);
    assert_eq!(2, domain.actions.len());
    assert_eq!("one", domain.actions[0].name);
    let orders: [[&str; 7]; 4] = [
        [ACTION_1, PREDICATES, CONSTANTS, TYPES, REQUIREMENTS, NAME, ACTION_2],
        [PREDICATES, TYPES, ACTION_1, NAME, ACTION_2, CONSTANTS, REQUIREMENTS],
        [CONSTANTS, ACTION_1, ACTION_2, REQUIREMENTS, PREDICATES, NAME, TYPES],
        [TYPES, NAME, ACTION_1, REQUIREMENTS, CONSTANTS, ACTION_2, PREDICATES],
    ];
    for order in orders.iter() {
        assert_eq!(reference, parse_domain(&definition(order)));
    }
}

#[test]
fn actions_keep_their_order() {
    let a = parse_domain(&definition(&[NAME, PREDICATES, ACTION_1, ACTION_2])).unwrap();
    let b = parse_domain(&definition(&[NAME, PREDICATES, ACTION_2, ACTION_1])).unwrap();
    assert_eq!("one", a.actions[0].name);
    assert_eq!("two", b.actions[0].name);
    assert_ne!(a, b);
}

fn cardinality(text: &str) {
    let e = parse_domain(text).unwrap_err();
    assert_eq!(ErrorKind::Cardinality, e.kind);
    assert_eq!(text.chars().count() - 1, e.offset);
}

#[test]
fn mandatory_sections_are_required() {
    cardinality(&definition(&[NAME, ACTION_1]));
    cardinality(&definition(&[NAME, PREDICATES]));
    cardinality(&definition(&[PREDICATES, ACTION_1]));
    cardinality(&definition(&[NAME, REQUIREMENTS, TYPES, CONSTANTS, ACTION_1, ACTION_2]));
    cardinality(&definition(&[]));
}

#[test]
fn single_sections_may_not_repeat() {
    cardinality(&definition(&[NAME, NAME, PREDICATES, ACTION_1]));
    cardinality(&definition(&[NAME, PREDICATES, ACTION_1, PREDICATES]));
    cardinality(&definition(&[NAME, TYPES, PREDICATES, TYPES, ACTION_1]));
    cardinality(&definition(&[REQUIREMENTS, NAME, PREDICATES, ACTION_1, REQUIREMENTS]));
    cardinality(&definition(&[CONSTANTS, CONSTANTS, NAME, PREDICATES, ACTION_1]));
}

#[test]
fn empty_predicates_section_is_rejected() {
    let e = parse_domain("(define (domain d) (:predicates) (:action a :parameters () :effect (p)))")
        .unwrap_err();
    assert_eq!(ErrorKind::Cardinality, e.kind);
    assert_eq!(31, e.offset);
}

#[test]
fn errors_carry_their_position() {
    assert_eq!(
        Err(SyntaxError { kind: ErrorKind::Structure, offset: 0, line: 0, column: 0, found: None }),
        parse_domain("")
    );
    assert_eq!(
        Err(SyntaxError {
            kind: ErrorKind::Structure,
            offset: 1,
            line: 0,
            column: 1,
            found: Some('d')
        }),
        parse_domain("(defined (domain d))")
    );
    assert_eq!(
        Err(SyntaxError {
            kind: ErrorKind::Structure,
            offset: 24,
            line: 2,
            column: 3,
            found: Some(':')
        }),
        parse_domain("(define\n  (domain d)\n  (:unknown))")
    );
    assert_eq!(
        Err(SyntaxError {
            kind: ErrorKind::Lexical,
            offset: 16,
            line: 0,
            column: 16,
            found: Some('a')
        }),
        parse_domain("(define (domain and))")
    );
    assert_eq!(
        Err(SyntaxError {
            kind: ErrorKind::Lexical,
            offset: 15,
            line: 0,
            column: 15,
            found: Some(')')
        }),
        parse_domain("(define (domain))")
    );
    let text = definition(&[NAME, PREDICATES, ACTION_1]) + "\n\n (";
    assert_eq!(
        Err(SyntaxError {
            kind: ErrorKind::Completeness,
            offset: text.chars().count() - 1,
            line: 2,
            column: 1,
            found: Some('(')
        }),
        parse_domain(&text)
    );
    assert_eq!(
        Err(SyntaxError {
            kind: ErrorKind::Structure,
            offset: 18,
            line: 0,
            column: 18,
            found: None
        }),
        parse_domain("(define (domain d)")
    );
}

#[test]
fn position_is_that_of_the_text_with_its_comments() {
    let text = "(define ; one\n  (domain d) ; two\n  (:nothing))";
    assert_eq!(
        Err(SyntaxError {
            kind: ErrorKind::Structure,
            offset: 36,
            line: 2,
            column: 3,
            found: Some(':')
        }),
        parse_domain(text)
    );
    assert_eq!(Some(':'), text.chars().nth(36));
    assert_eq!(
        Err(SyntaxError {
            kind: ErrorKind::Lexical,
            offset: 20,
            line: 1,
            column: 8,
            found: Some('a')
        }),
        parse_domain("(define ; (\n(domain and) ; and")
    );
    assert_eq!(
        Err(SyntaxError {
            kind: ErrorKind::Structure,
            offset: 17,
            line: 0,
            column: 17,
            found: None
        }),
        parse_domain("(define ; no more")
    );
}

#[test]
fn messages_name_the_kind() {
    let e = parse_domain("(define (domain and))").unwrap_err();
    assert_eq!("expected an identifier, found `a`", e.message());
    let e = parse_domain("(define").unwrap_err();
    assert_eq!("expected a parenthesis or keyword, found the end of the text", e.message());
    let e = parse_domain("(define)").unwrap_err();
    assert_eq!("expected each section once and no empty list, found `)`", e.message());
    let e = parse_domain(&(definition(&[NAME, PREDICATES, ACTION_2]) + " x")).unwrap_err();
    assert_eq!("expected the end of the text, found `x`", e.message());
}

#[test]
fn assemble_takes_sections_in_any_order() {
    let predicates = || {
        Section::Predicates(vec![Predicate { name: "p".to_string(), parameters: vec![] }])
    };
    let action = |name: &str| {
        Section::Action(Action {
            name: name.to_string(),
            parameters: vec![],
            precondition: None,
            effect: StringExpression::And(vec![]),
        })
    };
    let name = || Section::Name("d".to_string());
    let types = || Section::Types(vec![]);
    let a = assemble(vec![name(), types(), predicates(), action("x"), action("y")]).unwrap();
    let b = assemble(vec![action("x"), predicates(), action("y"), types(), name()]).unwrap();
    assert_eq!(a, b);
    assert_eq!(Some(vec![]), a.types);
    assert_eq!(None, a.constants);
    assert_eq!("y", a.actions[1].name);
    assert_eq!(None, assemble(vec![name(), predicates()]));
    assert_eq!(None, assemble(vec![name(), action("x")]));
    assert_eq!(None, assemble(vec![predicates(), action("x")]));
    assert_eq!(None, assemble(vec![name(), name(), predicates(), action("x")]));
    assert_eq!(
        None,
        assemble(vec![Section::Name(String::new()), predicates(), action("x")])
    );
    assert_eq!(
        None,
        assemble(vec![name(), Section::Predicates(vec![]), action("x")])
    );
}

#[test]
fn clones_are_equal() {
    let domain = parse_domain(&definition(&[
        NAME,
        REQUIREMENTS,
        TYPES,
        CONSTANTS,
        PREDICATES,
        ACTION_1,
        ACTION_2,
    ]))
    .unwrap();
    let copy = domain.clone();
    assert_eq!(domain, copy);
    assert_eq!(domain.actions[0].clone(), copy.actions[0]);
    assert_eq!(domain.predicates[0].clone(), copy.predicates[0]);
    assert_eq!(domain.types.clone(), copy.types);
}

#[test]
fn white_space_is_free() {
    assert_eq!(
        Ok(small_domain()),
        parse_domain(
            " \t\r\n(\ndefine(domain\td)(:predicates(p ?a))(:action act:parameters(?a):effect(and(p ?a)))) \n"
        )
    );
}

#[test]
fn identifiers_beyond_ascii_are_lowercased() {
    let domain = parse_domain(
        "(define (domain ÉCOLE) (:predicates (P)) (:action A :parameters () :effect (P)))",
    )
    .unwrap();
    assert_eq!("école", domain.name);
}
