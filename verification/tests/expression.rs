use spingus::domain::action::string_expression::{parse_expression, StringExpression};
use spingus::domain::action::{parse_action, Action};
use spingus::domain::parameter::Parameter;
use spingus::error::ErrorKind;
use spingus::term::Term;

fn atom(name: &str, parameters: &[&str]) -> StringExpression {
    StringExpression::Predicate(Term {
        name: name.to_string(),
        parameters: parameters.iter().map(|p| p.to_string()).collect(),
    })
}

fn not(e: StringExpression) -> StringExpression {
    StringExpression::Not(Box::new(e))
}

#[test]
fn expression_recursion() {
    assert_eq!(
        Ok((
            "",
            StringExpression::And(vec![atom("p", &["?a"]), not(atom("q", &["?a", "?b"]))])
        )),
        parse_expression("(and (p ?a) (not (q ?a ?b)))")
    );
}

#[test]
fn expression_forms() {
    assert_eq!(Ok(("", atom("p", &[]))), parse_expression("(p)"));
    assert_eq!(Ok((" x", atom("p", &["a"]))), parse_expression(" ( p a ) x"));
    assert_eq!(Ok(("", StringExpression::And(vec![]))), parse_expression("(and)"));
    assert_eq!(Ok(("", StringExpression::And(vec![]))), parse_expression("(AND )"));
    assert_eq!(Ok(("", not(atom("p", &[])))), parse_expression("(Not(p))"));
    assert_eq!(Ok(("", atom("notable", &["x"]))), parse_expression("(notable x)"));
    assert_eq!(Ok(("", atom("andy", &[]))), parse_expression("(andy)"));
}

fn nest(depth: usize) -> (String, StringExpression) {
    let mut text = "(p ?x)".to_string();
    let mut tree = atom("p", &["?x"]);
    for level in 0..depth {
        if level % 2 == 0 {
            text = format!("(not {})", text);
            tree = not(tree);
        } else {
            text = format!("(and {} (q))", text);
            tree = StringExpression::And(vec![tree, atom("q", &[])]);
        }
    }
    (text, tree)
}

#[test]
fn expression_nests_deeply() {
    for depth in [0, 1, 2, 7, 40] {
        let (text, tree) = nest(depth);
        assert_eq!(Ok(("", tree)), parse_expression(&text));
    }
}

#[test]
fn connectives_are_never_atoms() {
    let e = parse_expression("(not)").unwrap_err();
    assert_eq!(ErrorKind::Structure, e.kind);
    assert_eq!(4, e.offset);
    let e = parse_expression("(NOT x)").unwrap_err();
    assert_eq!(ErrorKind::Structure, e.kind);
    assert_eq!(5, e.offset);
    let e = parse_expression("(and x)").unwrap_err();
    assert_eq!(ErrorKind::Structure, e.kind);
    assert_eq!(5, e.offset);
    let e = parse_expression("(not (p) (q))").unwrap_err();
    assert_eq!(ErrorKind::Structure, e.kind);
    assert_eq!(9, e.offset);
}

#[test]
fn expression_errors() {
    let e = parse_expression("p").unwrap_err();
    assert_eq!(ErrorKind::Structure, e.kind);
    assert_eq!(0, e.offset);
    let e = parse_expression("()").unwrap_err();
    assert_eq!(ErrorKind::Lexical, e.kind);
    assert_eq!(1, e.offset);
    let e = parse_expression("(= ?a ?b)").unwrap_err();
    assert_eq!(ErrorKind::Lexical, e.kind);
    assert_eq!(1, e.offset);
    let e = parse_expression("(p ?a and)").unwrap_err();
    assert_eq!(ErrorKind::Structure, e.kind);
    assert_eq!(6, e.offset);
    let e = parse_expression("(p ?a").unwrap_err();
    assert_eq!(ErrorKind::Structure, e.kind);
    assert_eq!(5, e.offset);
    let e = parse_expression("(and (p)\n (q ?a - t))").unwrap_err();
    assert_eq!(ErrorKind::Structure, e.kind);
    assert_eq!(16, e.offset);
    assert_eq!(1, e.line);
    assert_eq!(7, e.column);
}

#[test]
fn action_with_and_without_precondition() {
    assert_eq!(
        Ok((
            ")",
            Action {
                name: "move".to_string(),
                parameters: vec![
                    Parameter::Typed { name: "?from".to_string(), type_of: "place".to_string() },
                    Parameter::Typed { name: "?to".to_string(), type_of: "place".to_string() },
                ],
                precondition: Some(atom("at", &["?from"])),
                effect: StringExpression::And(vec![
                    atom("at", &["?to"]),
                    not(atom("at", &["?from"]))
                ]),
            }
        )),
        parse_action(
            ":action Move\n :parameters (?from ?to - place)\n :precondition (at ?from)\n :effect (and (at ?to) (not (at ?from))))"
        )
    );
    assert_eq!(
        Ok((
            "",
            Action {
                name: "wait".to_string(),
                parameters: vec![],
                precondition: None,
                effect: StringExpression::And(vec![]),
            }
        )),
        parse_action(":action wait :parameters () :effect (and)")
    );
}

#[test]
fn action_clauses_have_a_fixed_order() {
    let e = parse_action(":action a :parameters () :effect (p) :precondition (q)");
    assert_eq!(Ok((" :precondition (q)", "a".to_string())), e.map(|(rest, a)| (rest, a.name)));
    let e = parse_action(":action a :effect (p) :parameters ()").unwrap_err();
    assert_eq!(ErrorKind::Structure, e.kind);
    assert_eq!(10, e.offset);
    let e = parse_action(":action a :parameters () :precondition (q)").unwrap_err();
    assert_eq!(ErrorKind::Structure, e.kind);
    assert_eq!(42, e.offset);
    let e = parse_action(":action a :parameters ?x :effect (p)").unwrap_err();
    assert_eq!(ErrorKind::Structure, e.kind);
    assert_eq!(22, e.offset);
}
