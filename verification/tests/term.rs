use spingus::error::ErrorKind;
use spingus::term::{parse_term, Term};

#[test]
fn term_test() {
    assert_eq!(
        Ok((
            "",
            Term {
                name: "name".to_string(),
                parameters: vec![],
            }
        )),
        parse_term("name")
    );
    assert_eq!(
        Ok((
            "",
            Term {
                name: "name".to_string(),
                parameters: vec!["?a".to_string()],
            }
        )),
        parse_term("name ?a")
    );
    assert_eq!(
        Ok((
            "",
            Term {
                name: "name".to_string(),
                parameters: vec!["?a".to_string(), "?b".to_string()],
            }
        )),
        parse_term("name ?a ?b")
    );
    assert_eq!(
        Ok((
            "",
            Term {
                name: "name".to_string(),
                parameters: vec!["a".to_string(), "b".to_string()],
            }
        )),
        parse_term("name a b")
    );
}

#[test]
fn term_stops_at_delimiter() {
    assert_eq!(
        Ok((
            ")",
            Term {
                name: "on".to_string(),
                parameters: vec!["?x".to_string(), "table".to_string()],
            }
        )),
        parse_term("  ON ?x\n\tTable)")
    );
    assert_eq!(
        Ok((
            " )",
            Term {
                name: "on".to_string(),
                parameters: vec!["?x".to_string()],
            }
        )),
        parse_term("on ?x )")
    );
}

#[test]
fn term_without_arguments_takes_white_space() {
    assert_eq!(
        Ok((
            ")",
            Term {
                name: "clear".to_string(),
                parameters: vec![],
            }
        )),
        parse_term("clear )")
    );
    assert_eq!(
        Ok((
            "and",
            Term {
                name: "p".to_string(),
                parameters: vec![],
            }
        )),
        parse_term("p and")
    );
}

#[test]
fn term_ends_before_reserved_token() {
    assert_eq!(
        Ok((
            " and",
            Term {
                name: "p".to_string(),
                parameters: vec!["?a".to_string()],
            }
        )),
        parse_term("p ?a and")
    );
    assert_eq!(
        Ok((
            " = ?b",
            Term {
                name: "p".to_string(),
                parameters: vec!["?a".to_string()],
            }
        )),
        parse_term("p ?a = ?b")
    );
}

#[test]
fn term_needs_a_name() {
    let e = parse_term("  = ?a ?b").unwrap_err();
    assert_eq!(ErrorKind::Lexical, e.kind);
    assert_eq!(2, e.offset);
    let e = parse_term("and").unwrap_err();
    assert_eq!(ErrorKind::Lexical, e.kind);
    assert_eq!(0, e.offset);
}
