use spingus::domain::constants::parse_constants;
use spingus::domain::name::parse_name;
use spingus::domain::parameter::{parse_parameters, Parameter};
use spingus::domain::predicate::{parse_predicates, Predicate};
use spingus::domain::types::{parse_types, Type};
use spingus::error::ErrorKind;

fn typed(name: &str, type_of: &str) -> Parameter {
    Parameter::Typed { name: name.to_string(), type_of: type_of.to_string() }
}

fn untyped(name: &str) -> Parameter {
    Parameter::Untyped { name: name.to_string() }
}

#[test]
fn typed_list_grouping() {
    assert_eq!(
        Ok(("", vec![typed("n1", "t1"), typed("n2", "t1"), untyped("n3")])),
        parse_parameters("n1 n2 - T1 n3")
    );
    assert_eq!(
        Ok(("", vec![untyped("n1"), untyped("n2")])),
        parse_parameters("n1 n2")
    );
}

#[test]
fn typed_list_with_several_batches() {
    assert_eq!(
        Ok((
            ")",
            vec![
                typed("n1", "t1"),
                typed("n2", "t1"),
                typed("n3", "t2"),
                untyped("n4"),
                untyped("n5")
            ]
        )),
        parse_parameters(" n1 n2 - T1\n n3 - T2 n4 n5)")
    );
    assert_eq!(Ok(("", vec![])), parse_parameters(""));
    assert_eq!(Ok((" )", vec![])), parse_parameters(" )"));
    assert_eq!(Ok(("", vec![typed("?x", "-t")])), parse_parameters("?x - -t"));
}

#[test]
fn typed_list_broken_off() {
    let e = parse_parameters("n1 n2 -").unwrap_err();
    assert_eq!(ErrorKind::Structure, e.kind);
    assert_eq!(7, e.offset);
    let e = parse_parameters("n1 - )").unwrap_err();
    assert_eq!(ErrorKind::Structure, e.kind);
    assert_eq!(5, e.offset);
    let e = parse_parameters("n1 - and").unwrap_err();
    assert_eq!(ErrorKind::Structure, e.kind);
    assert_eq!(5, e.offset);
    let e = parse_parameters("- t").unwrap_err();
    assert_eq!(ErrorKind::Structure, e.kind);
    assert_eq!(0, e.offset);
    let e = parse_parameters("n1 - t - u").unwrap_err();
    assert_eq!(ErrorKind::Structure, e.kind);
    assert_eq!(7, e.offset);
}

#[test]
fn typed_list_ends_before_reserved_token() {
    assert_eq!(Ok((" = n2", vec![untyped("n1")])), parse_parameters("n1 = n2"));
    assert_eq!(Ok(("and", vec![])), parse_parameters("and"));
}

#[test]
fn types_point_from_supertype_to_subtypes() {
    assert_eq!(
        Ok((
            ")",
            vec![
                Type {
                    name: "object".to_string(),
                    sub_types: vec!["truck".to_string(), "place".to_string()]
                },
                Type { name: "place".to_string(), sub_types: vec!["depot".to_string()] },
            ]
        )),
        parse_types(":types truck place - object depot - Place)")
    );
    assert_eq!(Ok(("", vec![])), parse_types(":types"));
}

#[test]
fn types_need_a_supertype() {
    let e = parse_types(":types truck place").unwrap_err();
    assert_eq!(ErrorKind::Structure, e.kind);
    assert_eq!(18, e.offset);
    let e = parse_types(":type truck - object").unwrap_err();
    assert_eq!(ErrorKind::Structure, e.kind);
    assert_eq!(0, e.offset);
}

#[test]
fn constants_are_a_typed_list() {
    assert_eq!(
        Ok((")", vec![typed("kitchen", "place"), untyped("home")])),
        parse_constants(":constants kitchen - place home)")
    );
}

#[test]
fn predicates_are_signatures() {
    assert_eq!(
        Ok((
            ")",
            vec![
                Predicate {
                    name: "at".to_string(),
                    parameters: vec![typed("?t", "truck"), typed("?p", "place")]
                },
                Predicate { name: "raining".to_string(), parameters: vec![] },
            ]
        )),
        parse_predicates(":predicates (at ?t - truck ?p - place)\n (raining))")
    );
    let e = parse_predicates(":predicates )").unwrap_err();
    assert_eq!(ErrorKind::Cardinality, e.kind);
    assert_eq!(11, e.offset);
    let e = parse_predicates(":predicates (at ?t").unwrap_err();
    assert_eq!(ErrorKind::Structure, e.kind);
    assert_eq!(18, e.offset);
}

#[test]
fn name_section() {
    assert_eq!(Ok((")", "logistics".to_string())), parse_name("domain Logistics)"));
    let e = parse_name("domains x").unwrap_err();
    assert_eq!(ErrorKind::Structure, e.kind);
    let e = parse_name("DOMAIN x").unwrap_err();
    assert_eq!(ErrorKind::Structure, e.kind);
    let e = parse_name("domain").unwrap_err();
    assert_eq!(ErrorKind::Lexical, e.kind);
    assert_eq!(6, e.offset);
}
