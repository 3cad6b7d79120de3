use spingus::domain::requirement::parse_requirements;
use spingus::error::{ErrorKind, SyntaxError};

#[test]
fn requirement_test() {
    assert_eq!(
        Err(SyntaxError {
            kind: ErrorKind::Cardinality,
            offset: 13,
            line: 0,
            column: 13,
            found: None
        }),
        parse_requirements(":requirements")
    );
    assert_eq!(
        Ok(("", vec!["a".to_string()])),
        parse_requirements(":requirements :a")
    );
    assert_eq!(
        Ok(("", vec!["a".to_string(), "b".to_string()])),
        parse_requirements(":requirements :a :b")
    );
}

#[test]
fn requirements_keep_order_and_repeats() {
    assert_eq!(
        Ok((
            ")",
            vec!["typing".to_string(), "strips".to_string(), "typing".to_string()]
        )),
        parse_requirements(" :requirements :typing\n :strips   :typing)")
    );
}

#[test]
fn requirements_keep_case() {
    assert_eq!(
        Ok(("", vec!["STRIPS".to_string()])),
        parse_requirements(":requirements :STRIPS")
    );
}

#[test]
fn requirement_needs_letters() {
    let e = parse_requirements(":requirements :strips :").unwrap_err();
    assert_eq!(ErrorKind::Structure, e.kind);
    assert_eq!(23, e.offset);
    let e = parse_requirements(":requirement :strips").unwrap_err();
    assert_eq!(ErrorKind::Structure, e.kind);
    assert_eq!(0, e.offset);
}
