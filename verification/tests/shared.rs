use spingus::error::{ErrorKind, SyntaxError};
use spingus::shared::{line_num, named, origin_at, remove_comments};

#[test]
fn remove_comments_test() {
    assert_eq!("", remove_comments(""));
    assert_eq!("abc", remove_comments("abc"));
    assert_eq!("", remove_comments(";"));
    assert_eq!("", remove_comments(";abc"));
    assert_eq!("\n", remove_comments(";abc\n"));
    assert_eq!("\n123", remove_comments(";abc\n123"));
    assert_eq!("0\n123", remove_comments("0;abc\n123"));
}

#[test]
fn comment_ends_at_line_feed() {
    assert_eq!("a\nc", remove_comments("a;b\nc"));
    assert_eq!("a\n\nd", remove_comments("a;b;c\n;\nd"));
    assert_eq!("a\r\nb", remove_comments("a\r\nb"));
}

#[test]
fn comment_keeps_line_count() {
    let text = "x ; one\ny ; two\nz";
    let clean = remove_comments(text);
    assert_eq!("x \ny \nz", clean);
    assert_eq!(line_num(text, 16), line_num(&clean, 6));
}

#[test]
fn line_num_counts_line_feeds() {
    assert_eq!(0, line_num("", 0));
    assert_eq!(0, line_num("ab\ncd", 0));
    assert_eq!(0, line_num("ab\ncd", 2));
    assert_eq!(1, line_num("ab\ncd", 3));
    assert_eq!(1, line_num("ab\ncd", 4));
    assert_eq!(1, line_num("ab\ncd", 5));
    assert_eq!(1, line_num("ab\ncd", 500));
    assert_eq!(3, line_num("\n\n\n", 3));
}

#[test]
fn named_folds_case() {
    assert_eq!(Ok(("", "truck".to_string())), named("truck"));
    assert_eq!(Ok(("", "truck".to_string())), named("TRUCK"));
    assert_eq!(Ok((" b", "?a".to_string())), named("?A b"));
    assert_eq!(Ok(("(x)", "at-place_2".to_string())), named("At-Place_2(x)"));
    assert_eq!(Ok((":k", "a".to_string())), named("a:k"));
}

#[test]
fn named_folds_beyond_ascii() {
    assert_eq!(Ok((" x", "école".to_string())), named("ÉCOLE x"));
    assert_eq!(Ok(("", "straße".to_string())), named("Straße"));
}

#[test]
fn named_rejects_reserved_tokens() {
    let lexical = |found: Option<char>| {
        Err(SyntaxError { kind: ErrorKind::Lexical, offset: 0, line: 0, column: 0, found })
    };
    assert_eq!(lexical(Some('a')), named("and"));
    assert_eq!(lexical(Some('A')), named("AND"));
    assert_eq!(lexical(Some('a')), named("aNd x"));
    assert_eq!(lexical(Some('-')), named("-"));
    assert_eq!(lexical(Some('-')), named("- t"));
    assert_eq!(lexical(Some('=')), named("="));
    assert_eq!(lexical(None), named(""));
    assert_eq!(lexical(Some(' ')), named(" a"));
    assert_eq!(lexical(Some('(')), named("(a)"));
}

#[test]
fn named_accepts_what_only_starts_like_a_reserved_token() {
    assert_eq!(Ok(("", "android".to_string())), named("android"));
    assert_eq!(Ok(("", "-x".to_string())), named("-x"));
    assert_eq!(Ok(("", "=>".to_string())), named("=>"));
    assert_eq!(Ok(("", "not".to_string())), named("not"));
}

#[test]
fn line_num_counts_bytes() {
    assert_eq!(0, line_num("é\nb", 1));
    assert_eq!(0, line_num("é\nb", 2));
    assert_eq!(1, line_num("é\nb", 3));
    assert_eq!(0, line_num("éé\nb", 4));
    assert_eq!(1, line_num("éé\nb", 5));
    assert_eq!(0, line_num("é\n", 2));
}

#[test]
fn origin_finds_the_character_in_the_text_with_comments() {
    let text: Vec<char> = "ab ; c\nd;e".chars().collect();
    assert_eq!("ab \nd", remove_comments("ab ; c\nd;e"));
    assert_eq!(0, origin_at(&text, 0));
    assert_eq!(2, origin_at(&text, 2));
    assert_eq!(6, origin_at(&text, 3));
    assert_eq!(7, origin_at(&text, 4));
    assert_eq!(10, origin_at(&text, 5));
    assert_eq!(10, origin_at(&text, 50));
}
