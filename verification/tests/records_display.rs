use docstore::records::{i32_to_string, Comment, MovieSummary};
use docstore::store::Error;
use docstore::value::{Document, Value};

#[test]
fn summary_line_shows_title_cast_and_year() {
    let m = MovieSummary {
        title: "A Star Is Born".to_string(),
        cast: vec!["Judy Garland".to_string(), "James Mason".to_string()],
        year: 1954,
        comments: vec![],
    };
    assert_eq!(m.summary_line(), "A Star Is Born, Judy Garland, 1954");
}

#[test]
fn summary_line_without_cast_uses_placeholder() {
    let m = MovieSummary {
        title: "Metropolis".to_string(),
        cast: vec![],
        year: 1927,
        comments: vec![],
    };
    assert_eq!(m.summary_line(), "Metropolis, - no cast -, 1927");
}

#[test]
fn integers_render_in_decimal() {
    assert_eq!(i32_to_string(0), "0");
    assert_eq!(i32_to_string(7), "7");
    assert_eq!(i32_to_string(1954), "1954");
    assert_eq!(i32_to_string(-42), "-42");
    assert_eq!(i32_to_string(i32::MIN), "-2147483648");
    assert_eq!(i32_to_string(i32::MAX), "2147483647");
}

#[test]
fn comment_reads_its_three_fields() {
    let mut d = Document::new();
    d.set("email", Value::Str("a@b.c".to_string()));
    d.set("name", Value::Str("An Author".to_string()));
    d.set("text", Value::Str("lovely".to_string()));
    let c = Comment::from_document(&d).unwrap();
    assert_eq!(c.email, "a@b.c");
    assert_eq!(c.name, "An Author");
    assert_eq!(c.text, "lovely");
}

#[test]
fn comment_with_missing_or_wrong_field_fails() {
    let mut d = Document::new();
    d.set("email", Value::Str("a@b.c".to_string()));
    d.set("name", Value::Str("An Author".to_string()));
    assert!(matches!(
        Comment::from_document(&d),
        Err(Error::MissingField(_))
    ));
    d.set("text", Value::Int32(5));
    assert!(matches!(
        Comment::from_document(&d),
        Err(Error::TypeMismatch(..))
    ));
}
