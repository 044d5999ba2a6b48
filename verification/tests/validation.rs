use taxonomy::Error;
use taxonomy::Identifier;
use taxonomy::Title;
use taxonomy::Warning;

#[test]
fn identifier_rejects_empty() {
    assert!(matches!(Identifier::parse(""), Err(Error::EmptyIdentifier)));
}

#[test]
fn identifier_rejects_slash() {
    match Identifier::parse("a/b") {
        Err(Error::IdentifierContainsSlash { raw }) => assert_eq!(raw, "a/b"),
        other => panic!("expected a slash error, got {:?}", other),
    }
}

#[test]
fn identifier_rejects_upper_case() {
    match Identifier::parse("UpperCase") {
        Err(Error::IdentifierNotKebabCase { raw }) => assert_eq!(raw, "UpperCase"),
        other => panic!("expected a kebab-case error, got {:?}", other),
    }
}

#[test]
fn identifier_rejects_snake_case() {
    assert!(matches!(
        Identifier::parse("not_kebab"),
        Err(Error::IdentifierNotKebabCase { .. })
    ));
}

#[test]
fn identifier_accepts_kebab_case_and_round_trips() {
    let id = Identifier::parse("kebab-case-ok").unwrap();
    assert_eq!(id.as_str(), "kebab-case-ok");
}

#[test]
fn title_rejects_leading_space() {
    match Title::parse(" Leading Space") {
        Err(Error::TitleSurroundingWhitespace { raw }) => assert_eq!(raw, " Leading Space"),
        other => panic!("expected a whitespace error, got {:?}", other),
    }
}

#[test]
fn title_rejects_trailing_space() {
    assert!(matches!(
        Title::parse("Trailing Space "),
        Err(Error::TitleSurroundingWhitespace { .. })
    ));
}

#[test]
fn title_warns_on_lowercase() {
    let (title, warning) = Title::parse("lowercase title").unwrap();
    assert_eq!(title.as_str(), "lowercase title");
    match warning {
        Some(Warning::TitleNotTitleCase { raw, suggested }) => {
            assert_eq!(raw, "lowercase title");
            assert_eq!(suggested, "Lowercase Title");
        }
        other => panic!("expected a title-case warning, got {:?}", other),
    }
}

#[test]
fn title_accepts_proper_case_without_warning() {
    let (title, warning) = Title::parse("Proper Title").unwrap();
    assert_eq!(title.as_str(), "Proper Title");
    assert!(warning.is_none());
}
