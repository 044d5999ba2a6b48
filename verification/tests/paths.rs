use taxonomy::Error;
use taxonomy::Identifier;
use taxonomy::Path;

#[test]
fn path_decomposes_name_and_parent() {
    let p = Path::parse("root/child/grand-child").unwrap();
    assert_eq!(p.name().unwrap().as_str(), "grand-child");
    assert_eq!(p.parent().unwrap().as_str(), "child");
    assert_eq!(p.len(), 3);
}

#[test]
fn single_segment_path_has_no_parent() {
    let p = Path::parse("root").unwrap();
    assert_eq!(p.name().unwrap().as_str(), "root");
    assert!(p.parent().is_none());
}

#[test]
fn path_encodes_back_to_its_text() {
    let p = Path::parse("root/child/grand-child").unwrap();
    assert_eq!(p.encode(), "root/child/grand-child");
}

#[test]
fn path_rejects_empty_text() {
    assert!(matches!(Path::parse(""), Err(Error::EmptyIdentifier)));
}

#[test]
fn path_rejects_empty_segment() {
    assert!(matches!(Path::parse("a//b"), Err(Error::EmptyIdentifier)));
}

#[test]
fn path_reports_first_invalid_segment() {
    match Path::parse("good/Bad/also_bad") {
        Err(Error::IdentifierNotKebabCase { raw }) => assert_eq!(raw, "Bad"),
        other => panic!("expected a kebab-case error, got {:?}", other),
    }
}

#[test]
fn path_builds_from_segments() {
    let segs = vec![
        Identifier::parse("root").unwrap(),
        Identifier::parse("child").unwrap(),
    ];
    let p = Path::from_segments(segs);
    assert_eq!(p.encode(), "root/child");
    assert_eq!(p.name().unwrap().as_str(), "child");
    assert_eq!(p.parent().unwrap().as_str(), "root");
}

#[test]
fn empty_path_has_no_name() {
    let p = Path::from_segments(Vec::new());
    assert!(p.name().is_none());
    assert!(p.parent().is_none());
    assert_eq!(p.encode(), "");
}
