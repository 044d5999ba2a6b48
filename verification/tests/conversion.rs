use taxonomy::Collection;
use taxonomy::CollectionEntry;
use taxonomy::Error;
use taxonomy::Field;
use taxonomy::Identifier;
use taxonomy::RawRecord;
use taxonomy::TaxonomyMap;
use taxonomy::Title;
use taxonomy::Warning;

fn entry(name: &str, parent: Option<&str>, title: &str) -> CollectionEntry {
    CollectionEntry {
        class_name: "Category".to_owned(),
        name: Identifier::parse(name).unwrap(),
        parent: parent.map(|p| Identifier::parse(p).unwrap()),
        synonyms: vec![format!("{}-synonym", name)],
        title: Title::parse(title).unwrap().0,
    }
}

#[test]
fn missing_parent_fails_with_the_dangling_name() {
    let c = Collection::from_entries(vec![entry("a", Some("ghost"), "A")]);
    match c.to_map() {
        Err(Error::MissingEntry { name }) => assert_eq!(name, "ghost"),
        other => panic!("expected a missing entry error, got {:?}", other),
    }
}

#[test]
fn self_loop_converts_as_root_with_warning() {
    let c = Collection::from_entries(vec![entry("a", Some("a"), "A")]);
    let (map, warnings) = c.to_map().unwrap();
    let pairs = map.entries();
    assert_eq!(pairs.len(), 1);
    assert_eq!(pairs[0].0.encode(), "a");
    assert_eq!(warnings.len(), 1);
    match &warnings[0] {
        Warning::SelfReferentialParent { name } => assert_eq!(name, "a"),
        other => panic!("expected a self-loop warning, got {:?}", other),
    }
}

#[test]
fn longer_cycle_is_detected_instead_of_diverging() {
    let c = Collection::from_entries(vec![entry("a", Some("b"), "A"), entry("b", Some("a"), "B")]);
    assert!(matches!(c.to_map(), Err(Error::CycleDetected { .. })));
}

#[test]
fn three_level_hierarchy_produces_full_paths() {
    let c = Collection::from_entries(vec![
        entry("x", None, "X"),
        entry("y", Some("x"), "Y"),
        entry("z", Some("y"), "Z"),
    ]);
    let (map, warnings) = c.to_map().unwrap();
    assert!(warnings.is_empty());
    let keys: Vec<String> = map.entries().iter().map(|p| p.0.encode()).collect();
    assert_eq!(keys, vec!["x".to_owned(), "x/y".to_owned(), "x/y/z".to_owned()]);
}

#[test]
fn three_level_hierarchy_round_trips_exactly() {
    let c = Collection::from_entries(vec![
        entry("x", None, "X"),
        entry("y", Some("x"), "Y"),
        entry("z", Some("y"), "Z"),
    ]);
    let (map, _) = c.to_map().unwrap();
    let back = map.into_collection().unwrap();
    assert_eq!(back.len(), 3);
    let names = ["x", "y", "z"];
    let parents = [None, Some("x"), Some("y")];
    let titles = ["X", "Y", "Z"];
    for i in 0..3 {
        let e = &back.entries()[i];
        assert_eq!(e.name.as_str(), names[i]);
        assert_eq!(
            e.parent.as_ref().map(|p| p.as_str().to_owned()),
            parents[i].map(|p| p.to_owned())
        );
        assert_eq!(e.class_name, "Category");
        assert_eq!(e.synonyms, vec![format!("{}-synonym", names[i])]);
        assert_eq!(e.title.as_str(), titles[i]);
    }
}

#[test]
fn full_path_walks_to_the_root() {
    let c = Collection::from_entries(vec![
        entry("x", None, "X"),
        entry("y", Some("x"), "Y"),
        entry("z", Some("y"), "Z"),
    ]);
    let z = entry("z", Some("y"), "Z");
    let (path, warning) = c.full_path(&z).unwrap();
    assert_eq!(path.encode(), "x/y/z");
    assert!(warning.is_none());
}

#[test]
fn lookup_finds_entries_by_name() {
    let c = Collection::from_entries(vec![entry("x", None, "X"), entry("y", Some("x"), "Y")]);
    let x = Identifier::parse("x").unwrap();
    let ghost = Identifier::parse("ghost").unwrap();
    assert_eq!(c.get(&x).unwrap().title.as_str(), "X");
    assert!(c.get(&ghost).is_none());
}

#[test]
fn duplicate_names_keep_the_last_entry() {
    let c = Collection::from_entries(vec![entry("a", None, "First"), entry("a", None, "Second")]);
    assert_eq!(c.len(), 1);
    assert_eq!(c.entries()[0].title.as_str(), "Second");
}

#[test]
fn empty_path_key_fails_the_reverse_conversion() {
    let map = TaxonomyMap::from_pairs(vec![(
        taxonomy::Path::from_segments(Vec::new()),
        taxonomy::MapEntry {
            class_name: "Category".to_owned(),
            synonyms: Vec::new(),
            title: Title::parse("Lost").unwrap().0,
        },
    )]);
    assert!(matches!(map.into_collection(), Err(Error::PathWithoutName)));
}

fn record(name: &str, parent: Option<&str>, title: &str) -> RawRecord {
    RawRecord {
        name: name.to_owned(),
        parent: parent.map(|p| p.to_owned()),
        class_name: "Category".to_owned(),
        synonyms: vec![],
        title: title.to_owned(),
    }
}

#[test]
fn records_read_into_a_collection() {
    let records = vec![record("x", None, "X"), record("y", Some("x"), "Y")];
    let (c, warnings) = Collection::from_records(&records).unwrap();
    assert!(warnings.is_empty());
    assert_eq!(c.len(), 2);
    assert_eq!(c.entries()[1].parent.as_ref().unwrap().as_str(), "x");
}

#[test]
fn record_with_bad_name_reports_the_name_field() {
    let records = vec![record("Bad Name", None, "X")];
    let err = Collection::from_records(&records).unwrap_err();
    assert_eq!(err.record, "Bad Name");
    assert_eq!(err.field, Field::Name);
    assert!(matches!(err.error, Error::IdentifierNotKebabCase { .. }));
}

#[test]
fn record_with_bad_parent_reports_the_parent_field() {
    let records = vec![record("x", Some(""), "X")];
    let err = Collection::from_records(&records).unwrap_err();
    assert_eq!(err.record, "x");
    assert_eq!(err.field, Field::Parent);
    assert!(matches!(err.error, Error::EmptyIdentifier));
}

#[test]
fn record_with_bad_title_reports_the_title_field() {
    let records = vec![record("x", None, "X ")];
    let err = Collection::from_records(&records).unwrap_err();
    assert_eq!(err.record, "x");
    assert_eq!(err.field, Field::Title);
    assert!(matches!(err.error, Error::TitleSurroundingWhitespace { .. }));
}

#[test]
fn record_titles_out_of_title_case_are_warned_in_order() {
    let records = vec![
        record("x", None, "plain x"),
        record("y", Some("x"), "Proper Y"),
        record("z", Some("y"), "plain z"),
    ];
    let (_, warnings) = Collection::from_records(&records).unwrap();
    assert_eq!(warnings.len(), 2);
    match (&warnings[0], &warnings[1]) {
        (
            Warning::TitleNotTitleCase { raw: r0, .. },
            Warning::TitleNotTitleCase { raw: r1, .. },
        ) => {
            assert_eq!(r0, "plain x");
            assert_eq!(r1, "plain z");
        }
        other => panic!("expected two title-case warnings, got {:?}", other),
    }
}

#[test]
fn records_write_back_out_field_for_field() {
    let c = Collection::from_entries(vec![entry("x", None, "X"), entry("y", Some("x"), "Y")]);
    let records = c.to_records();
    assert_eq!(records.len(), 2);
    assert_eq!(records[0].name, "x");
    assert_eq!(records[0].parent, None);
    assert_eq!(records[1].name, "y");
    assert_eq!(records[1].parent, Some("x".to_owned()));
    assert_eq!(records[1].class_name, "Category");
    assert_eq!(records[1].title, "Y");
}

#[test]
fn map_from_pairs_keeps_the_last_of_equal_paths() {
    let path = || taxonomy::Path::parse("a").unwrap();
    let me = |t: &str| taxonomy::MapEntry {
        class_name: "Category".to_owned(),
        synonyms: Vec::new(),
        title: Title::parse(t).unwrap().0,
    };
    let map = TaxonomyMap::from_pairs(vec![(path(), me("First")), (path(), me("Second"))]);
    assert_eq!(map.len(), 1);
    assert_eq!(map.entries()[0].1.title.as_str(), "Second");
}

#[test]
fn ancestral_self_loop_is_warned_and_treated_as_root() {
    let c = Collection::from_entries(vec![entry("a", Some("a"), "A"), entry("b", Some("a"), "B")]);
    let (map, warnings) = c.to_map().unwrap();
    let keys: Vec<String> = map.entries().iter().map(|p| p.0.encode()).collect();
    assert_eq!(keys, vec!["a".to_owned(), "a/b".to_owned()]);
    assert_eq!(warnings.len(), 2);
    for w in &warnings {
        match w {
            Warning::SelfReferentialParent { name } => assert_eq!(name, "a"),
            other => panic!("expected self-loop warnings, got {:?}", other),
        }
    }
}
