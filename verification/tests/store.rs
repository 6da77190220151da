use shelf::common::{Alternatives, Blob, Person, Role};
use shelf::item::Item;
use shelf::series::Series;
use shelf::shelf::ShelfError;
use shelf::Shelf;

fn person(key: &str, name: &str) -> Person {
    Person { key: key.into(), name: Alternatives::new("English", name) }
}

fn item(key: &str, people: &[&str], series: Option<&str>) -> Item {
    Item {
        key: key.into(),
        people: people.iter().map(|p| (Role::Author, p.to_string())).collect(),
        series: series.map(|s| (s.to_string(), None)),
        ..Item::default()
    }
}

fn item_keys(shelf: &Shelf) -> Vec<String> {
    shelf.query_items().iter().map(|r| r.1.key.clone()).collect()
}

#[test]
fn test_shelf_insert_person() {
    let mut shelf = Shelf::new();
    let person = Person {
        key: "person-makoto-shinkai".into(),
        name: Alternatives::new("English", "Makoto Shinkai"),
    };

    assert_eq!(0, shelf.query_people().len());

    assert!(shelf.insert_person(person.clone()));
    assert_eq!(1, shelf.query_people().len());
    assert_eq!(Some(&person), shelf.query_people().first().copied());

    // Overwrite, don't append
    assert!(!shelf.insert_person(person.clone()));
    assert_eq!(1, shelf.query_people().len());
    assert_eq!(Some(&person), shelf.query_people().first().copied());

    // Overwrite with new person
    let person_updated = Person {
        key: "person-makoto-shinkai".into(),
        name: Alternatives::new("English", "The Best Director"),
    };
    assert!(!shelf.insert_person(person_updated.clone()));
    assert_eq!(1, shelf.query_people().len());
    assert_eq!(Some(&person_updated), shelf.query_people().first().copied());

    // Add new person
    let someone_else = Person {
        key: "person-mizu-sahara".into(),
        name: Alternatives::new("English", "The Best Mangaka"),
    };
    assert!(shelf.insert_person(someone_else.clone()));
    assert_eq!(2, shelf.query_people().len());
}

#[test]
fn test_shelf_insert_series() {
    let mut shelf = Shelf::new();
    let series = Series {
        key: "series-the-best".into(),
        name: Alternatives::new("Japanese (Romaji)", "Kara no Kyoukai"),
        people: Vec::new(),
    };

    assert_eq!(0, shelf.query_series().len());

    assert!(shelf.insert_series(series.clone()));
    assert_eq!(1, shelf.query_series().len());
    assert_eq!(Some(&series), shelf.query_series().first().copied());

    // Overwrite, don't append
    assert!(!shelf.insert_series(series.clone()));
    assert_eq!(1, shelf.query_series().len());
    assert_eq!(Some(&series), shelf.query_series().first().copied());

    // Overwrite with new series
    let series_updated = Series {
        key: "series-the-best".into(),
        name: Alternatives::new("English", "Garden of Sinners"),
        people: Vec::new(),
    };
    assert!(!shelf.insert_series(series_updated.clone()));
    assert_eq!(1, shelf.query_series().len());
    assert_eq!(Some(&series_updated), shelf.query_series().first().copied());

    // Add new series
    let someone_else = Series {
        key: "series-the-poppy-war".into(),
        name: Alternatives::new("English", "The Poppy War"),
        people: Vec::new(),
    };
    assert!(shelf.insert_series(someone_else.clone()));
    assert_eq!(2, shelf.query_series().len());
}

#[test]
fn upsert_keeps_the_place_of_the_key() {
    let mut shelf = Shelf::new();
    assert!(shelf.insert_person(person("person-a", "A")));
    assert!(shelf.insert_person(person("person-b", "B")));
    assert!(shelf.insert_person(person("person-c", "C")));
    assert!(!shelf.insert_person(person("person-b", "Second B")));
    let people = shelf.query_people();
    assert_eq!(3, people.len());
    assert_eq!("person-a", people[0].key);
    assert_eq!(&person("person-b", "Second B"), people[1]);
    assert_eq!("person-c", people[2].key);
}

#[test]
fn item_with_unknown_person_is_refused() {
    let mut shelf = Shelf::new();
    assert!(shelf.insert_person(person("person-a", "A")));
    assert!(shelf.insert_item(item("item-x", &["person-a"], None)).is_ok());

    let refused = shelf.insert_item(item("item-y", &["person-b"], None));
    match refused {
        Err(ShelfError::InvalidReference(key)) => assert_eq!("person-b", key),
        other => panic!("unexpected result: {:?}", other),
    }
    assert_eq!(vec!["item-x".to_string()], item_keys(&shelf));
    assert!(!shelf.is_dirty("item-y"));
    assert_eq!(1, shelf.all_items().len());
}

#[test]
fn validation_names_the_first_missing_reference() {
    let mut shelf = Shelf::new();
    assert!(shelf.insert_person(person("person-a", "A")));
    let wanted = item("item-x", &["person-a", "person-c", "person-b"], Some("series-s"));
    match shelf.validate_item(&wanted) {
        Err(ShelfError::InvalidReference(key)) => assert_eq!("person-c", key),
        other => panic!("unexpected result: {:?}", other),
    }
    assert!(shelf.insert_person(person("person-b", "B")));
    assert!(shelf.insert_person(person("person-c", "C")));
    match shelf.validate_item(&wanted) {
        Err(ShelfError::InvalidReference(key)) => assert_eq!("series-s", key),
        other => panic!("unexpected result: {:?}", other),
    }
    assert!(shelf.insert_series(Series {
        key: "series-s".into(),
        name: Alternatives::new("English", "S"),
        people: Vec::new(),
    }));
    assert!(shelf.validate_item(&wanted).is_ok());
    assert_eq!(0, shelf.all_items().len());
    assert!(!shelf.is_dirty("item-x"));
}

#[test]
fn replace_item_keeps_position_or_appends() {
    let mut shelf = Shelf::new();
    assert!(shelf.insert_person(person("person-a", "A")));
    assert!(shelf.insert_item(item("item-1", &[], None)).is_ok());
    assert!(shelf.insert_item(item("item-2", &[], None)).is_ok());
    assert!(shelf.insert_item(item("item-3", &[], None)).is_ok());

    let mut changed = item("item-2", &["person-a"], None);
    changed.rating = Some(9);
    assert!(shelf.replace_item(changed).is_ok());
    assert_eq!(
        vec!["item-1".to_string(), "item-2".to_string(), "item-3".to_string()],
        item_keys(&shelf)
    );
    assert_eq!(Some(9), shelf.all_items()[1].rating);
    assert_eq!(1, shelf.all_items()[1].people.len());

    assert!(shelf.replace_item(item("item-4", &[], None)).is_ok());
    assert_eq!(4, shelf.all_items().len());
    assert_eq!("item-4", shelf.all_items()[3].key);

    let refused = shelf.replace_item(item("item-1", &["person-z"], None));
    assert!(matches!(refused, Err(ShelfError::InvalidReference(ref k)) if k == "person-z"));
    assert_eq!(0, shelf.all_items()[0].people.len());
}

#[test]
fn insert_item_replaces_the_item_with_its_key() {
    let mut shelf = Shelf::new();
    assert!(shelf.insert_item(item("item-1", &[], None)).is_ok());
    assert!(shelf.insert_item(item("item-2", &[], None)).is_ok());
    shelf.clear_all_dirty();
    let mut again = item("item-1", &[], None);
    again.rating = Some(7);
    assert!(shelf.insert_item(again).is_ok());
    assert_eq!(vec!["item-1".to_string(), "item-2".to_string()], item_keys(&shelf));
    assert_eq!(Some(7), shelf.all_items()[0].rating);
    assert!(shelf.is_dirty("item-1"));
    assert!(!shelf.is_dirty("item-2"));
}

#[test]
fn blob_keys_are_checked() {
    let mut shelf = Shelf::new();
    let refused = shelf.insert_blob(Blob::new_with_mime("cover-foo".into(), "image/png".into()));
    assert!(matches!(refused, Err(ShelfError::InvalidKey(ref k)) if k == "cover-foo"));
    assert_eq!(0, shelf.query_blobs().len());
    assert!(!shelf.is_dirty("cover-foo"));
    assert!(shelf.get_blob("cover-foo").is_none());

    assert!(shelf.insert_blob(Blob::new_with_mime("blob-foo".into(), "image/png".into())).is_ok());
    assert!(shelf.insert_blob(Blob::new_with_mime("blob-foo".into(), "image/jpeg".into())).is_ok());
    assert_eq!(1, shelf.query_blobs().len());
    assert_eq!("image/jpeg", shelf.get_blob("blob-foo").unwrap().mime_type);
    assert!(shelf.is_dirty("blob-foo"));
    assert!(shelf
        .insert_blob(Blob::new_with_mime("blob-".into(), "text/plain".into()))
        .is_ok());
    assert!(matches!(
        shelf.insert_blob(Blob::new_with_mime("blob".into(), "text/plain".into())),
        Err(ShelfError::InvalidKey(_))
    ));
}

#[test]
fn dirty_keys_are_tracked() {
    let mut shelf = Shelf::new();
    assert!(!shelf.is_dirty("person-a"));
    shelf.insert_person(person("person-a", "A"));
    shelf.insert_person(person("person-b", "B"));
    shelf.insert_person(person("person-a", "A again"));
    assert!(shelf.is_dirty("person-a"));
    assert!(shelf.is_dirty("person-b"));
    shelf.clear_dirty("person-a");
    assert!(!shelf.is_dirty("person-a"));
    assert!(shelf.is_dirty("person-b"));
    shelf.clear_dirty("person-z");
    assert!(shelf.is_dirty("person-b"));
    shelf.clear_all_dirty();
    assert!(!shelf.is_dirty("person-b"));
    assert_eq!(2, shelf.query_people().len());
    assert!(shelf.has_person("person-a"));
    assert!(!shelf.has_person("person-z"));
    assert!(!shelf.has_series("person-a"));
}

#[test]
fn query_items_hands_out_the_shelf() {
    let mut shelf = Shelf::new();
    assert!(shelf.insert_item(item("item-1", &[], None)).is_ok());
    let refs = shelf.query_items();
    assert_eq!(1, refs.len());
    assert_eq!(1, refs[0].0.all_items().len());
    assert_eq!("item-1", refs[0].1.key);
}

#[test]
fn alternatives_hold_their_default() {
    let name: Alternatives<String> = Alternatives::new("English", "Makoto Shinkai");
    assert_eq!("English", name.default);
    assert_eq!(vec![("English".to_string(), "Makoto Shinkai".to_string())], name.alternatives);
    assert_eq!(Some(&"Makoto Shinkai".to_string()), name.get("English"));
    assert_eq!(None, name.get("Japanese"));
}

#[test]
fn default_item_is_blank() {
    let blank = Item::default();
    assert_eq!("", blank.key);
    assert_eq!(shelf::common::Kind::Manga, blank.kind);
    assert_eq!(Alternatives::new("English", ""), blank.name);
    assert!(blank.people.is_empty());
    assert_eq!(shelf::common::Status::Planned, blank.status);
    assert_eq!(shelf::common::DateBool::False, blank.started);
    assert_eq!(shelf::item::PublicationStatus::Publishing, blank.publication_status);
    assert_eq!(serde_yaml::Value::Null, blank.extra);
    assert!(blank.added.seconds > 1_500_000_000);
    assert!(blank.series.is_none());
}
