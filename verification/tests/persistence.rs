use shelf::common::{Alternatives, Blob, Person, Role};
use shelf::item::Item;
use shelf::save::{
    blob_file, compose_message, file_kind, index_path, record_file, sorted_blobs,
    unreadable_ends_load, DirectoryShelf, RecordKind, SaveError,
};
use shelf::series::Series;
use shelf::Shelf;

fn saver() -> DirectoryShelf {
    DirectoryShelf::new("/srv/shelf", true, true, Ok("/srv/shelf".to_owned()))
        .expect("Could not make temp shelf")
}

fn person(key: &str) -> Person {
    Person { key: key.into(), name: Alternatives::new("English", key) }
}

fn series(key: &str) -> Series {
    Series { key: key.into(), name: Alternatives::new("English", key), people: Vec::new() }
}

fn item(key: &str, people: &[&str], series: Option<&str>) -> Item {
    Item {
        key: key.into(),
        people: people.iter().map(|p| (Role::Author, p.to_string())).collect(),
        series: series.map(|s| (s.to_string(), None)),
        ..Item::default()
    }
}

fn blob(key: &str) -> Blob {
    Blob::new_with_mime(key.to_owned(), "text/plain".to_owned())
}

fn strings(list: &[&str]) -> Vec<String> {
    list.iter().map(|s| s.to_string()).collect()
}

/// Plans a save and takes note of it, as a caller does once the plan is
/// carried out.
fn save(saver: &DirectoryShelf, shelf: &mut Shelf, present: &[&str]) -> Result<usize, SaveError> {
    let plan = saver.save(shelf, &strings(present));
    saver.saved(shelf, &plan)
}

#[test]
fn insert_blob() {
    let saver = saver();
    let blob = saver.insert_blob("blob-cover-foo").expect("Could not insert blob");
    assert!(blob.ends_with("blobs/blob-cover-foo"));

    let mut shelf = Shelf::new();
    assert!(save(&saver, &mut shelf, &[]).is_ok());
    shelf
        .insert_blob(Blob::new_with_mime("blob-cover-foo".to_owned(), "text/plain".to_owned()))
        .unwrap();
    assert!(save(&saver, &mut shelf, &[]).is_err());
    assert!(save(&saver, &mut shelf, &["blob-cover-foo"]).is_ok());
}

#[test]
fn roundtrip_blob() {
    let saver = saver();
    let blob = saver.insert_blob("blob-cover-foo").expect("Could not insert blob");
    assert!(blob.ends_with("blobs/blob-cover-foo"));

    let mut shelf = Shelf::new();
    assert!(save(&saver, &mut shelf, &["blob-cover-foo"]).is_ok());
    shelf
        .insert_blob(Blob::new_with_mime("blob-cover-foo".to_owned(), "text/plain".to_owned()))
        .unwrap();
    let plan = saver.save(&shelf, &strings(&["blob-cover-foo"]));
    assert!(saver.saved(&mut shelf, &plan).is_ok());

    let mut shelf = Shelf::new();
    assert!(saver.load(&mut shelf, Vec::new(), Vec::new(), Vec::new(), plan.index).is_ok());
    let blob = shelf.query_blobs().into_iter().filter(|x| &x.key == "blob-cover-foo").next();
    assert!(blob.is_some());
}

#[test]
fn directory_is_checked() {
    match DirectoryShelf::new("shelf", false, false, Err("no".to_owned())) {
        Err(SaveError::DirectoryError(m)) => assert_eq!("Path shelf is not a directory.", m),
        _ => panic!("a path that is no directory was taken"),
    }
    match DirectoryShelf::new("shelf", true, false, Ok("/srv/shelf".to_owned())) {
        Err(SaveError::DirectoryError(m)) => {
            assert_eq!("Path shelf should be an absolute path.", m)
        }
        _ => panic!("a relative path was taken"),
    }
    match DirectoryShelf::new("/srv/shelf", true, true, Err("No such file".to_owned())) {
        Err(SaveError::DirectoryError(m)) => assert_eq!("No such file", m),
        _ => panic!("a path without a canonical form was taken"),
    }
    let taken = DirectoryShelf::new("/srv/../srv/shelf", true, true, Ok("/srv/shelf".to_owned()));
    assert_eq!("/srv/shelf", taken.ok().unwrap().directory());
}

#[test]
fn blob_paths() {
    let saver = saver();
    assert_eq!("blobs/blob-cover-foo", saver.insert_blob("blob-cover-foo").ok().unwrap());
    assert!(matches!(
        saver.insert_blob("cover-foo"),
        Err(SaveError::InvalidKey(ref k)) if k == "cover-foo"
    ));
    assert_eq!("blobs/cover-foo", saver.get_blob("cover-foo"));
    assert_eq!("blobs/blob-x", blob_file("blob-x"));
    assert_eq!("blobs/index.yaml", index_path());
}

#[test]
fn file_names() {
    assert_eq!("person--person-a.yaml", record_file(RecordKind::Person, "person-a"));
    assert_eq!("series--s.yaml", record_file(RecordKind::Series, "s"));
    assert_eq!("item--.yaml", record_file(RecordKind::Item, ""));
    assert_eq!(Some(RecordKind::Person), file_kind("person--person-a.yaml"));
    assert_eq!(Some(RecordKind::Item), file_kind("item--x"));
    assert_eq!(Some(RecordKind::Series), file_kind("series--"));
    assert_eq!(None, file_kind("person-a.yaml"));
    assert_eq!(None, file_kind("blobs"));
    assert_eq!(None, file_kind(""));
}

#[test]
fn commit_messages() {
    assert_eq!(None, compose_message(&Vec::new()));
    assert_eq!(
        Some("Updated \"item-x\"".to_string()),
        compose_message(&strings(&["item-x"]))
    );
    assert_eq!(
        Some("Update shelf (2 items)\n\n- person-a\n- item-x\n".to_string()),
        compose_message(&strings(&["person-a", "item-x"]))
    );
    let many: Vec<String> = (0..12).map(|i| format!("k{}", i)).collect();
    let message = compose_message(&many).unwrap();
    assert!(message.starts_with("Update shelf (12 items)\n\n- k0\n- k1\n"));
    assert!(message.ends_with("- k11\n"));
}

#[test]
fn save_without_changes_does_nothing() {
    let saver = saver();
    let mut shelf = Shelf::new();
    shelf.insert_person(person("person-a"));
    assert_eq!(1, save(&saver, &mut shelf, &[]).ok().unwrap());

    let plan = saver.save(&shelf, &Vec::new());
    assert!(plan.writes.is_empty());
    assert!(plan.payloads.is_empty());
    assert!(plan.updated.is_empty());
    assert!(plan.missing.is_none());
    assert!(plan.index.is_none());
    assert!(plan.message.is_none());
    assert_eq!(0, saver.saved(&mut shelf, &plan).ok().unwrap());
}

#[test]
fn save_writes_people_then_series_then_items() {
    let saver = saver();
    let mut shelf = Shelf::new();
    shelf.insert_series(series("series-s"));
    shelf.insert_person(person("person-b"));
    shelf.insert_person(person("person-a"));
    shelf.insert_item(item("item-x", &["person-a"], Some("series-s"))).unwrap();
    shelf.insert_blob(blob("blob-z")).unwrap();
    shelf.insert_blob(blob("blob-a")).unwrap();

    let plan = saver.save(&shelf, &strings(&["blob-a", "blob-z"]));
    let paths: Vec<&str> = plan.writes.iter().map(|w| w.path.as_str()).collect();
    assert_eq!(
        vec![
            "person--person-b.yaml",
            "person--person-a.yaml",
            "series--series-s.yaml",
            "item--item-x.yaml"
        ],
        paths
    );
    assert_eq!(RecordKind::Person, plan.writes[1].kind);
    assert_eq!(1, plan.writes[1].position);
    assert_eq!("person-a", plan.writes[1].key);
    assert_eq!(RecordKind::Item, plan.writes[3].kind);
    assert_eq!(0, plan.writes[3].position);
    assert_eq!(strings(&["blobs/blob-z", "blobs/blob-a"]), plan.payloads);
    assert_eq!(
        strings(&["person-b", "person-a", "series-s", "item-x", "blob-z", "blob-a"]),
        plan.updated
    );
    assert_eq!(Some(vec![blob("blob-a"), blob("blob-z")]), plan.index);
    assert_eq!(
        Some(
            "Update shelf (6 items)\n\n- person-b\n- person-a\n- series-s\n- item-x\n- blob-z\n- blob-a\n"
                .to_string()
        ),
        plan.message
    );
    assert!(plan.missing.is_none());
    assert_eq!(6, saver.saved(&mut shelf, &plan).ok().unwrap());
    for key in ["person-b", "person-a", "series-s", "item-x", "blob-z", "blob-a"] {
        assert!(!shelf.is_dirty(key));
    }
}

#[test]
fn one_changed_item_is_all_that_is_saved() {
    let saver = saver();
    let mut shelf = Shelf::new();
    shelf.insert_person(person("person-a"));
    for key in ["item-1", "item-2", "item-3"] {
        shelf.insert_item(item(key, &["person-a"], None)).unwrap();
    }
    assert_eq!(4, save(&saver, &mut shelf, &[]).ok().unwrap());

    let mut changed = item("item-2", &[], None);
    changed.rating = Some(3);
    shelf.replace_item(changed).unwrap();
    let plan = saver.save(&shelf, &Vec::new());
    assert_eq!(1, plan.writes.len());
    assert_eq!("item--item-2.yaml", plan.writes[0].path);
    assert_eq!(1, plan.writes[0].position);
    assert_eq!(Some("Updated \"item-2\"".to_string()), plan.message);
    assert!(plan.index.is_none());
    assert_eq!(1, saver.saved(&mut shelf, &plan).ok().unwrap());
    assert!(!shelf.is_dirty("item-2"));
}

#[test]
fn missing_payload_fails_the_save() {
    let saver = saver();
    let mut shelf = Shelf::new();
    shelf.insert_person(person("person-a"));
    shelf.insert_blob(blob("blob-b")).unwrap();
    shelf.insert_blob(blob("blob-c")).unwrap();
    shelf.insert_blob(blob("blob-a")).unwrap();

    let plan = saver.save(&shelf, &strings(&["blob-b"]));
    assert_eq!(Some("blob-c".to_string()), plan.missing);
    assert_eq!(1, plan.writes.len());
    assert_eq!(strings(&["blobs/blob-b"]), plan.payloads);
    assert_eq!(strings(&["person-a", "blob-b"]), plan.updated);
    assert!(plan.index.is_none());
    assert!(plan.message.is_none());
    match saver.saved(&mut shelf, &plan) {
        Err(SaveError::MissingBlob(key)) => assert_eq!("blob-c", key),
        _ => panic!("the save did not fail"),
    }
    assert!(shelf.is_dirty("person-a"));
    assert!(shelf.is_dirty("blob-c"));

    let plan = saver.save(&shelf, &strings(&["blob-a", "blob-b", "blob-c"]));
    assert!(plan.missing.is_none());
    assert_eq!(Some(vec![blob("blob-a"), blob("blob-b"), blob("blob-c")]), plan.index);
    assert_eq!(4, saver.saved(&mut shelf, &plan).ok().unwrap());
    assert!(!shelf.is_dirty("blob-c"));
}

#[test]
fn a_clean_blob_needs_no_payload() {
    let saver = saver();
    let mut shelf = Shelf::new();
    shelf.insert_blob(blob("blob-b")).unwrap();
    assert_eq!(1, save(&saver, &mut shelf, &["blob-b"]).ok().unwrap());
    shelf.insert_blob(blob("blob-a")).unwrap();
    let plan = saver.save(&shelf, &strings(&["blob-a"]));
    assert!(plan.missing.is_none());
    assert_eq!(strings(&["blobs/blob-a"]), plan.payloads);
    assert_eq!(Some(vec![blob("blob-a"), blob("blob-b")]), plan.index);
    assert_eq!(Some("Updated \"blob-a\"".to_string()), plan.message);
}

#[test]
fn blobs_are_sorted_by_key() {
    let list = vec![blob("blob-b"), blob("blob-B"), blob("blob-"), blob("blob-ab"), blob("blob-\u{e9}")];
    let refs: Vec<&Blob> = list.iter().collect();
    let keys: Vec<String> = sorted_blobs(&refs).into_iter().map(|b| b.key).collect();
    assert_eq!(strings(&["blob-", "blob-B", "blob-ab", "blob-b", "blob-\u{e9}"]), keys);
    let mut expected = list.clone();
    expected.sort_by(|a, b| a.key.cmp(&b.key));
    assert_eq!(expected, sorted_blobs(&refs));
}

#[test]
fn load_fills_the_shelf_and_leaves_it_clean() {
    let saver = saver();
    let mut shelf = Shelf::new();
    let people = vec![person("person-a"), person("person-b")];
    let all_series = vec![series("series-s")];
    let items = vec![
        item("item-x", &["person-b"], Some("series-s")),
        item("item-y", &["person-a"], None),
    ];
    assert!(saver.unresolved(&shelf, &people, &all_series, &items, &None).is_none());
    let loaded = saver.load(&mut shelf, people, all_series, items, Some(vec![blob("blob-a")]));
    assert!(loaded.is_ok());
    assert_eq!(2, shelf.query_people().len());
    assert_eq!(1, shelf.query_series().len());
    assert_eq!(2, shelf.query_items().len());
    assert_eq!("item-x", shelf.all_items()[0].key);
    assert_eq!(1, shelf.query_blobs().len());
    for key in ["person-a", "person-b", "series-s", "item-x", "item-y", "blob-a"] {
        assert!(!shelf.is_dirty(key));
    }
}

#[test]
fn load_stops_at_a_bad_blob_key() {
    let saver = saver();
    let mut shelf = Shelf::new();
    let loaded = saver.load(
        &mut shelf,
        vec![person("person-a")],
        Vec::new(),
        Vec::new(),
        Some(vec![blob("blob-a"), blob("cover"), blob("blob-b")]),
    );
    match loaded {
        Err(SaveError::InvalidKey(key)) => assert_eq!("cover", key),
        _ => panic!("the load did not fail"),
    }
    assert_eq!(1, shelf.query_blobs().len());
    assert_eq!(0, shelf.query_people().len());
    assert!(shelf.is_dirty("blob-a"));
}

#[test]
fn load_precheck_names_what_is_missing() {
    let saver = saver();
    let mut shelf = Shelf::new();
    shelf.insert_person(person("person-a"));
    let people = vec![person("person-b")];
    let items = vec![
        item("item-x", &["person-a", "person-b"], None),
        item("item-y", &["person-b", "person-c"], Some("series-s")),
    ];
    assert_eq!(
        Some("person-c".to_string()),
        saver.unresolved(&shelf, &people, &Vec::new(), &items, &None)
    );
    assert_eq!(
        Some("person-c".to_string()),
        saver.unresolved(&shelf, &people, &Vec::new(), &items, &Some(vec![blob("blob-a")]))
    );
    assert_eq!(
        None,
        saver.unresolved(&shelf, &people, &Vec::new(), &items, &Some(vec![blob("cover")]))
    );
    let people = vec![person("person-b"), person("person-c")];
    assert_eq!(
        Some("series-s".to_string()),
        saver.unresolved(&shelf, &people, &Vec::new(), &items, &None)
    );
    assert_eq!(
        None,
        saver.unresolved(&shelf, &people, &vec![series("series-s")], &items, &None)
    );
}

#[test]
fn a_saved_shelf_comes_back() {
    let saver = saver();
    let mut shelf = Shelf::new();
    shelf.insert_person(person("person-a"));
    shelf.insert_person(person("person-b"));
    shelf.insert_series(series("series-s"));
    shelf.insert_item(item("item-x", &["person-a"], Some("series-s"))).unwrap();
    shelf.insert_item(item("item-y", &["person-b"], None)).unwrap();
    shelf.insert_blob(blob("blob-b")).unwrap();
    shelf.insert_blob(blob("blob-a")).unwrap();
    let plan = saver.save(&shelf, &strings(&["blob-a", "blob-b"]));
    assert_eq!(7, saver.saved(&mut shelf, &plan).ok().unwrap());

    let people: Vec<Person> = shelf.query_people().into_iter().cloned().collect();
    let all_series: Vec<Series> = shelf.query_series().into_iter().cloned().collect();
    let items: Vec<Item> = shelf.all_items().to_vec();
    let mut fresh = Shelf::new();
    assert!(saver.unresolved(&fresh, &people, &all_series, &items, &plan.index).is_none());
    assert!(saver.load(&mut fresh, people.clone(), all_series.clone(), items, plan.index).is_ok());

    let back: Vec<Person> = fresh.query_people().into_iter().cloned().collect();
    assert_eq!(people, back);
    let back: Vec<Series> = fresh.query_series().into_iter().cloned().collect();
    assert_eq!(all_series, back);
    let keys: Vec<&str> = fresh.all_items().iter().map(|i| i.key.as_str()).collect();
    assert_eq!(vec!["item-x", "item-y"], keys);
    let mut blobs: Vec<Blob> = fresh.query_blobs().into_iter().cloned().collect();
    blobs.sort_by(|a, b| a.key.cmp(&b.key));
    assert_eq!(vec![blob("blob-a"), blob("blob-b")], blobs);
    assert!(!fresh.is_dirty("item-x"));
}

#[test]
fn only_an_unreadable_item_ends_a_load() {
    assert!(unreadable_ends_load(RecordKind::Item));
    assert!(!unreadable_ends_load(RecordKind::Person));
    assert!(!unreadable_ends_load(RecordKind::Series));
}

#[test]
fn load_keeps_one_item_for_a_key() {
    let saver = saver();
    let mut shelf = Shelf::new();
    let mut second = item("item-x", &[], None);
    second.rating = Some(2);
    let items = vec![item("item-x", &[], None), item("item-y", &[], None), second];
    assert!(saver.load(&mut shelf, Vec::new(), Vec::new(), items, None).is_ok());
    assert_eq!(2, shelf.all_items().len());
    assert_eq!("item-x", shelf.all_items()[0].key);
    assert_eq!(Some(2), shelf.all_items()[0].rating);
}

#[test]
fn the_order_of_the_files_makes_no_difference() {
    let saver = saver();
    let people = vec![person("person-a"), person("person-b"), person("person-c")];
    let items = vec![
        item("item-x", &["person-a"], None),
        item("item-y", &["person-c"], None),
        item("item-z", &["person-old"], None),
    ];
    let blobs = vec![blob("blob-a"), blob("blob-b")];

    let mut one = Shelf::new();
    one.insert_person(person("person-old"));
    one.insert_person(person("person-b"));
    let mut other = Shelf::new();
    other.insert_person(person("person-old"));
    other.insert_person(person("person-b"));

    let mut turned_people = people.clone();
    turned_people.reverse();
    let mut turned_items = items.clone();
    turned_items.reverse();
    let mut turned_blobs = blobs.clone();
    turned_blobs.reverse();
    assert!(saver.load(&mut one, people, Vec::new(), items, Some(blobs)).is_ok());
    assert!(saver
        .load(&mut other, turned_people, Vec::new(), turned_items, Some(turned_blobs))
        .is_ok());

    assert_eq!(4, one.query_people().len());
    assert_eq!(4, other.query_people().len());
    for p in one.query_people() {
        assert!(other.query_people().into_iter().any(|q| q == p));
    }
    assert_eq!(3, other.all_items().len());
    for i in one.all_items() {
        assert_eq!(i.people, other.get_item(&i.key).unwrap().people);
    }
    for b in one.query_blobs() {
        assert_eq!(Some(b), other.get_blob(&b.key));
    }
    assert!(!other.is_dirty("person-a"));
}
