use shelf::common::{Alternatives, DateBool, Day, Person, Role};
use shelf::item::{Entry, Item};
use shelf::model::CreateStatus;
use shelf::replies::{
    create_code, create_status, decode_key, failure_status, item_get, item_post,
    missing_content_type, refused, Failure, ItemAnswer,
};
use shelf::shelf::ShelfError;
use shelf::common::{Kind, Status};
use shelf::views::{count_completed, finished_books, format_kind, in_order, in_progress, kind_name};
use shelf::Shelf;

fn item(key: &str, people: &[&str]) -> Item {
    Item {
        key: key.into(),
        people: people.iter().map(|p| (Role::Author, p.to_string())).collect(),
        ..Item::default()
    }
}

fn entry(completed: DateBool) -> Entry {
    Entry { name: None, number: None, volume: None, completed, extra: serde_yaml::Value::Null }
}

#[test]
fn keys_are_percent_decoded() {
    assert_eq!("item-a b", decode_key("item-a%20b").ok().unwrap());
    assert_eq!("item-\u{e9}", decode_key("item-%C3%A9").ok().unwrap());
    assert_eq!("item-%zz", decode_key("item-%zz").ok().unwrap());
    let complaint = decode_key("item-\"%FF").err().unwrap().error;
    assert!(complaint.starts_with("Could not percent-decode item \"item-\\\"%FF\": "));
    assert!(complaint.len() > "Could not percent-decode item \"item-\\\"%FF\": ".len());
}

#[test]
fn an_item_is_looked_up_by_its_decoded_key() {
    let mut shelf = Shelf::new();
    shelf.insert_item(item("item a", &[])).unwrap();
    shelf.insert_item(item("item-b", &[])).unwrap();
    assert!(matches!(item_get(&shelf, ":template:"), Ok(ItemAnswer::Template)));
    assert!(matches!(item_get(&shelf, "item%20a"), Ok(ItemAnswer::Found(i)) if i.key == "item a"));
    assert!(matches!(item_get(&shelf, "item-b"), Ok(ItemAnswer::Found(i)) if i.key == "item-b"));
    assert!(matches!(item_get(&shelf, "item-c"), Ok(ItemAnswer::NotFound)));
    assert!(matches!(item_get(&shelf, "%FF"), Err(_)));
    assert!(shelf.get_item("item-c").is_none());
}

#[test]
fn a_posted_item_must_fit_its_route() {
    let mut shelf = Shelf::new();
    shelf.insert_person(Person { key: "person-a".into(), name: Alternatives::new("English", "A") });

    assert_eq!("item x", item_post(&mut shelf, "item%20x", item("item x", &["person-a"])).ok().unwrap());
    assert_eq!(1, shelf.all_items().len());
    assert!(shelf.is_dirty("item x"));

    let refused = item_post(&mut shelf, "item-y", item("item-z", &[]));
    assert_eq!(
        "Item has key 'item-z' but this route is for key 'item-y'",
        refused.err().unwrap().error
    );
    let refused = item_post(&mut shelf, "item-y", item("item-y", &["person-b"]));
    assert_eq!("Unrecognized reference to entity person-b", refused.err().unwrap().error);
    assert!(item_post(&mut shelf, "%FF", item("item-y", &[])).is_err());
    assert_eq!(1, shelf.all_items().len());
    assert!(!shelf.is_dirty("item-y"));

    assert!(item_post(&mut shelf, "item%20x", item("item x", &[])).is_ok());
    assert_eq!(1, shelf.all_items().len());
    assert!(shelf.all_items()[0].people.is_empty());
}

#[test]
fn complaints_say_what_was_wrong() {
    assert_eq!(
        "Unrecognized reference to entity person-b",
        refused(&ShelfError::InvalidReference("person-b".into())).error
    );
    assert_eq!("Invalid key 'cover'", refused(&ShelfError::InvalidKey("cover".into())).error);
    assert_eq!("Blob cover is missing a content-type", missing_content_type("cover").error);
}

#[test]
fn statuses() {
    assert_eq!(CreateStatus::Created, create_status(true));
    assert_eq!(CreateStatus::Updated, create_status(false));
    assert_eq!(201, create_code(CreateStatus::Created));
    assert_eq!(202, create_code(CreateStatus::Updated));
    assert_eq!(502, failure_status(Failure::Upstream));
    assert_eq!(400, failure_status(Failure::BadRequest));
    assert_eq!(415, failure_status(Failure::UnsupportedMediaType));
    assert_eq!(400, failure_status(Failure::UnreadableBody));
    assert_eq!(404, failure_status(Failure::NotFound));
    assert_eq!(500, failure_status(Failure::Internal));
    assert_eq!(500, failure_status(Failure::Other));
}

#[test]
fn completed_entries_are_counted() {
    assert_eq!(0, count_completed(&Vec::new()));
    let entries = vec![
        entry(DateBool::False),
        entry(DateBool::True),
        entry(DateBool::YearMonth(2018, 1)),
        entry(DateBool::False),
        entry(DateBool::Date(Day { year: 2018, month: 1, day: 1 })),
    ];
    assert_eq!(3, count_completed(&entries));
}

#[test]
fn kinds_are_shown_with_spaces() {
    assert_eq!("Short Story", format_kind("ShortStory"));
    assert_eq!("Visual Novel", format_kind("VisualNovel"));
    assert_eq!("Manga", format_kind("Manga"));
    assert_eq!("", format_kind(""));
}

#[test]
fn tags_are_listed_once() {
    let mut shelf = Shelf::new();
    assert!(shelf.tags().is_empty());
    let mut first = item("item-1", &[]);
    first.tags = vec!["b".into(), "a".into(), "b".into()];
    let mut second = item("item-2", &[]);
    second.tags = vec!["c".into(), "a".into()];
    shelf.insert_item(first).unwrap();
    shelf.insert_item(item("item-0", &[])).unwrap();
    shelf.insert_item(second).unwrap();
    assert_eq!(vec!["b".to_string(), "a".to_string(), "c".to_string()], shelf.tags());
}

fn work(key: &str, kind: Kind, status: Status, name: &str) -> Item {
    Item {
        key: key.into(),
        kind,
        status,
        name: Alternatives::new("English", name),
        ..Item::default()
    }
}

#[test]
fn kinds_have_their_names() {
    assert_eq!("Unknown", kind_name(Kind::Unknown));
    assert_eq!("TV", kind_name(Kind::TV));
    assert_eq!("ShortStory", kind_name(Kind::ShortStory));
    assert_eq!("NonFiction", kind_name(Kind::NonFiction));
    for kind in [Kind::Manga, Kind::Film, Kind::Novel, Kind::OVA, Kind::ONA, Kind::Music] {
        assert_eq!(format!("{:?}", kind), kind_name(kind));
    }
    for kind in [Kind::Play, Kind::Collection, Kind::Musical, Kind::VisualNovel] {
        assert_eq!(format!("{:?}", kind), kind_name(kind));
    }
}

#[test]
fn pages_list_by_kind_and_name() {
    let mut shelf = Shelf::new();
    shelf.insert_item(work("i1", Kind::TV, Status::InProgress, "B")).unwrap();
    shelf.insert_item(work("i2", Kind::Manga, Status::InProgress, "Z")).unwrap();
    shelf.insert_item(work("i3", Kind::TV, Status::Completed, "A")).unwrap();
    shelf.insert_item(work("i4", Kind::TV, Status::InProgress, "A")).unwrap();
    shelf.insert_item(work("i5", Kind::Novel, Status::InProgress, "")).unwrap();
    shelf.insert_item(work("i6", Kind::TV, Status::InProgress, "A")).unwrap();
    let mut nameless = work("i7", Kind::TV, Status::InProgress, "C");
    nameless.name.default = "Japanese".into();
    shelf.insert_item(nameless).unwrap();
    let keys: Vec<&str> = in_progress(&shelf).into_iter().map(|i| i.key.as_str()).collect();
    assert_eq!(vec!["i2", "i5", "i7", "i4", "i6", "i1"], keys);

    let mut expected: Vec<&Item> = shelf
        .all_items()
        .iter()
        .filter(|item| item.status == Status::InProgress)
        .collect();
    expected.sort_by_key(|item| {
        (format!("{:?}", item.kind), item.name.get(&item.name.default).cloned().unwrap_or_default())
    });
    let expected: Vec<&str> = expected.into_iter().map(|i| i.key.as_str()).collect();
    assert_eq!(expected, keys);
}

#[test]
fn finished_books_are_picked() {
    let mut shelf = Shelf::new();
    shelf.insert_item(work("i1", Kind::ShortStory, Status::Completed, "S")).unwrap();
    shelf.insert_item(work("i2", Kind::Novel, Status::Completed, "N2")).unwrap();
    shelf.insert_item(work("i3", Kind::Novel, Status::Planned, "N0")).unwrap();
    shelf.insert_item(work("i4", Kind::Manga, Status::Completed, "M")).unwrap();
    shelf.insert_item(work("i5", Kind::Play, Status::Completed, "P")).unwrap();
    shelf.insert_item(work("i6", Kind::Collection, Status::Completed, "C")).unwrap();
    shelf.insert_item(work("i7", Kind::Novel, Status::Completed, "N1")).unwrap();
    let keys: Vec<&str> = finished_books(&shelf).into_iter().map(|i| i.key.as_str()).collect();
    assert_eq!(vec!["i6", "i7", "i2", "i5", "i1"], keys);
    assert!(in_order(&Vec::new()).is_empty());
}
