use shelf::router::{parts_of, path_pattern, Builder};
use shelf::server::Server;

const ROOT: usize = 0;
const ITEM_LIST: usize = 1;
const ITEM_GET: usize = 2;

fn routes() -> shelf::router::Router {
    let mut builder = Builder::new();
    builder.add("GET", "/", ROOT).unwrap();
    builder.add("GET", "/item", ITEM_LIST).unwrap();
    builder.add("GET", "/item/?", ITEM_GET).unwrap();
    builder.build()
}

#[test]
fn item_404() {
    let router = routes();
    let (handler, parts) = router.route("GET", "/item/foo");
    assert_eq!(Some(ITEM_GET), handler);
    assert_eq!(vec!["foo".to_string()], parts);
    let shelf = shelf::Shelf::new();
    assert!(shelf.query_items().iter().all(|x| x.1.key != parts[0]));
    let answer = shelf::replies::item_get(&shelf, &parts[0]);
    assert!(matches!(answer, Ok(shelf::replies::ItemAnswer::NotFound)));
    assert_eq!(404, shelf::replies::failure_status(shelf::replies::Failure::NotFound));
}

#[test]
fn routes_are_tried_in_order() {
    let router = routes();
    assert_eq!((Some(ROOT), Vec::new()), router.route("GET", "/"));
    assert_eq!((Some(ITEM_LIST), Vec::new()), router.route("GET", "/item"));
    assert_eq!((Some(ITEM_GET), vec![String::new()]), router.route("GET", "/item/"));
    assert_eq!((None, Vec::new()), router.route("GET", "/item/foo/bar"));
    assert_eq!((None, Vec::new()), router.route("POST", "/item"));
    assert_eq!((None, Vec::new()), router.route("get", "/item"));
    assert_eq!((None, Vec::new()), router.route("GET", "/items"));

    let mut builder = Builder::new();
    builder.add("GET", "/?", 7).unwrap();
    builder.add("GET", "/item", 8).unwrap();
    builder.add("GET", "/?/?", 9).unwrap();
    let router = builder.build();
    assert_eq!((Some(7), vec!["item".to_string()]), router.route("GET", "/item"));
    assert_eq!(
        (Some(9), vec!["a".to_string(), "b".to_string()]),
        router.route("GET", "/a/b")
    );
}

#[test]
fn a_path_becomes_a_pattern() {
    assert_eq!("^/item/([^/]*)$", path_pattern("/item/?"));
    assert_eq!("^$", path_pattern(""));
    assert_eq!("^/([^/]*)/([^/]*)$", path_pattern("/?/?"));
    assert_eq!("^/caf\u{e9}$", path_pattern("/caf\u{e9}"));
}

#[test]
fn an_unsound_path_is_refused() {
    let mut builder = Builder::new();
    assert!(builder.add("GET", "/item/(", 1).is_err());
    assert!(builder.add("GET", "/item", 2).is_ok());
    let router = builder.build();
    assert_eq!((None, Vec::new()), router.route("GET", "/item/("));
    assert_eq!((Some(2), Vec::new()), router.route("GET", "/item"));
}

#[test]
fn groups_that_took_no_part_are_left_out() {
    let groups = vec![Some("/a".to_string()), None, Some("a".to_string()), None];
    assert_eq!(vec!["a".to_string()], parts_of(&groups));
    assert_eq!(Vec::<String>::new(), parts_of(&vec![Some("x".to_string())]));
    assert_eq!(Vec::<String>::new(), parts_of(&Vec::new()));

    let mut builder = Builder::new();
    builder.add("GET", "/(a)|/(b)", 1).unwrap();
    let router = builder.build();
    assert_eq!((Some(1), vec!["b".to_string()]), router.route("GET", "/b"));
}

#[test]
fn a_server_keeps_its_router() {
    let server = Server::new(routes());
    assert_eq!(Some(ITEM_LIST), server.routes().route("GET", "/item").0);
}
