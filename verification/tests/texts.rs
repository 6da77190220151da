use shelf::model::InternalServerError;
use shelf::text::{decimal_string, holds_text};

#[test]
fn numbers_are_written_in_base_ten() {
    assert_eq!("0", decimal_string(0));
    assert_eq!("7", decimal_string(7));
    assert_eq!("10", decimal_string(10));
    assert_eq!("1203", decimal_string(1203));
    assert_eq!(u64::MAX.to_string(), decimal_string(u64::MAX));
}

#[test]
fn a_list_holds_its_texts() {
    let list = vec!["a".to_string(), "b".to_string()];
    assert!(holds_text(&list, "b"));
    assert!(!holds_text(&list, "c"));
    assert!(!holds_text(&Vec::new(), ""));
}

#[test]
fn an_error_keeps_its_message() {
    assert_eq!("Error while saving", InternalServerError::new("Error while saving".into()).error);
}
