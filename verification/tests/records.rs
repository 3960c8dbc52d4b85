use mongo_utils::error::MergeError;
use mongo_utils::record::Record;
use mongo_utils::text::same_text;
use mongo_utils::text::text_before;
use mongo_utils::value::Value;

#[test]
fn new_record_has_its_identifier_and_no_fields() {
    let record = Record::new(42);
    assert_eq!(record.id(), 42);
    assert_eq!(record.len(), 0);
    assert_eq!(record.field_at(0), None);
    assert!(!record.contains_key("phone"));
}

#[test]
fn insert_appends_new_names_in_order() {
    let mut record = Record::new(1);
    record.insert("b".to_string(), Value::Number(2));
    record.insert("a".to_string(), Value::Number(1));
    assert_eq!(record.len(), 2);
    assert_eq!(record.field_at(0), Some(("b", &Value::Number(2))));
    assert_eq!(record.field_at(1), Some(("a", &Value::Number(1))));
    assert_eq!(record.position("a"), Some(1));
    assert_eq!(record.position("c"), None);
}

#[test]
fn insert_replaces_a_present_name_in_place() {
    let mut record = Record::new(1);
    record.insert("a".to_string(), Value::Number(1));
    record.insert("b".to_string(), Value::Number(2));
    record.insert("a".to_string(), Value::Boolean(true));
    assert_eq!(record.len(), 2);
    assert_eq!(record.field_at(0), Some(("a", &Value::Boolean(true))));
    assert_eq!(record.get("a"), Some(&Value::Boolean(true)));
    assert_eq!(record.get("b"), Some(&Value::Number(2)));
}

#[test]
fn typed_readers_look_at_the_kind_of_value() {
    let mut record = Record::new(1);
    assert_eq!(record.phone(), None);
    assert_eq!(record.updated_at(), None);
    assert_eq!(record.accounts(), None);
    record.insert("phone".to_string(), Value::Number(9999999999));
    record.insert("updatedAt".to_string(), Value::Number(5));
    record.insert("accounts".to_string(), Value::Null);
    assert_eq!(record.phone(), None);
    assert_eq!(record.updated_at(), None);
    assert_eq!(record.accounts(), None);
    record.insert("phone".to_string(), Value::Text("9999999999".to_string()));
    record.insert("updatedAt".to_string(), Value::Timestamp(-5));
    record.insert("accounts".to_string(), Value::Sequence(vec![Value::Null]));
    assert_eq!(record.phone(), Some("9999999999"));
    assert_eq!(record.updated_at(), Some(-5));
    assert_eq!(record.accounts(), Some(&vec![Value::Null]));
}

#[test]
fn duplicate_is_a_deep_copy() {
    let nested = Value::Mapping(vec![
        ("list".to_string(), Value::Sequence(vec![Value::Number(1), Value::Text("x".to_string())])),
        ("raw".to_string(), Value::Opaque(vec![7, 0, 255])),
        ("when".to_string(), Value::Timestamp(12)),
        ("none".to_string(), Value::Null),
        ("flag".to_string(), Value::Boolean(false)),
    ]);
    assert_eq!(nested.duplicate(), nested);
    let mut record = Record::new(9);
    record.insert("doc".to_string(), nested);
    let copy = record.duplicate();
    assert_eq!(copy, record);
    record.insert("doc".to_string(), Value::Null);
    assert_ne!(copy, record);
}

#[test]
fn same_text_compares_whole_texts() {
    assert!(same_text("", ""));
    assert!(same_text("accounts", "accounts"));
    assert!(!same_text("accounts", "account"));
    assert!(!same_text("accounts", "Accounts"));
    assert!(same_text("naïve", "naïve"));
    assert!(!same_text("naïve", "naive"));
}

#[test]
fn text_before_is_the_order_of_the_encodings() {
    assert!(text_before("", "0"));
    assert!(!text_before("", ""));
    assert!(text_before("100", "99"));
    assert!(text_before("99", "990"));
    assert!(!text_before("990", "99"));
    assert!(!text_before("555", "555"));
    assert!(text_before("Z", "a"));
    assert!(text_before("z", "é"));
    assert_eq!(text_before("9876543210", "9876543211"), "9876543210" < "9876543211");
}

#[test]
fn errors_are_named_and_classified() {
    assert_eq!(MergeError::EmptyGroup.name(), "EmptyGroup");
    assert_eq!(MergeError::MissingTimestamp.name(), "MissingTimestamp");
    assert_eq!(MergeError::StoreUnavailable.name(), "StoreUnavailable");
    assert_eq!(MergeError::NotFound.name(), "NotFound");
    assert_eq!(MergeError::Timeout.name(), "Timeout");
    assert!(!MergeError::EmptyGroup.counts_as_failure());
    assert!(MergeError::MissingTimestamp.counts_as_failure());
    assert!(MergeError::StoreUnavailable.counts_as_failure());
    assert!(MergeError::NotFound.counts_as_failure());
    assert!(MergeError::Timeout.counts_as_failure());
    assert!(MergeError::StoreUnavailable.may_retry());
    assert!(MergeError::Timeout.may_retry());
    assert!(!MergeError::MissingTimestamp.may_retry());
    assert!(!MergeError::NotFound.may_retry());
    assert!(!MergeError::EmptyGroup.may_retry());
}
