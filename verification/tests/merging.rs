use mongo_utils::error::MergeError;
use mongo_utils::merger::merge_records;
use mongo_utils::merger::MergeOutcome;
use mongo_utils::record::Record;
use mongo_utils::value::Value;

const T0: i64 = 1_700_000_000_000;
const T1: i64 = 1_700_000_001_000;
const T2: i64 = 1_700_000_002_000;

fn text(s: &str) -> Value {
    Value::Text(s.to_string())
}

fn account(name: &str) -> Value {
    Value::Mapping(vec![("name".to_string(), text(name))])
}

fn user(id: u128, phone: &str, updated_at: i64, accounts: Vec<Value>) -> Record {
    let mut record = Record::new(id);
    record.insert("phone".to_string(), text(phone));
    record.insert("updatedAt".to_string(), Value::Timestamp(updated_at));
    record.insert("accounts".to_string(), Value::Sequence(accounts));
    record
}

fn merged(records: &Vec<Record>) -> MergeOutcome {
    merge_records(records).expect("the group can be merged")
}

#[test]
fn empty_group_is_reported() {
    let records: Vec<Record> = Vec::new();
    assert_eq!(merge_records(&records), Err(MergeError::EmptyGroup));
}

#[test]
fn record_without_timestamp_fails_the_group() {
    let mut stale = Record::new(2);
    stale.insert("phone".to_string(), text("9999999999"));
    let records = vec![user(1, "9999999999", T1, vec![]), stale];
    assert_eq!(merge_records(&records), Err(MergeError::MissingTimestamp));
}

#[test]
fn timestamp_of_another_kind_fails_the_group() {
    let mut odd = Record::new(2);
    odd.insert("phone".to_string(), text("9999999999"));
    odd.insert("updatedAt".to_string(), text("2024-05-15T00:00:00Z"));
    let records = vec![user(1, "9999999999", T1, vec![]), odd];
    assert_eq!(merge_records(&records), Err(MergeError::MissingTimestamp));
}

#[test]
fn three_records_merge_newest_first() {
    let records = vec![
        user(10, "9999999999", T0, vec![account("A")]),
        user(11, "9999999999", T1, vec![account("B")]),
        user(12, "9999999999", T2, vec![]),
    ];
    let outcome = merged(&records);
    assert_eq!(outcome.merged_record.id(), 12);
    assert_eq!(
        outcome.merged_record.get("accounts"),
        Some(&Value::Sequence(vec![account("B"), account("A")]))
    );
    assert_eq!(outcome.to_delete, vec![11, 10]);
}

#[test]
fn equal_timestamps_are_broken_by_identifier() {
    let first = vec![user(7, "9999999999", T1, vec![account("A")]), user(3, "9999999999", T1, vec![account("B")])];
    let second = vec![user(3, "9999999999", T1, vec![account("B")]), user(7, "9999999999", T1, vec![account("A")])];
    let a = merged(&first);
    let b = merged(&second);
    assert_eq!(a.merged_record.id(), 3);
    assert_eq!(a.to_delete, vec![7]);
    assert_eq!(a, b);
    for _ in 0..5 {
        assert_eq!(merged(&first), a);
    }
}

#[test]
fn outcome_does_not_depend_on_the_order_of_the_input() {
    let a = user(1, "5550001", T0, vec![account("A")]);
    let b = user(2, "5550001", T2, vec![account("B")]);
    let c = user(3, "5550001", T1, vec![account("C")]);
    let one = merged(&vec![a.duplicate(), b.duplicate(), c.duplicate()]);
    let other = merged(&vec![c, a, b]);
    assert_eq!(one, other);
    assert_eq!(one.to_delete, vec![3, 1]);
}

#[test]
fn merged_accounts_are_as_many_as_the_members_hold() {
    let records = vec![
        user(1, "5550001", T0, vec![account("A"), account("B")]),
        user(2, "5550001", T1, vec![account("A")]),
        user(3, "5550001", T2, vec![account("C"), account("D"), account("E")]),
    ];
    let outcome = merged(&records);
    let accounts = outcome.merged_record.accounts().expect("accounts are a sequence");
    assert_eq!(accounts.len(), 6);
    assert_eq!(
        accounts,
        &vec![account("C"), account("D"), account("E"), account("A"), account("A"), account("B")]
    );
}

#[test]
fn accounts_of_one_provider_are_not_deduplicated() {
    let records = vec![
        user(1, "5550001", T0, vec![account("Cashe")]),
        user(2, "5550001", T1, vec![account("Cashe")]),
    ];
    let outcome = merged(&records);
    assert_eq!(
        outcome.merged_record.accounts(),
        Some(&vec![account("Cashe"), account("Cashe")])
    );
}

#[test]
fn record_without_accounts_contributes_nothing() {
    let mut bare = Record::new(2);
    bare.insert("phone".to_string(), text("5550001"));
    bare.insert("updatedAt".to_string(), Value::Timestamp(T2));
    let mut odd = Record::new(3);
    odd.insert("phone".to_string(), text("5550001"));
    odd.insert("updatedAt".to_string(), Value::Timestamp(T1));
    odd.insert("accounts".to_string(), text("none"));
    let records = vec![user(1, "5550001", T0, vec![account("A")]), bare, odd];
    let outcome = merged(&records);
    assert_eq!(outcome.merged_record.id(), 2);
    assert_eq!(outcome.merged_record.accounts(), Some(&vec![account("A")]));
    // the master had no accounts field: it is added after its own fields
    assert_eq!(outcome.merged_record.field_at(2).map(|f| f.0), Some("accounts"));
    assert_eq!(outcome.to_delete, vec![3, 1]);
}

#[test]
fn master_fields_are_never_overwritten() {
    let mut master = user(1, "5550001", T2, vec![]);
    master.insert("name".to_string(), text("Asha"));
    master.insert("pincode".to_string(), Value::Number(560001));
    let mut older = user(2, "5550001", T1, vec![]);
    older.insert("name".to_string(), text("A. Rao"));
    older.insert("pincode".to_string(), Value::Null);
    let outcome = merged(&vec![older, master]);
    assert_eq!(outcome.merged_record.get("name"), Some(&text("Asha")));
    assert_eq!(outcome.merged_record.get("pincode"), Some(&Value::Number(560001)));
    assert_eq!(outcome.merged_record.get("phone"), Some(&text("5550001")));
    assert_eq!(outcome.merged_record.updated_at(), Some(T2));
}

#[test]
fn missing_field_comes_from_the_first_record_that_has_it() {
    let master = user(1, "5550001", T2, vec![]);
    let mut middle = user(2, "5550001", T1, vec![]);
    middle.insert("employment".to_string(), text("salaried"));
    let mut oldest = user(3, "5550001", T0, vec![]);
    oldest.insert("employment".to_string(), text("self-employed"));
    oldest.insert("partner".to_string(), text("MoneyTap"));
    let outcome = merged(&vec![oldest, master, middle]);
    assert_eq!(outcome.merged_record.get("employment"), Some(&text("salaried")));
    assert_eq!(outcome.merged_record.get("partner"), Some(&text("MoneyTap")));
    // added fields come after the master's own, in the order in which they were met
    assert_eq!(outcome.merged_record.len(), 5);
    assert_eq!(outcome.merged_record.field_at(3).map(|f| f.0), Some("employment"));
    assert_eq!(outcome.merged_record.field_at(4).map(|f| f.0), Some("partner"));
}

#[test]
fn timestamp_and_accounts_are_not_backfilled() {
    let mut master = Record::new(1);
    master.insert("updatedAt".to_string(), Value::Timestamp(T2));
    let older = user(2, "5550001", T0, vec![account("A")]);
    let outcome = merged(&vec![master, older]);
    assert_eq!(outcome.merged_record.updated_at(), Some(T2));
    assert_eq!(outcome.merged_record.accounts(), Some(&vec![account("A")]));
    assert_eq!(outcome.merged_record.get("phone"), Some(&text("5550001")));
    assert_eq!(outcome.merged_record.len(), 3);
}

#[test]
fn group_of_one_merges_into_itself() {
    let only = user(1, "5550001", T0, vec![account("A")]);
    let outcome = merged(&vec![only.duplicate()]);
    assert_eq!(outcome.merged_record, only);
    assert!(outcome.to_delete.is_empty());
}

#[test]
fn merging_writes_nothing_to_its_input() {
    let records = vec![user(1, "5550001", T0, vec![account("A")]), user(2, "5550001", T1, vec![])];
    let before = vec![records[0].duplicate(), records[1].duplicate()];
    let _ = merged(&records);
    assert_eq!(records, before);
}
