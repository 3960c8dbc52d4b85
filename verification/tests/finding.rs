use mongo_utils::finder::find_groups;
use mongo_utils::finder::DuplicateGroup;
use mongo_utils::record::Record;
use mongo_utils::store::Store;
use mongo_utils::value::Value;
use mongo_utils::window::TimeWindow;
use mongo_utils::window::WindowError;

const MAY_14_NOON: i64 = 1_715_688_000_000;
const MAY_15: i64 = 1_715_731_200_000;
const MAY_15_NOON: i64 = 1_715_774_400_000;
const MAY_16: i64 = 1_715_817_600_000;

fn user(id: u128, phone: &str, updated_at: i64) -> Record {
    let mut record = Record::new(id);
    record.insert("phone".to_string(), Value::Text(phone.to_string()));
    record.insert("updatedAt".to_string(), Value::Timestamp(updated_at));
    record
}

fn store_of(records: Vec<Record>) -> Store {
    let mut store = Store::new();
    for record in records {
        assert!(store.insert(record));
    }
    store
}

fn group(phone: &str, count: usize) -> DuplicateGroup {
    DuplicateGroup { phone: phone.to_string(), count }
}

#[test]
fn window_is_read_from_rfc3339() {
    assert_eq!(
        TimeWindow::parse("2024-05-15T00:00:00Z", "2024-05-16T00:00:00Z"),
        Ok(TimeWindow { start: MAY_15, end: MAY_16 })
    );
    assert_eq!(
        TimeWindow::parse("1970-01-01T00:00:00.250Z", "1970-01-01T01:00:00+01:00"),
        Ok(TimeWindow { start: 250, end: 0 })
    );
}

#[test]
fn window_rejects_what_is_no_timestamp() {
    assert_eq!(TimeWindow::parse("yesterday", "2024-05-16T00:00:00Z"), Err(WindowError::InvalidStart));
    assert_eq!(TimeWindow::parse("2024-05-15T00:00:00Z", "2024-05-16"), Err(WindowError::InvalidEnd));
    assert_eq!(TimeWindow::parse("", ""), Err(WindowError::InvalidStart));
}

#[test]
fn window_holds_its_start_and_not_its_end() {
    let window = TimeWindow { start: MAY_15, end: MAY_16 };
    assert!(window.contains(MAY_15));
    assert!(window.contains(MAY_15_NOON));
    assert!(window.contains(MAY_16 - 1));
    assert!(!window.contains(MAY_16));
    assert!(!window.contains(MAY_15 - 1));
    assert!(!TimeWindow { start: 5, end: 5 }.contains(5));
}

#[test]
fn no_duplicates_give_no_groups() {
    let store = store_of(vec![user(1, "111", 1), user(2, "222", 2), user(3, "333", 3)]);
    assert_eq!(find_groups(&store, None, 10), Vec::<DuplicateGroup>::new());
    assert_eq!(find_groups(&Store::new(), None, 10), Vec::<DuplicateGroup>::new());
}

#[test]
fn groups_come_largest_first_then_by_phone() {
    let store = store_of(vec![
        user(1, "222", 1),
        user(2, "111", 1),
        user(3, "333", 1),
        user(4, "222", 1),
        user(5, "333", 1),
        user(6, "111", 1),
        user(7, "333", 1),
        user(8, "444", 1),
    ]);
    assert_eq!(
        find_groups(&store, None, 10),
        vec![group("333", 3), group("111", 2), group("222", 2)]
    );
}

#[test]
fn groups_are_cut_at_the_limit() {
    let store = store_of(vec![
        user(1, "222", 1),
        user(2, "111", 1),
        user(3, "333", 1),
        user(4, "222", 1),
        user(5, "333", 1),
        user(6, "111", 1),
        user(7, "333", 1),
    ]);
    assert_eq!(find_groups(&store, None, 2), vec![group("333", 3), group("111", 2)]);
    assert_eq!(find_groups(&store, None, 1), vec![group("333", 3)]);
    assert_eq!(find_groups(&store, None, 0), Vec::<DuplicateGroup>::new());
    assert_eq!(find_groups(&store, None, 3).len(), 3);
}

#[test]
fn records_without_a_phone_number_are_not_counted() {
    let mut nameless = Record::new(3);
    nameless.insert("updatedAt".to_string(), Value::Timestamp(1));
    let mut another = Record::new(4);
    another.insert("updatedAt".to_string(), Value::Timestamp(1));
    let mut numeric = Record::new(5);
    numeric.insert("phone".to_string(), Value::Number(111));
    let mut numeric_too = Record::new(6);
    numeric_too.insert("phone".to_string(), Value::Number(111));
    let store = store_of(vec![user(1, "111", 1), nameless, another, numeric, numeric_too]);
    assert_eq!(find_groups(&store, None, 10), Vec::<DuplicateGroup>::new());
}

#[test]
fn without_a_window_records_without_timestamp_count() {
    let mut undated = Record::new(2);
    undated.insert("phone".to_string(), Value::Text("111".to_string()));
    let store = store_of(vec![user(1, "111", 1), undated]);
    assert_eq!(find_groups(&store, None, 10), vec![group("111", 2)]);
    let window = TimeWindow { start: 0, end: 10 };
    assert_eq!(find_groups(&store, Some(window), 10), Vec::<DuplicateGroup>::new());
}

#[test]
fn window_restricts_the_scan() {
    let window = TimeWindow::parse("2024-05-15T00:00:00Z", "2024-05-16T00:00:00Z").unwrap();
    let store = store_of(vec![
        // both inside: a group
        user(1, "111", MAY_15),
        user(2, "111", MAY_15_NOON),
        // one inside, one before: no group
        user(3, "222", MAY_14_NOON),
        user(4, "222", MAY_15_NOON),
        // one inside, one at the end, which is outside: no group
        user(5, "333", MAY_16 - 1),
        user(6, "333", MAY_16),
        // three, of which two are inside: a group of two
        user(7, "444", MAY_14_NOON),
        user(8, "444", MAY_15 + 1),
        user(9, "444", MAY_16 - 1),
        // both outside: no group
        user(10, "555", MAY_14_NOON),
        user(11, "555", MAY_16),
    ]);
    assert_eq!(find_groups(&store, Some(window), 10), vec![group("111", 2), group("444", 2)]);
    assert_eq!(
        find_groups(&store, None, 10),
        vec![group("444", 3), group("111", 2), group("222", 2), group("333", 2), group("555", 2)]
    );
}

#[test]
fn finding_changes_nothing() {
    let store = store_of(vec![user(1, "111", 1), user(2, "111", 2)]);
    let before = store_of(vec![user(1, "111", 1), user(2, "111", 2)]);
    let _ = find_groups(&store, None, 10);
    assert_eq!(store, before);
}
