use mongo_utils::batch::merge_group;
use mongo_utils::batch::process_phone;
use mongo_utils::error::MergeError;
use mongo_utils::finder::find_groups;
use mongo_utils::finder::DuplicateGroup;
use mongo_utils::merger::MergeOutcome;
use mongo_utils::persist::persist;
use mongo_utils::persist::DeleteFailure;
use mongo_utils::persist::GroupResult;
use mongo_utils::persist::Persistence;
use mongo_utils::persist::StoreRequest;
use mongo_utils::record::Record;
use mongo_utils::store::Store;
use mongo_utils::value::Value;

fn text(s: &str) -> Value {
    Value::Text(s.to_string())
}

fn user(id: u128, phone: &str, updated_at: i64, accounts: Vec<Value>) -> Record {
    let mut record = Record::new(id);
    record.insert("phone".to_string(), text(phone));
    record.insert("updatedAt".to_string(), Value::Timestamp(updated_at));
    record.insert("accounts".to_string(), Value::Sequence(accounts));
    record
}

fn store_of(records: Vec<Record>) -> Store {
    let mut store = Store::new();
    for record in records {
        assert!(store.insert(record));
    }
    store
}

fn sample() -> Store {
    store_of(vec![
        user(1, "111", 10, vec![text("A")]),
        user(2, "222", 20, vec![text("X")]),
        user(3, "111", 30, vec![text("B")]),
        user(4, "111", 20, vec![]),
        user(5, "333", 5, vec![]),
    ])
}

fn outcome() -> MergeOutcome {
    MergeOutcome { merged_record: user(3, "111", 30, vec![text("B"), text("A")]), to_delete: vec![4, 1] }
}

#[test]
fn store_keeps_identifiers_distinct() {
    let mut store = Store::new();
    assert!(store.insert(user(1, "111", 1, vec![])));
    assert!(!store.insert(user(1, "222", 2, vec![])));
    assert_eq!(store.len(), 1);
    assert_eq!(store.get(1).and_then(|r| r.phone()), Some("111"));
    assert_eq!(store.get(2), None);
    assert_eq!(store.position(1), Some(0));
    assert_eq!(store.position(2), None);
    assert_eq!(store.record_at(0).map(|r| r.id()), Some(1));
    assert_eq!(store.record_at(1), None);
}

#[test]
fn find_by_phone_gives_copies_in_store_order() {
    let store = sample();
    let found = store.find_by_phone("111");
    assert_eq!(found.iter().map(|r| r.id()).collect::<Vec<u128>>(), vec![1, 3, 4]);
    assert_eq!(found[1], user(3, "111", 30, vec![text("B")]));
    assert!(store.find_by_phone("999").is_empty());
    assert!(store.find_by_phone("11").is_empty());
}

#[test]
fn replace_without_upsert_needs_the_record() {
    let mut store = sample();
    assert_eq!(store.replace(user(9, "999", 1, vec![]), false), Err(MergeError::NotFound));
    assert_eq!(store, sample());
    assert_eq!(store.replace(user(2, "222", 21, vec![]), false), Ok(()));
    assert_eq!(store.position(2), Some(1));
    assert_eq!(store.get(2).and_then(|r| r.updated_at()), Some(21));
    assert_eq!(store.len(), 5);
}

#[test]
fn replace_with_upsert_adds_a_missing_record() {
    let mut store = sample();
    assert_eq!(store.replace(user(9, "999", 1, vec![]), true), Ok(()));
    assert_eq!(store.len(), 6);
    assert_eq!(store.position(9), Some(5));
}

#[test]
fn delete_of_a_missing_record_is_no_failure() {
    let mut store = sample();
    assert!(!store.delete(9));
    assert_eq!(store, sample());
    assert!(store.delete(2));
    assert_eq!(store.len(), 4);
    assert_eq!(store.get(2), None);
    assert_eq!(store.position(3), Some(1));
}

#[test]
fn merge_group_reads_the_group_from_the_store() {
    let store = sample();
    assert_eq!(merge_group(&store, "111"), Ok(outcome()));
    assert_eq!(merge_group(&store, "999"), Err(MergeError::EmptyGroup));
    assert_eq!(store, sample());
}

#[test]
fn persist_replaces_the_master_and_deletes_the_others() {
    let mut store = sample();
    assert_eq!(persist(&mut store, outcome()), GroupResult::Merged);
    assert_eq!(
        store,
        store_of(vec![
            user(2, "222", 20, vec![text("X")]),
            user(3, "111", 30, vec![text("B"), text("A")]),
            user(5, "333", 5, vec![]),
        ])
    );
}

#[test]
fn persist_lands_a_master_that_is_gone() {
    let mut store = sample();
    assert!(store.delete(3));
    assert_eq!(persist(&mut store, outcome()), GroupResult::Merged);
    assert_eq!(
        store,
        store_of(vec![
            user(2, "222", 20, vec![text("X")]),
            user(5, "333", 5, vec![]),
            user(3, "111", 30, vec![text("B"), text("A")]),
        ])
    );
}

#[test]
fn exactly_one_record_is_left_for_the_phone() {
    let mut store = sample();
    let result = process_phone(&mut store, "111");
    assert_eq!(result.phone, "111");
    assert_eq!(result.result, GroupResult::Merged);
    assert!(result.delete_failures.is_empty());
    let left = store.find_by_phone("111");
    assert_eq!(left.len(), 1);
    assert_eq!(left[0], user(3, "111", 30, vec![text("B"), text("A")]));
    assert_eq!(store.find_by_phone("222"), sample().find_by_phone("222"));
    assert_eq!(store.find_by_phone("333"), sample().find_by_phone("333"));
}

#[test]
fn merging_again_changes_nothing() {
    let mut store = sample();
    let _ = process_phone(&mut store, "111");
    let after_first = store.find_by_phone("111");
    let mut again = store_of(vec![
        user(2, "222", 20, vec![text("X")]),
        user(3, "111", 30, vec![text("B"), text("A")]),
        user(5, "333", 5, vec![]),
    ]);
    assert_eq!(store, again);
    assert_eq!(
        merge_group(&store, "111"),
        Ok(MergeOutcome { merged_record: user(3, "111", 30, vec![text("B"), text("A")]), to_delete: vec![] })
    );
    let second = process_phone(&mut again, "111");
    assert_eq!(second.result, GroupResult::Merged);
    assert_eq!(again, store);
    assert_eq!(again.find_by_phone("111"), after_first);
    // the phone number is no duplicate any more
    assert_eq!(find_groups(&store, None, 10), Vec::<DuplicateGroup>::new());
}

#[test]
fn group_that_vanished_is_skipped() {
    let mut store = sample();
    let result = process_phone(&mut store, "999");
    assert_eq!(result.result, GroupResult::SkippedEmpty);
    assert_eq!(store, sample());
}

#[test]
fn group_without_timestamp_fails_and_is_left_alone() {
    let mut undated = Record::new(7);
    undated.insert("phone".to_string(), text("111"));
    let mut store = sample();
    assert!(store.insert(undated));
    let mut expected = sample();
    let mut undated = Record::new(7);
    undated.insert("phone".to_string(), text("111"));
    assert!(expected.insert(undated));
    let result = process_phone(&mut store, "111");
    assert_eq!(result.result, GroupResult::Failed(MergeError::MissingTimestamp));
    assert_eq!(store, expected);
}

#[test]
fn persistence_asks_for_the_replacement_first() {
    let state = Persistence::begin(outcome());
    assert!(!state.is_finished());
    assert_eq!(state.result(), None);
    assert_eq!(
        state.next_request(),
        Some(StoreRequest::Replace { document: outcome().merged_record, upsert: true })
    );
}

#[test]
fn persistence_deletes_in_order_after_the_replacement() {
    let mut state = Persistence::begin(outcome());
    state.record_reply(Ok(()));
    assert_eq!(state.next_request(), Some(StoreRequest::Delete { id: 4 }));
    state.record_reply(Ok(()));
    assert!(!state.is_finished());
    assert_eq!(state.next_request(), Some(StoreRequest::Delete { id: 1 }));
    state.record_reply(Ok(()));
    assert!(state.is_finished());
    assert_eq!(state.next_request(), None);
    assert_eq!(state.result(), Some(GroupResult::Merged));
    assert!(state.delete_failures().is_empty());
}

#[test]
fn failed_replacement_ends_the_group_without_deletes() {
    let mut state = Persistence::begin(outcome());
    state.record_reply(Err(MergeError::StoreUnavailable));
    assert!(state.is_finished());
    assert_eq!(state.next_request(), None);
    assert_eq!(state.result(), Some(GroupResult::Failed(MergeError::StoreUnavailable)));
    // a late answer changes nothing
    state.record_reply(Ok(()));
    assert_eq!(state.result(), Some(GroupResult::Failed(MergeError::StoreUnavailable)));
    assert_eq!(state.next_request(), None);
}

#[test]
fn replacement_that_finds_nothing_fails_the_group() {
    let mut state = Persistence::begin(outcome());
    state.record_reply(Err(MergeError::NotFound));
    assert_eq!(state.result(), Some(GroupResult::Failed(MergeError::NotFound)));
}

#[test]
fn failed_delete_is_noted_and_the_next_is_tried() {
    let mut state = Persistence::begin(outcome());
    state.record_reply(Ok(()));
    state.record_reply(Err(MergeError::StoreUnavailable));
    assert!(!state.is_finished());
    assert_eq!(state.next_request(), Some(StoreRequest::Delete { id: 1 }));
    state.record_reply(Err(MergeError::Timeout));
    assert!(state.is_finished());
    assert_eq!(state.result(), Some(GroupResult::Merged));
    assert_eq!(
        state.delete_failures(),
        &vec![
            DeleteFailure { id: 4, error: MergeError::StoreUnavailable },
            DeleteFailure { id: 1, error: MergeError::Timeout },
        ]
    );
}

#[test]
fn delete_that_finds_nothing_counts_as_done() {
    let mut state = Persistence::begin(outcome());
    state.record_reply(Ok(()));
    state.record_reply(Err(MergeError::NotFound));
    state.record_reply(Ok(()));
    assert!(state.is_finished());
    assert_eq!(state.result(), Some(GroupResult::Merged));
    assert!(state.delete_failures().is_empty());
}

#[test]
fn merge_without_others_only_replaces() {
    let alone = MergeOutcome { merged_record: user(3, "111", 30, vec![]), to_delete: vec![] };
    let mut state = Persistence::begin(alone);
    assert!(!state.is_finished());
    state.record_reply(Ok(()));
    assert!(state.is_finished());
    assert_eq!(state.next_request(), None);
    assert_eq!(state.result(), Some(GroupResult::Merged));
}

#[test]
fn group_that_cannot_be_merged_is_skipped_or_failed() {
    assert_eq!(GroupResult::from_error(MergeError::EmptyGroup), GroupResult::SkippedEmpty);
    assert_eq!(
        GroupResult::from_error(MergeError::MissingTimestamp),
        GroupResult::Failed(MergeError::MissingTimestamp)
    );
    assert_eq!(
        GroupResult::from_error(MergeError::StoreUnavailable),
        GroupResult::Failed(MergeError::StoreUnavailable)
    );
    assert_eq!(GroupResult::from_error(MergeError::NotFound), GroupResult::Failed(MergeError::NotFound));
    assert_eq!(GroupResult::from_error(MergeError::Timeout), GroupResult::Failed(MergeError::Timeout));
}
