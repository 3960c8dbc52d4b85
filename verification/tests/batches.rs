use mongo_utils::batch::merge;
use mongo_utils::batch::run;
use mongo_utils::coordinator::Coordinator;
use mongo_utils::error::MergeError;
use mongo_utils::finder::DuplicateGroup;
use mongo_utils::persist::DeleteFailure;
use mongo_utils::persist::GroupResult;
use mongo_utils::record::Record;
use mongo_utils::report::BatchReport;
use mongo_utils::report::FailedDelete;
use mongo_utils::report::Failure;
use mongo_utils::report::TaskOutcome;
use mongo_utils::store::Store;
use mongo_utils::value::Value;
use mongo_utils::window::TimeWindow;

fn text(s: &str) -> Value {
    Value::Text(s.to_string())
}

fn user(id: u128, phone: &str, updated_at: i64, accounts: Vec<Value>) -> Record {
    let mut record = Record::new(id);
    record.insert("phone".to_string(), text(phone));
    record.insert("updatedAt".to_string(), Value::Timestamp(updated_at));
    record.insert("accounts".to_string(), Value::Sequence(accounts));
    record
}

fn undated(id: u128, phone: &str) -> Record {
    let mut record = Record::new(id);
    record.insert("phone".to_string(), text(phone));
    record
}

fn store_of(records: Vec<Record>) -> Store {
    let mut store = Store::new();
    for record in records {
        assert!(store.insert(record));
    }
    store
}

fn sample() -> Store {
    store_of(vec![
        user(1, "111", 10, vec![text("A")]),
        user(2, "222", 20, vec![text("X")]),
        user(3, "111", 30, vec![text("B")]),
        user(4, "111", 20, vec![]),
        user(5, "333", 5, vec![text("P")]),
        user(6, "222", 25, vec![text("Y")]),
        undated(7, "444"),
        user(8, "444", 1, vec![]),
        user(9, "555", 1, vec![]),
        user(10, "333", 5, vec![text("Q")]),
    ])
}

fn group(phone: &str, count: usize) -> DuplicateGroup {
    DuplicateGroup { phone: phone.to_string(), count }
}

fn ended(phone: &str, result: GroupResult) -> TaskOutcome {
    TaskOutcome { phone: phone.to_string(), result, delete_failures: Vec::new() }
}

fn groups() -> Vec<DuplicateGroup> {
    vec![group("111", 3), group("222", 2), group("333", 2), group("444", 2), group("999", 2)]
}

#[test]
fn batch_merges_every_group_and_reports() {
    let mut store = sample();
    let report = run(&mut store, &groups(), 2);
    assert_eq!(report.merged, 3);
    assert_eq!(report.skipped_empty, 1);
    assert_eq!(report.failed, 1);
    assert_eq!(report.failures, vec![Failure { phone: "444".to_string(), error: MergeError::MissingTimestamp }]);
    assert!(report.delete_failures.is_empty());
    assert_eq!(
        store,
        store_of(vec![
            user(3, "111", 30, vec![text("B"), text("A")]),
            user(5, "333", 5, vec![text("P"), text("Q")]),
            user(6, "222", 25, vec![text("Y"), text("X")]),
            undated(7, "444"),
            user(8, "444", 1, vec![]),
            user(9, "555", 1, vec![]),
        ])
    );
}

#[test]
fn concurrency_does_not_change_the_outcome() {
    let mut alone = sample();
    let sequential = run(&mut alone, &groups(), 1);
    for limit in [2usize, 3, 4, 5, 10, 1000] {
        let mut store = sample();
        let report = run(&mut store, &groups(), limit);
        assert_eq!(report, sequential);
        assert_eq!(store, alone);
    }
}

#[test]
fn one_failing_group_does_not_stop_the_others() {
    let mut store = sample();
    let report = run(&mut store, &vec![group("444", 2), group("111", 3)], 1);
    assert_eq!(report.failed, 1);
    assert_eq!(report.merged, 1);
    assert_eq!(store.find_by_phone("111").len(), 1);
    assert_eq!(store.find_by_phone("444").len(), 2);
    assert!(!report.every_group_failed());
}

#[test]
fn batch_without_groups_reports_nothing() {
    let mut store = sample();
    let report = run(&mut store, &Vec::new(), 3);
    assert_eq!(report, BatchReport::new());
    assert_eq!(store, sample());
    assert!(!report.every_group_failed());
}

#[test]
fn driver_finds_then_merges() {
    let mut store = sample();
    let (found, report) = merge(&mut store, None, 3, 10);
    assert_eq!(found, vec![group("111", 3), group("222", 2), group("333", 2)]);
    assert_eq!(report.merged, 3);
    assert_eq!(report.failed, 0);
    assert_eq!(report.skipped_empty, 0);
    assert_eq!(store.find_by_phone("111").len(), 1);
    assert_eq!(store.find_by_phone("222").len(), 1);
    assert_eq!(store.find_by_phone("333").len(), 1);
    assert_eq!(store.find_by_phone("444").len(), 2);
    let (rest, second) = merge(&mut store, None, 3, 10);
    assert_eq!(rest, vec![group("444", 2)]);
    assert_eq!(second.failed, 1);
    assert!(second.every_group_failed());
    assert_eq!(second.failures[0].error.name(), "MissingTimestamp");
}

#[test]
fn driver_respects_the_window() {
    let mut store = sample();
    let window = TimeWindow { start: 20, end: 31 };
    let (found, report) = merge(&mut store, Some(window), 10, 10);
    // inside the window: 111 at 30 and 20, 222 at 20 and 25
    assert_eq!(found, vec![group("111", 2), group("222", 2)]);
    assert_eq!(report.merged, 2);
    // the merge itself takes every record of the phone number
    assert_eq!(store.find_by_phone("111").len(), 1);
    assert_eq!(store.get(3).and_then(|r| r.accounts()), Some(&vec![text("B"), text("A")]));
    assert_eq!(store.find_by_phone("333").len(), 2);
}

#[test]
fn coordinator_keeps_to_its_limit() {
    let mut coordinator = Coordinator::new(&groups(), 2);
    assert_eq!(coordinator.in_flight(), 0);
    assert!(!coordinator.is_finished());
    assert_eq!(coordinator.start_next(), Some("111".to_string()));
    assert_eq!(coordinator.start_next(), Some("222".to_string()));
    assert_eq!(coordinator.start_next(), None);
    assert_eq!(coordinator.in_flight(), 2);
    assert!(coordinator.settle(ended("222", GroupResult::Merged)));
    assert_eq!(coordinator.in_flight(), 1);
    assert_eq!(coordinator.start_next(), Some("333".to_string()));
    assert_eq!(coordinator.start_next(), None);
}

#[test]
fn coordinator_takes_only_what_is_in_flight() {
    let mut coordinator = Coordinator::new(&groups(), 3);
    assert!(!coordinator.settle(ended("111", GroupResult::Merged)));
    assert_eq!(coordinator.start_next(), Some("111".to_string()));
    assert!(!coordinator.settle(ended("222", GroupResult::Merged)));
    assert!(coordinator.settle(ended("111", GroupResult::Merged)));
    assert!(!coordinator.settle(ended("111", GroupResult::Merged)));
    assert_eq!(coordinator.report().merged, 1);
    assert_eq!(coordinator.in_flight(), 0);
}

#[test]
fn coordinator_reports_every_group_whatever_the_order() {
    let mut coordinator = Coordinator::new(&groups(), 5);
    while coordinator.start_next().is_some() {}
    assert_eq!(coordinator.in_flight(), 5);
    assert!(coordinator.settle(ended("999", GroupResult::Failed(MergeError::EmptyGroup))));
    assert!(coordinator.settle(ended("333", GroupResult::Failed(MergeError::Timeout))));
    assert!(coordinator.settle(TaskOutcome {
        phone: "111".to_string(),
        result: GroupResult::Merged,
        delete_failures: vec![DeleteFailure { id: 4, error: MergeError::StoreUnavailable }],
    }));
    assert!(coordinator.settle(ended("444", GroupResult::Failed(MergeError::StoreUnavailable))));
    assert!(!coordinator.is_finished());
    assert!(coordinator.settle(ended("222", GroupResult::SkippedEmpty)));
    assert!(coordinator.is_finished());
    let report = coordinator.finish();
    assert_eq!(report.merged, 1);
    assert_eq!(report.skipped_empty, 2);
    assert_eq!(report.failed, 2);
    assert_eq!(
        report.failures,
        vec![
            Failure { phone: "333".to_string(), error: MergeError::Timeout },
            Failure { phone: "444".to_string(), error: MergeError::StoreUnavailable },
        ]
    );
    assert_eq!(
        report.delete_failures,
        vec![FailedDelete { phone: "111".to_string(), id: 4, error: MergeError::StoreUnavailable }]
    );
    assert_eq!(report.total(), 5);
    assert!(!report.every_group_failed());
}

#[test]
fn report_counts_each_kind() {
    let mut report = BatchReport::new();
    assert_eq!(report.total(), 0);
    report.record(ended("1", GroupResult::Merged));
    report.record(ended("2", GroupResult::SkippedEmpty));
    report.record(ended("3", GroupResult::Failed(MergeError::NotFound)));
    report.record(ended("4", GroupResult::Failed(MergeError::EmptyGroup)));
    assert_eq!(report.merged, 1);
    assert_eq!(report.skipped_empty, 2);
    assert_eq!(report.failed, 1);
    assert_eq!(report.failures, vec![Failure { phone: "3".to_string(), error: MergeError::NotFound }]);
    assert_eq!(report.total(), 4);
}

#[test]
fn report_knows_when_every_group_failed() {
    let mut report = BatchReport::new();
    assert!(!report.every_group_failed());
    report.record(ended("1", GroupResult::Failed(MergeError::StoreUnavailable)));
    report.record(ended("2", GroupResult::Failed(MergeError::Timeout)));
    assert!(report.every_group_failed());
    report.record(ended("3", GroupResult::SkippedEmpty));
    assert!(!report.every_group_failed());
}

#[test]
fn groups_with_one_phone_number_do_not_overlap() {
    let mut coordinator = Coordinator::new(&vec![group("111", 2), group("111", 2), group("222", 2)], 3);
    assert_eq!(coordinator.start_next(), Some("111".to_string()));
    // the next group has the phone number of one in flight: it waits, and
    // the groups behind it with it
    assert_eq!(coordinator.start_next(), None);
    assert_eq!(coordinator.in_flight(), 1);
    assert!(coordinator.settle(ended("111", GroupResult::Merged)));
    assert_eq!(coordinator.start_next(), Some("111".to_string()));
    assert_eq!(coordinator.start_next(), Some("222".to_string()));
    assert_eq!(coordinator.start_next(), None);
}

#[test]
fn repeated_group_is_handled_as_one_after_the_other() {
    let repeated = vec![group("111", 3), group("222", 2), group("111", 3), group("111", 3)];
    let mut alone = sample();
    let sequential = run(&mut alone, &repeated, 1);
    assert_eq!(sequential.merged, 4);
    for limit in [2usize, 3, 4, 8] {
        let mut store = sample();
        assert_eq!(run(&mut store, &repeated, limit), sequential);
        assert_eq!(store, alone);
    }
    assert_eq!(alone.find_by_phone("111").len(), 1);
    assert_eq!(alone.get(3).and_then(|r| r.accounts()), Some(&vec![text("B"), text("A")]));
}

#[test]
fn order_of_the_groups_does_not_change_the_counts() {
    let mut forward = sample();
    let mut backward = sample();
    let mut reversed = groups();
    reversed.reverse();
    let a = run(&mut forward, &groups(), 2);
    let b = run(&mut backward, &reversed, 2);
    assert_eq!((a.merged, a.skipped_empty, a.failed), (b.merged, b.skipped_empty, b.failed));
    assert_eq!(a.failures, b.failures);
    assert_eq!(forward.find_by_phone("111"), backward.find_by_phone("111"));
    assert_eq!(forward.find_by_phone("222"), backward.find_by_phone("222"));
    assert_eq!(forward.find_by_phone("333"), backward.find_by_phone("333"));
}
