use tasktrack::store::Store;
use tasktrack::timing::{add_time_delta, complete_task, format_duration, TimingError};

#[test]
fn five_and_a_half_minutes_stores_330() {
    let mut store = Store::new();
    let tid = store.add_task("measure me", 1, "2024-01-01 00:00:00");
    assert!(store.complete_task_db(tid, "2024-01-01 00:05:30"));
    let r = add_time_delta(&mut store, tid);
    assert_eq!(r, Ok(Some(())));
    let task = store.get_task_by_id(tid).expect("task exists");
    assert_eq!(task.time_delta, Some(330));
}

#[test]
fn unset_end_date_is_an_error_not_a_stored_value() {
    let mut store = Store::new();
    let tid = store.add_task("open ended", 1, "2024-01-01 00:00:00");
    let r = add_time_delta(&mut store, tid);
    assert_eq!(r, Err(TimingError::EndDateMissing));
    let task = store.get_task_by_id(tid).expect("task exists");
    assert_eq!(task.time_delta, None);
}

#[test]
fn malformed_start_date_is_fatal_for_the_operation() {
    let mut store = Store::new();
    let tid = store.add_task("bad start", 1, "not a timestamp");
    assert!(store.complete_task_db(tid, "2024-01-01 00:05:30"));
    let r = add_time_delta(&mut store, tid);
    assert_eq!(r, Err(TimingError::StartDateUnparsable));
    assert_eq!(store.get_task_by_id(tid).unwrap().time_delta, None);
}

#[test]
fn malformed_end_date_is_fatal_for_the_operation() {
    let mut store = Store::new();
    let tid = store.add_task("bad end", 1, "2024-01-01 00:00:00");
    assert!(store.complete_task_db(tid, "whenever"));
    let r = add_time_delta(&mut store, tid);
    assert_eq!(r, Err(TimingError::EndDateUnparsable));
    assert_eq!(store.get_task_by_id(tid).unwrap().time_delta, None);
}

#[test]
fn completing_a_nonexistent_task_returns_false_and_mutates_nothing() {
    let mut store = Store::new();
    let tid = store.add_task("bystander", 1, "2024-01-01 00:00:00");
    assert!(!store.complete_task_db(200, "2024-01-01 00:05:30"));
    assert_eq!(store.tasks.len(), 1);
    let task = store.get_task_by_id(tid).unwrap();
    assert_eq!(task.task_end_date, None);
    assert_eq!(task.time_delta, None);
}

#[test]
fn computing_delta_of_a_nonexistent_task_is_the_no_op_result() {
    let mut store = Store::new();
    assert_eq!(add_time_delta(&mut store, 9), Ok(None));
}

#[test]
fn fractional_seconds_and_zone_marker_parse() {
    let mut store = Store::new();
    let tid = store.add_task("fractions", 1, "2024-01-01 00:00:00.250 UTC");
    assert!(store.complete_task_db(tid, "2024-01-01 00:00:02.750 UTC"));
    assert_eq!(add_time_delta(&mut store, tid), Ok(Some(())));
    assert_eq!(store.get_task_by_id(tid).unwrap().time_delta, Some(2));
}

#[test]
fn inconsistent_order_yields_a_negative_delta() {
    let mut store = Store::new();
    let tid = store.add_task("backwards", 1, "2024-01-01 00:10:00");
    assert!(store.complete_task_db(tid, "2024-01-01 00:00:00"));
    assert_eq!(add_time_delta(&mut store, tid), Ok(Some(())));
    assert_eq!(store.get_task_by_id(tid).unwrap().time_delta, Some(-600));
}

#[test]
fn complete_task_stamps_the_clock_and_the_delta_becomes_computable() {
    let mut store = Store::new();
    let tid = store.add_task("live", 1, "2024-01-01 00:00:00");
    assert!(complete_task(&mut store, tid));
    let task = store.get_task_by_id(tid).expect("task exists");
    assert!(task.task_end_date.is_some());
    assert_eq!(add_time_delta(&mut store, tid), Ok(Some(())));
    let task = store.get_task_by_id(tid).expect("task exists");
    assert!(task.time_delta.expect("delta stored") > 0);
}

#[test]
fn complete_task_on_a_nonexistent_id_returns_false() {
    let mut store = Store::new();
    assert!(!complete_task(&mut store, 5));
    assert!(store.tasks.is_empty());
}

#[test]
fn format_duration_exact_values() {
    assert_eq!(format_duration(0), "0 seconds");
    assert_eq!(format_duration(59), "59 seconds");
    assert_eq!(format_duration(60), "1 minutes");
    assert_eq!(format_duration(330), "5 minutes, 30 seconds");
    assert_eq!(format_duration(3600), "1 hours");
    assert_eq!(format_duration(90061), "1 days, 1 hours, 1 minutes, 1 seconds");
    assert_eq!(format_duration(31536000), "1 years");
    assert_eq!(format_duration(31536000 + 2592000 + 1), "1 years, 1 months, 1 seconds");
}
