use timpani_o::hyperperiod::{HyperperiodError, HyperperiodManager};
use timpani_o::task::Task;

fn make_task(workload_id: &str, period_us: u64) -> Task {
    Task {
        workload_id: workload_id.into(),
        period_us,
        ..Default::default()
    }
}

#[test]
fn basic_hyperperiod_two_periods() {
    let tasks = vec![make_task("w1", 1_000), make_task("w1", 2_000)];
    let mut mgr = HyperperiodManager::new();
    let info = mgr.calculate_hyperperiod("w1", &tasks).unwrap();
    assert_eq!(info.hyperperiod_us, 2_000);
    assert_eq!(info.task_count, 2);
}

#[test]
fn hyperperiod_three_periods_lcm() {
    let tasks = vec![
        make_task("w1", 1_000),
        make_task("w1", 2_000),
        make_task("w1", 5_000),
    ];
    let mut mgr = HyperperiodManager::new();
    let info = mgr.calculate_hyperperiod("w1", &tasks).unwrap();
    assert_eq!(info.hyperperiod_us, 10_000);
}

#[test]
fn hyperperiod_all_same_period() {
    let tasks = vec![
        make_task("w1", 5_000),
        make_task("w1", 5_000),
        make_task("w1", 5_000),
    ];
    let mut mgr = HyperperiodManager::new();
    let info = mgr.calculate_hyperperiod("w1", &tasks).unwrap();
    assert_eq!(info.hyperperiod_us, 5_000);
    assert_eq!(info.unique_periods.len(), 1);
    assert_eq!(info.task_count, 3);
}

#[test]
fn hyperperiod_single_task() {
    let tasks = vec![make_task("w1", 4_000)];
    let mut mgr = HyperperiodManager::new();
    let info = mgr.calculate_hyperperiod("w1", &tasks).unwrap();
    assert_eq!(info.hyperperiod_us, 4_000);
}

#[test]
fn filters_to_matching_workload_only() {
    let tasks = vec![
        make_task("w1", 1_000),
        make_task("w2", 3_000),
        make_task("w1", 2_000),
    ];
    let mut mgr = HyperperiodManager::new();
    let info = mgr.calculate_hyperperiod("w1", &tasks).unwrap();
    assert_eq!(info.hyperperiod_us, 2_000);
    assert_eq!(info.task_count, 2);
}

#[test]
fn empty_tasks_returns_no_valid_periods_error() {
    let mut mgr = HyperperiodManager::new();
    let result = mgr.calculate_hyperperiod("w1", &[]);
    assert_eq!(result.unwrap_err(), HyperperiodError::NoValidPeriods);
}

#[test]
fn all_zero_periods_returns_no_valid_periods_error() {
    let tasks = vec![make_task("w1", 0), make_task("w1", 0)];
    let mut mgr = HyperperiodManager::new();
    let result = mgr.calculate_hyperperiod("w1", &tasks);
    assert_eq!(result.unwrap_err(), HyperperiodError::NoValidPeriods);
}

#[test]
fn no_matching_workload_returns_no_valid_periods_error() {
    let tasks = vec![make_task("w2", 1_000)];
    let mut mgr = HyperperiodManager::new();
    let result = mgr.calculate_hyperperiod("w1", &tasks);
    assert_eq!(result.unwrap_err(), HyperperiodError::NoValidPeriods);
}

#[test]
fn hyperperiod_exceeding_limit_returns_too_large_error() {
    let tasks = vec![make_task("w1", 1_000_000), make_task("w1", 7_000_000)];
    let mut mgr = HyperperiodManager::with_limit(5_000_000);
    let result = mgr.calculate_hyperperiod("w1", &tasks);
    assert!(matches!(
        result,
        Err(HyperperiodError::TooLarge {
            value_us: 7_000_000,
            ..
        })
    ));
}

#[test]
fn hyperperiod_at_exactly_the_limit_is_accepted() {
    let tasks = vec![make_task("w1", 5_000_000)];
    let mut mgr = HyperperiodManager::with_limit(5_000_000);
    let info = mgr.calculate_hyperperiod("w1", &tasks).unwrap();
    assert_eq!(info.hyperperiod_us, 5_000_000);
}

#[test]
fn get_returns_stored_info() {
    let tasks = vec![make_task("w1", 1_000)];
    let mut mgr = HyperperiodManager::new();
    mgr.calculate_hyperperiod("w1", &tasks).unwrap();
    assert!(mgr.has("w1"));
    assert_eq!(mgr.get("w1").unwrap().hyperperiod_us, 1_000);
}

#[test]
fn get_returns_none_for_unknown_workload() {
    let mgr = HyperperiodManager::new();
    assert!(!mgr.has("unknown"));
    assert!(mgr.get("unknown").is_none());
}

#[test]
fn clear_workload_removes_entry() {
    let tasks = vec![make_task("w1", 1_000)];
    let mut mgr = HyperperiodManager::new();
    mgr.calculate_hyperperiod("w1", &tasks).unwrap();
    assert!(mgr.has("w1"));
    mgr.clear_workload("w1");
    assert!(!mgr.has("w1"));
}

#[test]
fn clear_workload_noop_for_unknown() {
    let mut mgr = HyperperiodManager::new();
    mgr.clear_workload("nonexistent");
}

#[test]
fn clear_all_removes_everything() {
    let t1 = vec![make_task("w1", 1_000)];
    let t2 = vec![make_task("w2", 2_000)];
    let mut mgr = HyperperiodManager::new();
    mgr.calculate_hyperperiod("w1", &t1).unwrap();
    mgr.calculate_hyperperiod("w2", &t2).unwrap();
    assert_eq!(mgr.all().len(), 2);
    mgr.clear_all();
    assert_eq!(mgr.all().len(), 0);
}

#[test]
fn recalculate_overwrites_previous_result() {
    let tasks_v1 = vec![make_task("w1", 1_000)];
    let tasks_v2 = vec![make_task("w1", 3_000)];

    let mut mgr = HyperperiodManager::new();
    mgr.calculate_hyperperiod("w1", &tasks_v1).unwrap();
    assert_eq!(mgr.get("w1").unwrap().hyperperiod_us, 1_000);

    mgr.calculate_hyperperiod("w1", &tasks_v2).unwrap();
    assert_eq!(mgr.get("w1").unwrap().hyperperiod_us, 3_000);
}

#[test]
fn unique_periods_are_sorted_and_deduped() {
    let tasks = vec![
        make_task("w1", 5_000),
        make_task("w1", 1_000),
        make_task("w1", 5_000),
        make_task("w1", 2_000),
    ];
    let mut mgr = HyperperiodManager::new();
    let info = mgr.calculate_hyperperiod("w1", &tasks).unwrap();
    assert_eq!(info.unique_periods, vec![1_000, 2_000, 5_000]);
}

#[test]
fn default_limit_is_one_hour() {
    let mut mgr = HyperperiodManager::new();
    let ok = vec![make_task("w1", 3_600_000_000)];
    assert_eq!(mgr.calculate_hyperperiod("w1", &ok).unwrap().hyperperiod_us, 3_600_000_000);
    let over = vec![make_task("w2", 3_600_000_001)];
    assert_eq!(
        mgr.calculate_hyperperiod("w2", &over).unwrap_err(),
        HyperperiodError::TooLarge { value_us: 3_600_000_001, limit_us: 3_600_000_000 }
    );
    assert!(!mgr.has("w2"));
}

#[test]
fn overflow_is_reported_and_nothing_stored() {
    let a = 1u64 << 63;
    let b = (1u64 << 63) + 2;
    let tasks = vec![make_task("w1", b), make_task("w1", a)];
    let mut mgr = HyperperiodManager::with_limit(u64::MAX);
    assert_eq!(
        mgr.calculate_hyperperiod("w1", &tasks).unwrap_err(),
        HyperperiodError::Overflow { a, b }
    );
    assert!(!mgr.has("w1"));
    assert_eq!(mgr.all().len(), 0);
}

#[test]
fn clearing_one_workload_keeps_the_others() {
    let mut mgr = HyperperiodManager::new();
    mgr.calculate_hyperperiod("w1", &[make_task("w1", 1_000)]).unwrap();
    mgr.calculate_hyperperiod("w2", &[make_task("w2", 2_000)]).unwrap();
    mgr.calculate_hyperperiod("w3", &[make_task("w3", 3_000)]).unwrap();
    mgr.clear_workload("w2");
    assert_eq!(mgr.get("w1").unwrap().hyperperiod_us, 1_000);
    assert!(mgr.get("w2").is_none());
    assert_eq!(mgr.get("w3").unwrap().hyperperiod_us, 3_000);
    assert_eq!(mgr.get("w3").unwrap().workload_id, "w3");
}
