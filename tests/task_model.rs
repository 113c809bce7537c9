use timpani_o::task::{CpuAffinity, SchedPolicy, SchedTask, Task};

#[test]
fn sched_policy_round_trips_known_values() {
    assert_eq!(SchedPolicy::from_proto_int(0), SchedPolicy::Normal);
    assert_eq!(SchedPolicy::from_proto_int(1), SchedPolicy::Fifo);
    assert_eq!(SchedPolicy::from_proto_int(2), SchedPolicy::RoundRobin);
}

#[test]
fn sched_policy_unknown_proto_value_maps_to_normal() {
    assert_eq!(SchedPolicy::from_proto_int(99), SchedPolicy::Normal);
    assert_eq!(SchedPolicy::from_proto_int(-1), SchedPolicy::Normal);
}

#[test]
fn sched_policy_to_linux_int_matches_cpp_constants() {
    assert_eq!(SchedPolicy::Normal.to_linux_int(), 0);
    assert_eq!(SchedPolicy::Fifo.to_linux_int(), 1);
    assert_eq!(SchedPolicy::RoundRobin.to_linux_int(), 2);
}

#[test]
fn cpu_affinity_zero_is_any() {
    assert_eq!(CpuAffinity::from_proto(0), CpuAffinity::Any);
}

#[test]
fn cpu_affinity_u64_max_is_any() {
    assert_eq!(CpuAffinity::from_proto(u64::MAX), CpuAffinity::Any);
}

#[test]
fn cpu_affinity_0xffffffff_is_any() {
    assert_eq!(
        CpuAffinity::from_proto(0xFFFF_FFFF),
        CpuAffinity::Pinned(0xFFFF_FFFF)
    );
}

#[test]
fn cpu_affinity_bitmask_allows_correct_cpus() {
    let aff = CpuAffinity::Pinned(0b0000_1100);
    assert!(!aff.allows_cpu(0));
    assert!(!aff.allows_cpu(1));
    assert!(aff.allows_cpu(2));
    assert!(aff.allows_cpu(3));
    assert!(!aff.allows_cpu(4));
}

#[test]
fn cpu_affinity_any_allows_all_cpus() {
    let aff = CpuAffinity::Any;
    for cpu in 0..64u32 {
        assert!(aff.allows_cpu(cpu));
    }
}

#[test]
fn cpu_affinity_lowest_cpu_extracts_correct_bit() {
    assert_eq!(CpuAffinity::Pinned(0x0C).lowest_cpu(), Some(2));
    assert_eq!(CpuAffinity::Pinned(1 << 5).lowest_cpu(), Some(5));
}

#[test]
fn cpu_affinity_any_has_no_lowest_cpu() {
    assert_eq!(CpuAffinity::Any.lowest_cpu(), None);
}

#[test]
fn cpu_affinity_high_bits_and_large_ids() {
    assert_eq!(CpuAffinity::Pinned(1 << 63).lowest_cpu(), Some(63));
    assert_eq!(CpuAffinity::Pinned(0).lowest_cpu(), None);
    assert!(CpuAffinity::Pinned(1 << 63).allows_cpu(63));
    assert!(!CpuAffinity::Pinned(u64::MAX - 1).allows_cpu(64));
    assert!(CpuAffinity::Any.allows_cpu(1000));
}

#[test]
fn task_utilization_is_correct() {
    let task = Task {
        period_us: 1_000_000,
        runtime_us: 100_000,
        ..Default::default()
    };
    assert!((task.utilization() as f64 / 1e9 - 0.1).abs() < 1e-9);
}

#[test]
fn task_utilization_zero_period_returns_zero() {
    let task = Task {
        period_us: 0,
        runtime_us: 100,
        ..Default::default()
    };
    assert_eq!(task.utilization(), 0);
}

#[test]
fn task_utilization_rounds_up() {
    let third = Task { period_us: 3, runtime_us: 1, ..Default::default() };
    assert_eq!(third.utilization(), 333_333_334);
    let exact = Task { period_us: 10_000, runtime_us: 8_500, ..Default::default() };
    assert_eq!(exact.utilization(), 850_000_000);
    let huge = Task { period_us: 1, runtime_us: u64::MAX, ..Default::default() };
    assert_eq!(huge.utilization(), u64::MAX as u128 * 1_000_000_000);
}

#[test]
fn task_is_assigned_requires_both_node_and_cpu() {
    let mut task = Task::default();
    assert!(!task.is_assigned());

    task.assigned_node = "node01".into();
    assert!(
        !task.is_assigned(),
        "node without cpu is not fully assigned"
    );

    task.assigned_cpu = Some(2);
    assert!(task.is_assigned());
}

#[test]
fn task_with_cpu_but_no_node_is_not_assigned() {
    let task = Task { assigned_cpu: Some(1), ..Default::default() };
    assert!(!task.is_assigned());
}

#[test]
fn sched_task_from_task_converts_units_to_nanoseconds() {
    let task = Task {
        name: "t1".into(),
        assigned_node: "node01".into(),
        assigned_cpu: Some(3),
        policy: SchedPolicy::Fifo,
        priority: 50,
        period_us: 1_000,
        runtime_us: 100,
        deadline_us: 1_000,
        release_time_us: 0,
        max_dmiss: 3,
        ..Default::default()
    };
    let st = SchedTask::from_task(&task);

    assert_eq!(st.name, "t1");
    assert_eq!(st.assigned_node, "node01");
    assert_eq!(st.assigned_cpu, 3);
    assert_eq!(st.period_ns, 1_000_000);
    assert_eq!(st.runtime_ns, 100_000);
    assert_eq!(st.deadline_ns, 1_000_000);
    assert_eq!(st.policy, SchedPolicy::Fifo);
    assert_eq!(st.priority, 50);
    assert_eq!(st.max_dmiss, 3);
}

#[test]
fn sched_task_period_ns_does_not_overflow_on_large_values() {
    let task = Task {
        name: "big".into(),
        assigned_node: "n".into(),
        assigned_cpu: Some(0),
        period_us: u64::MAX / 1_000 + 1,
        ..Default::default()
    };
    let st = SchedTask::from_task(&task);
    assert_eq!(st.period_ns, u64::MAX);
}

#[test]
fn sched_task_keeps_release_time_and_largest_exact_conversion() {
    let task = Task {
        name: "edge".into(),
        assigned_node: "n".into(),
        assigned_cpu: Some(1),
        runtime_us: u64::MAX / 1_000,
        release_time_us: 250,
        ..Default::default()
    };
    let st = SchedTask::from_task(&task);
    assert_eq!(st.runtime_ns, (u64::MAX / 1_000) * 1_000);
    assert_eq!(st.release_time_us, 250);
    assert_eq!(st.period_ns, 0);
}
