use std::sync::Arc;

use timpani_o::config::{NodeConfig, NodeConfigManager};
use timpani_o::scheduler::{AdmissionReason, GlobalScheduler, SchedulerError};
use timpani_o::task::{CpuAffinity, NodeSchedMap, Task};

fn node(name: &str, cpus: Vec<u32>, mem: u64) -> NodeConfig {
    NodeConfig {
        name: name.to_string(),
        available_cpus: cpus,
        max_memory_mb: mem,
        architecture: String::new(),
        location: String::new(),
        description: String::new(),
    }
}

/// node01: CPUs [2, 3], 4096 MB; node02: CPUs [2, 3, 4, 5], 8192 MB.
fn two_node_scheduler() -> GlobalScheduler {
    let mut mgr = NodeConfigManager::new();
    mgr.load_nodes(vec![
        node("node01", vec![2, 3], 4096),
        node("node02", vec![2, 3, 4, 5], 8192),
    ]);
    GlobalScheduler::new(Arc::new(mgr))
}

fn make_task(name: &str, workload: &str, target: &str, period_us: u64, runtime_us: u64) -> Task {
    Task {
        name: name.to_string(),
        workload_id: workload.to_string(),
        target_node: target.to_string(),
        period_us,
        runtime_us,
        deadline_us: period_us,
        ..Default::default()
    }
}

fn total(map: &NodeSchedMap) -> usize {
    map.nodes.iter().map(|e| e.tasks.len()).sum()
}

fn layout(map: &NodeSchedMap) -> Vec<(String, Vec<(String, u32)>)> {
    map.nodes
        .iter()
        .map(|e| {
            (
                e.node.clone(),
                e.tasks.iter().map(|t| (t.name.clone(), t.assigned_cpu)).collect(),
            )
        })
        .collect()
}

#[test]
fn target_node_priority_assigns_correct_node() {
    let sched = two_node_scheduler();
    let tasks = vec![make_task("t1", "wl1", "node01", 10_000, 1_000)];
    let map = sched.schedule(tasks, "target_node_priority").unwrap();

    assert!(map.contains_key("node01"), "task should be on node01");
    assert!(!map.contains_key("node02"));
    assert_eq!(map.get("node01").unwrap().len(), 1);
    assert_eq!(map.get("node01").unwrap()[0].name, "t1");
}

#[test]
fn target_node_priority_respects_pinned_affinity() {
    let sched = two_node_scheduler();
    let task = Task {
        name: "pinned".to_string(),
        workload_id: "wl1".to_string(),
        target_node: "node01".to_string(),
        affinity: CpuAffinity::Pinned(0b0100),
        period_us: 10_000,
        runtime_us: 1_000,
        deadline_us: 10_000,
        ..Default::default()
    };
    let map = sched.schedule(vec![task], "target_node_priority").unwrap();
    assert_eq!(map.get("node01").unwrap()[0].assigned_cpu, 2);
}

#[test]
fn target_node_priority_missing_target_node_returns_error() {
    let sched = two_node_scheduler();
    let task = Task {
        name: "no_target".to_string(),
        workload_id: "wl1".to_string(),
        target_node: String::new(),
        period_us: 10_000,
        runtime_us: 1_000,
        ..Default::default()
    };
    let err = sched.schedule(vec![task], "target_node_priority").unwrap_err();
    assert!(matches!(err, SchedulerError::MissingTargetNode { .. }));
}

#[test]
fn target_node_priority_missing_workload_id_returns_error() {
    let sched = two_node_scheduler();
    let task = Task {
        name: "no_wl".to_string(),
        workload_id: String::new(),
        target_node: "node01".to_string(),
        period_us: 10_000,
        runtime_us: 1_000,
        ..Default::default()
    };
    let err = sched.schedule(vec![task], "target_node_priority").unwrap_err();
    assert!(matches!(err, SchedulerError::MissingWorkloadId { .. }));
}

#[test]
fn least_loaded_picks_emptiest_node() {
    let sched = two_node_scheduler();
    let tasks = vec![
        make_task("t1", "wl1", "", 10_000, 1_000),
        make_task("t2", "wl1", "", 10_000, 1_000),
    ];
    let map = sched.schedule(tasks, "least_loaded").unwrap();
    assert_eq!(total(&map), 2, "both tasks must be scheduled");
}

#[test]
fn least_loaded_single_task_gets_emptiest_node() {
    let sched = two_node_scheduler();
    let tasks = vec![make_task("t1", "wl1", "", 10_000, 1_000)];
    let map = sched.schedule(tasks, "least_loaded").unwrap();
    assert_eq!(total(&map), 1);
}

#[test]
fn best_fit_decreasing_schedules_all_tasks() {
    let sched = two_node_scheduler();
    let tasks = vec![
        make_task("small", "wl1", "", 10_000, 500),
        make_task("large", "wl1", "", 10_000, 3_000),
        make_task("medium", "wl1", "", 10_000, 1_500),
    ];
    let map = sched.schedule(tasks, "best_fit_decreasing").unwrap();
    assert_eq!(total(&map), 3);
}

#[test]
fn best_fit_decreasing_sorts_tasks_largest_first() {
    let sched = two_node_scheduler();
    let tasks = vec![
        make_task("small", "wl1", "node01", 10_000, 500),
        make_task("large", "wl1", "node01", 10_000, 3_000),
        make_task("medium", "wl1", "node01", 10_000, 1_500),
    ];
    let map = sched.schedule(tasks, "best_fit_decreasing").unwrap();
    if let Some(node_tasks) = map.get("node01") {
        assert_eq!(node_tasks.len(), 3);
    }
}

#[test]
fn admission_rejects_over_memory() {
    let sched = two_node_scheduler();
    let task = Task {
        name: "mem_hog".to_string(),
        workload_id: "wl1".to_string(),
        target_node: "node01".to_string(),
        memory_mb: 5_000,
        period_us: 10_000,
        runtime_us: 1_000,
        ..Default::default()
    };
    let err = sched.schedule(vec![task], "target_node_priority").unwrap_err();
    assert!(
        matches!(
            err,
            SchedulerError::AdmissionRejected {
                reason: AdmissionReason::InsufficientMemory { .. },
                ..
            }
        ),
        "expected InsufficientMemory rejection, got: {err:?}"
    );
}

#[test]
fn utilization_threshold_respected() {
    let sched = two_node_scheduler();
    let filler = Task {
        name: "filler".to_string(),
        workload_id: "wl1".to_string(),
        target_node: "node01".to_string(),
        affinity: CpuAffinity::Pinned(1 << 3),
        period_us: 10_000,
        runtime_us: 8_500,
        deadline_us: 10_000,
        ..Default::default()
    };
    let _ = sched.schedule(vec![filler], "target_node_priority");

    let filler2 = Task {
        name: "filler2".to_string(),
        workload_id: "wl1".to_string(),
        target_node: "node01".to_string(),
        affinity: CpuAffinity::Pinned(1 << 3),
        period_us: 10_000,
        runtime_us: 8_500,
        deadline_us: 10_000,
        ..Default::default()
    };
    let over = Task {
        name: "over_threshold".to_string(),
        workload_id: "wl1".to_string(),
        target_node: "node01".to_string(),
        affinity: CpuAffinity::Pinned(1 << 3),
        period_us: 10_000,
        runtime_us: 1_000,
        deadline_us: 10_000,
        ..Default::default()
    };
    let result = sched.schedule(vec![filler2, over], "target_node_priority");
    assert!(result.is_ok() || matches!(result, Err(SchedulerError::AdmissionRejected { .. })));
}

#[test]
fn empty_tasks_returns_no_tasks_error() {
    let sched = two_node_scheduler();
    let err = sched.schedule(vec![], "target_node_priority").unwrap_err();
    assert!(matches!(err, SchedulerError::NoTasks));
}

#[test]
fn unknown_algorithm_returns_error() {
    let sched = two_node_scheduler();
    let tasks = vec![make_task("t1", "wl1", "node01", 10_000, 1_000)];
    let err = sched.schedule(tasks, "round_robin_nonsense").unwrap_err();
    assert!(matches!(err, SchedulerError::UnknownAlgorithm(_)));
}

#[test]
fn scheduler_is_deterministic() {
    let sched = two_node_scheduler();
    let tasks = || {
        vec![
            make_task("t1", "wl1", "", 10_000, 1_000),
            make_task("t2", "wl1", "", 20_000, 3_000),
            make_task("t3", "wl1", "", 50_000, 5_000),
        ]
    };
    let reference = layout(&sched.schedule(tasks(), "least_loaded").unwrap());
    for _ in 0..49 {
        let v = layout(&sched.schedule(tasks(), "least_loaded").unwrap());
        assert_eq!(
            v, reference,
            "scheduler produced different output on repeated identical input"
        );
    }
}

#[test]
fn config_not_loaded_returns_error() {
    let mgr = NodeConfigManager::new();
    let sched = GlobalScheduler::new(Arc::new(mgr));
    let err = sched
        .schedule(
            vec![make_task("t1", "wl1", "node01", 10_000, 1_000)],
            "target_node_priority",
        )
        .unwrap_err();
    assert!(matches!(err, SchedulerError::ConfigNotLoaded));
}

#[test]
fn least_loaded_single_task_lands_on_first_node_by_name() {
    let sched = two_node_scheduler();
    let map = sched
        .schedule(vec![make_task("t1", "wl1", "", 10_000, 1_000)], "least_loaded")
        .unwrap();
    assert_eq!(layout(&map), vec![("node01".to_string(), vec![("t1".to_string(), 3)])]);
}

#[test]
fn least_loaded_spreads_by_node_total() {
    let sched = two_node_scheduler();
    let map = sched
        .schedule(
            vec![
                make_task("t1", "wl1", "", 10_000, 1_000),
                make_task("t2", "wl1", "", 20_000, 3_000),
                make_task("t3", "wl1", "", 50_000, 5_000),
            ],
            "least_loaded",
        )
        .unwrap();
    assert_eq!(
        layout(&map),
        vec![
            ("node01".to_string(), vec![("t1".to_string(), 3), ("t3".to_string(), 3)]),
            ("node02".to_string(), vec![("t2".to_string(), 5)]),
        ]
    );
}

#[test]
fn best_fit_decreasing_places_largest_first_on_tightest_node() {
    let sched = two_node_scheduler();
    let map = sched
        .schedule(
            vec![
                make_task("small", "wl1", "", 10_000, 500),
                make_task("large", "wl1", "", 10_000, 3_000),
                make_task("medium", "wl1", "", 10_000, 1_500),
            ],
            "best_fit_decreasing",
        )
        .unwrap();
    assert_eq!(
        layout(&map),
        vec![(
            "node01".to_string(),
            vec![("large".to_string(), 3), ("medium".to_string(), 3), ("small".to_string(), 3)]
        )]
    );
}

#[test]
fn best_fit_decreasing_falls_back_when_hint_cannot_admit() {
    let sched = two_node_scheduler();
    let mut t = make_task("big_mem", "wl1", "node01", 10_000, 1_000);
    t.memory_mb = 6_000;
    let map = sched.schedule(vec![t], "best_fit_decreasing").unwrap();
    assert_eq!(layout(&map), vec![("node02".to_string(), vec![("big_mem".to_string(), 5)])]);
}

#[test]
fn pinning_to_missing_cpu_is_rejected() {
    let sched = two_node_scheduler();
    let mut t = make_task("pin7", "wl1", "node01", 10_000, 1_000);
    t.affinity = CpuAffinity::Pinned(1 << 7);
    let err = sched.schedule(vec![t], "target_node_priority").unwrap_err();
    assert!(matches!(
        err,
        SchedulerError::AdmissionRejected {
            reason: AdmissionReason::CpuAffinityUnavailable { requested_cpu: 7 },
            ..
        }
    ));
}

#[test]
fn full_pinned_cpu_falls_back_to_other_cpu() {
    let sched = two_node_scheduler();
    let mut filler = make_task("filler", "wl1", "node01", 10_000, 8_500);
    filler.affinity = CpuAffinity::Pinned(1 << 3);
    let mut over = make_task("over", "wl1", "node01", 10_000, 1_000);
    over.affinity = CpuAffinity::Pinned(1 << 3);
    let map = sched.schedule(vec![filler, over], "target_node_priority").unwrap();
    assert_eq!(
        layout(&map),
        vec![("node01".to_string(), vec![("filler".to_string(), 3), ("over".to_string(), 2)])]
    );
}

#[test]
fn node_without_room_is_rejected_with_no_available_cpu() {
    let sched = two_node_scheduler();
    let a = make_task("a", "wl1", "node01", 10_000, 9_000);
    let b = make_task("b", "wl1", "node01", 10_000, 9_000);
    let c = make_task("c", "wl1", "node01", 10_000, 1_000);
    let err = sched.schedule(vec![a, b, c], "target_node_priority").unwrap_err();
    assert!(matches!(
        err,
        SchedulerError::AdmissionRejected { ref task, reason: AdmissionReason::NoAvailableCpu, .. } if task == "c"
    ));
}

#[test]
fn unknown_target_node_is_rejected() {
    let sched = two_node_scheduler();
    let err = sched
        .schedule(vec![make_task("t", "wl1", "node09", 10_000, 1_000)], "target_node_priority")
        .unwrap_err();
    assert!(matches!(
        err,
        SchedulerError::AdmissionRejected { reason: AdmissionReason::NodeNotFound { ref node }, .. } if node == "node09"
    ));
}

#[test]
fn task_too_heavy_for_any_node_has_no_schedulable_node() {
    let sched = two_node_scheduler();
    for alg in ["least_loaded", "best_fit_decreasing"] {
        let err = sched
            .schedule(vec![make_task("heavy", "wl1", "", 10_000, 9_500)], alg)
            .unwrap_err();
        assert!(matches!(err, SchedulerError::NoSchedulableNode { ref task } if task == "heavy"));
    }
}

#[test]
fn output_is_converted_to_nanoseconds() {
    let sched = two_node_scheduler();
    let map = sched
        .schedule(vec![make_task("t1", "wl1", "node02", 10_000, 1_000)], "target_node_priority")
        .unwrap();
    let st = &map.get("node02").unwrap()[0];
    assert_eq!(st.assigned_node, "node02");
    assert_eq!(st.assigned_cpu, 5);
    assert_eq!(st.period_ns, 10_000_000);
    assert_eq!(st.runtime_ns, 1_000_000);
}
