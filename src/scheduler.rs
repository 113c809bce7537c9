//! Global scheduler: places every task on a node and a CPU with one of three
//! algorithms, under admission control and a per-CPU utilization cap.
use vstd::prelude::*;
use std::sync::Arc;
use crate::config::{NodeConfig, NodeConfigManager};
use crate::task::{make_sched_task, sched_task_of, CpuAffinity, NodeSchedMap, NodeSchedule, SchedTask, Task, trailing_zeros, count_trailing_zeros, UTILIZATION_SCALE};
use crate::text::{str_eq, seq_lt, lemma_seq_lt_irreflexive};

pub mod error;

pub use error::{AdmissionReason, SchedulerError};

verus! {

/// Highest utilization a CPU may reach: 90%, in parts per billion.
pub const CPU_UTILIZATION_THRESHOLD_PPB: u128 = 900_000_000;

/// Per-run state of one node, as plain values.
pub struct NodeState {
    pub name: String,
    pub max_memory_mb: u64,
    /// Number of CPU ids the configuration lists.
    pub cpu_count: nat,
    /// Distinct CPU ids, in the order the configuration first lists them.
    pub cpus: Seq<u32>,
    /// Utilization of each CPU of `cpus`, in parts per billion.
    pub loads: Seq<int>,
}

/// `s` without repetitions, keeping first occurrences.
pub open spec fn distinct(s: Seq<u32>) -> Seq<u32>
    decreases s.len(),
{
    if s.len() == 0 {
        s
    } else if distinct(s.drop_last()).contains(s.last()) {
        distinct(s.drop_last())
    } else {
        distinct(s.drop_last()).push(s.last())
    }
}

/// A node's state at the start of a run: every CPU idle.
pub open spec fn initial_node(c: NodeConfig) -> NodeState {
    NodeState {
        name: c.name,
        max_memory_mb: c.max_memory_mb,
        cpu_count: c.available_cpus@.len(),
        cpus: distinct(c.available_cpus@),
        loads: Seq::new(distinct(c.available_cpus@).len(), |j: int| 0int),
    }
}

pub open spec fn initial_state(nodes: Seq<NodeConfig>) -> Seq<NodeState> {
    nodes.map_values(|c: NodeConfig| initial_node(c))
}

pub open spec fn seq_sum(s: Seq<int>) -> int
    decreases s.len(),
{
    if s.len() == 0 {
        0
    } else {
        seq_sum(s.drop_last()) + s.last()
    }
}

/// Total utilization of a node: the sum over its CPUs.
pub open spec fn node_total(n: NodeState) -> int {
    seq_sum(n.loads)
}

/// CPU `j` of node `n` has room for `u` more.
pub open spec fn fits(n: NodeState, j: int, u: int) -> bool {
    n.loads[j] + u <= CPU_UTILIZATION_THRESHOLD_PPB
}

/// Position of CPU id `cpu` in the node's CPU list.
pub open spec fn cpu_index(n: NodeState, cpu: u32) -> Option<int> {
    if exists|j: int| 0 <= j < n.cpus.len() && n.cpus[j] == cpu {
        Some(choose|j: int| 0 <= j < n.cpus.len() && n.cpus[j] == cpu)
    } else {
        None
    }
}

/// CPU `j` is the highest-numbered CPU of `n` with room for `u`.
pub open spec fn is_packing_choice(n: NodeState, u: int, j: int) -> bool {
    0 <= j < n.cpus.len() && fits(n, j, u) && forall|k: int|
        0 <= k < n.cpus.len() && #[trigger] fits(n, k, u) ==> n.cpus[k] <= n.cpus[j]
}

/// Packing: CPUs are tried in descending id order; the first with room wins.
pub open spec fn packing_choice(n: NodeState, u: int) -> Option<int> {
    if exists|j: int| is_packing_choice(n, u, j) {
        Some(choose|j: int| is_packing_choice(n, u, j))
    } else {
        None
    }
}

/// The CPU id a pinned task asks for: the lowest set bit of its mask.
pub open spec fn requested_cpu(t: Task) -> Option<u32> {
    match t.affinity {
        CpuAffinity::Any => None,
        CpuAffinity::Pinned(mask) => Some(trailing_zeros(mask) as u32),
    }
}

/// The CPU chosen for `t` on `n`: the pinned CPU when it has room, else the
/// packing choice.
pub open spec fn cpu_choice(n: NodeState, t: Task) -> Option<int> {
    match requested_cpu(t) {
        Some(p) => match cpu_index(n, p) {
            Some(j) => if fits(n, j, t.util() as int) {
                Some(j)
            } else {
                packing_choice(n, t.util() as int)
            },
            None => packing_choice(n, t.util() as int),
        },
        None => packing_choice(n, t.util() as int),
    }
}

/// Admission control on a node that exists: memory first, then the pinned
/// CPU. A memory requirement of zero is never refused.
pub open spec fn admission(n: NodeState, t: Task) -> Option<AdmissionReason> {
    if t.memory_mb > 0 && t.memory_mb > n.max_memory_mb {
        Some(AdmissionReason::InsufficientMemory { required_mb: t.memory_mb, available_mb: n.max_memory_mb })
    } else {
        match requested_cpu(t) {
            Some(p) => if cpu_index(n, p) is None {
                Some(AdmissionReason::CpuAffinityUnavailable { requested_cpu: p })
            } else {
                None
            },
            None => None,
        }
    }
}

/// The node admits `t` and has a CPU for it.
pub open spec fn eligible(n: NodeState, t: Task) -> bool {
    admission(n, t) is None && cpu_choice(n, t) is Some
}

/// Position of the node named `name`.
pub open spec fn node_index(s: Seq<NodeState>, name: Seq<char>) -> Option<int> {
    if exists|i: int| 0 <= i < s.len() && #[trigger] s[i].name@ == name {
        Some(choose|i: int| 0 <= i < s.len() && #[trigger] s[i].name@ == name)
    } else {
        None
    }
}

/// Node `i` has the lowest total among eligible nodes, and is the first
/// such in name order.
pub open spec fn is_least_loaded(s: Seq<NodeState>, t: Task, i: int) -> bool {
    &&& 0 <= i < s.len()
    &&& eligible(s[i], t)
    &&& forall|k: int| 0 <= k < s.len() && #[trigger] eligible(s[k], t) ==> node_total(s[i]) <= node_total(s[k])
    &&& forall|k: int| 0 <= k < i && #[trigger] eligible(s[k], t) ==> node_total(s[i]) < node_total(s[k])
}

pub open spec fn least_loaded_choice(s: Seq<NodeState>, t: Task) -> Option<int> {
    if exists|i: int| is_least_loaded(s, t, i) {
        Some(choose|i: int| is_least_loaded(s, t, i))
    } else {
        None
    }
}

/// Node total after adding `t`.
pub open spec fn total_after(n: NodeState, t: Task) -> int {
    node_total(n) + t.util()
}

/// Eligible and still within the node's whole CPU capacity after adding `t`.
pub open spec fn best_fit_candidate(n: NodeState, t: Task) -> bool {
    eligible(n, t) && total_after(n, t) <= n.cpu_count * UTILIZATION_SCALE
}

/// Node `i` is the tightest fit: the highest total after adding `t` among
/// candidates, and the first such in name order.
pub open spec fn is_best_fit(s: Seq<NodeState>, t: Task, i: int) -> bool {
    &&& 0 <= i < s.len()
    &&& best_fit_candidate(s[i], t)
    &&& forall|k: int| 0 <= k < s.len() && #[trigger] best_fit_candidate(s[k], t) ==> total_after(s[k], t) <= total_after(s[i], t)
    &&& forall|k: int| 0 <= k < i && #[trigger] best_fit_candidate(s[k], t) ==> total_after(s[k], t) < total_after(s[i], t)
}

/// The target node when it is named, exists and is eligible; else the
/// tightest fit.
pub open spec fn best_fit_choice(s: Seq<NodeState>, t: Task) -> Option<int> {
    let hint = if t.target_node@.len() > 0 { node_index(s, t.target_node@) } else { None };
    if hint is Some && eligible(s[hint->Some_0], t) {
        hint
    } else if exists|i: int| is_best_fit(s, t, i) {
        Some(choose|i: int| is_best_fit(s, t, i))
    } else {
        None
    }
}

/// The three placement algorithms.
#[derive(Debug, Clone, Copy, PartialEq, Eq, Structural)]
pub enum Algorithm {
    /// Each task goes to the node it names.
    TargetNodePriority,
    /// Each task goes to the eligible node with the lowest total.
    LeastLoaded,
    /// Tasks by decreasing runtime, each to the tightest-fitting node.
    BestFitDecreasing,
}

pub open spec fn algorithm_named(name: Seq<char>) -> Option<Algorithm> {
    if name == "target_node_priority"@ {
        Some(Algorithm::TargetNodePriority)
    } else if name == "least_loaded"@ {
        Some(Algorithm::LeastLoaded)
    } else if name == "best_fit_decreasing"@ {
        Some(Algorithm::BestFitDecreasing)
    } else {
        None
    }
}

/// Adds `u` to CPU `j` of node `i`.
pub open spec fn add_load(s: Seq<NodeState>, i: int, j: int, u: int) -> Seq<NodeState> {
    s.update(i, NodeState { loads: s[i].loads.update(j, s[i].loads[j] + u), ..s[i] })
}

/// Places `t` on node `i`, at its CPU choice.
pub open spec fn place_on(s: Seq<NodeState>, t: Task, i: int) -> Result<(Seq<NodeState>, (int, u32)), SchedulerError> {
    let j = cpu_choice(s[i], t)->Some_0;
    Ok((add_load(s, i, j, t.util() as int), (i, s[i].cpus[j])))
}

/// One placement step of `alg` for task `t` on state `s`.
pub open spec fn step(alg: Algorithm, s: Seq<NodeState>, t: Task) -> Result<(Seq<NodeState>, (int, u32)), SchedulerError> {
    match alg {
        Algorithm::TargetNodePriority => {
            if t.workload_id@.len() == 0 {
                Err(SchedulerError::MissingWorkloadId { task: t.name })
            } else if t.target_node@.len() == 0 {
                Err(SchedulerError::MissingTargetNode { task: t.name })
            } else {
                match node_index(s, t.target_node@) {
                    None => Err(SchedulerError::AdmissionRejected {
                        task: t.name,
                        node: t.target_node,
                        reason: AdmissionReason::NodeNotFound { node: t.target_node },
                    }),
                    Some(i) => match admission(s[i], t) {
                        Some(reason) => Err(SchedulerError::AdmissionRejected { task: t.name, node: t.target_node, reason }),
                        None => if cpu_choice(s[i], t) is None {
                            Err(SchedulerError::AdmissionRejected {
                                task: t.name,
                                node: t.target_node,
                                reason: AdmissionReason::NoAvailableCpu,
                            })
                        } else {
                            place_on(s, t, i)
                        },
                    },
                }
            }
        },
        Algorithm::LeastLoaded => match least_loaded_choice(s, t) {
            None => Err(SchedulerError::NoSchedulableNode { task: t.name }),
            Some(i) => place_on(s, t, i),
        },
        Algorithm::BestFitDecreasing => match best_fit_choice(s, t) {
            None => Err(SchedulerError::NoSchedulableNode { task: t.name }),
            Some(i) => place_on(s, t, i),
        },
    }
}

/// Places `ts` in order; the first failure ends the run.
pub open spec fn run(alg: Algorithm, s: Seq<NodeState>, ts: Seq<Task>) -> Result<(Seq<NodeState>, Seq<(int, u32)>), SchedulerError>
    decreases ts.len(),
{
    if ts.len() == 0 {
        Ok((s, Seq::empty()))
    } else {
        match run(alg, s, ts.drop_last()) {
            Err(e) => Err(e),
            Ok((s1, pl)) => match step(alg, s1, ts.last()) {
                Err(e) => Err(e),
                Ok((s2, p)) => Ok((s2, pl.push(p))),
            },
        }
    }
}

/// Inserts task index `k` into `order` after every task whose runtime is at
/// least as long.
pub open spec fn insert_by_runtime(tasks: Seq<Task>, order: Seq<int>, k: int) -> Seq<int>
    decreases order.len(),
{
    if order.len() == 0 {
        seq![k]
    } else if tasks[order[0]].runtime_us < tasks[k].runtime_us {
        seq![k] + order
    } else {
        seq![order[0]] + insert_by_runtime(tasks, order.drop_first(), k)
    }
}

/// Indices of the first `n` tasks by decreasing runtime; equal runtimes
/// keep their input order.
pub open spec fn decreasing_runtime_order(tasks: Seq<Task>, n: nat) -> Seq<int>
    decreases n,
{
    if n == 0 {
        Seq::empty()
    } else {
        insert_by_runtime(tasks, decreasing_runtime_order(tasks, (n - 1) as nat), n - 1)
    }
}

/// The order in which `alg` handles the tasks.
pub open spec fn processing_order(alg: Algorithm, tasks: Seq<Task>) -> Seq<Task> {
    if alg == Algorithm::BestFitDecreasing {
        decreasing_runtime_order(tasks, tasks.len()).map_values(|k: int| tasks[k])
    } else {
        tasks
    }
}

/// Wire records of the tasks among `ts` that `pl` put on node `i`, in order.
pub open spec fn placed_on(ts: Seq<Task>, pl: Seq<(int, u32)>, i: int, name: String) -> Seq<SchedTask>
    decreases ts.len(),
{
    if ts.len() == 0 || pl.len() != ts.len() {
        Seq::empty()
    } else {
        let rest = placed_on(ts.drop_last(), pl.drop_last(), i, name);
        if pl.last().0 == i {
            rest.push(sched_task_of(ts.last(), name, pl.last().1))
        } else {
            rest
        }
    }
}

/// Result map over the first `n` nodes: each node with at least one task.
pub open spec fn sched_map_of(s: Seq<NodeState>, n: nat, ts: Seq<Task>, pl: Seq<(int, u32)>) -> Seq<(String, Seq<SchedTask>)>
    decreases n,
{
    if n == 0 {
        Seq::empty()
    } else {
        let rest = sched_map_of(s, (n - 1) as nat, ts, pl);
        let on = placed_on(ts, pl, n - 1, s[n - 1].name);
        if on.len() > 0 {
            rest.push((s[n - 1].name, on))
        } else {
            rest
        }
    }
}

/// Outcome of scheduling `tasks` with `alg` from state `s`.
pub open spec fn plan(alg: Algorithm, s: Seq<NodeState>, tasks: Seq<Task>) -> Result<Seq<(String, Seq<SchedTask>)>, SchedulerError> {
    let ts = processing_order(alg, tasks);
    match run(alg, s, ts) {
        Ok((s2, pl)) => Ok(sched_map_of(s2, s2.len(), ts, pl)),
        Err(e) => Err(e),
    }
}

/// CPU ids are distinct, loads parallel to them and within the threshold.
pub open spec fn node_wf(n: NodeState) -> bool {
    &&& n.loads.len() == n.cpus.len()
    &&& forall|a: int, b: int| 0 <= a < b < n.cpus.len() ==> n.cpus[a] != n.cpus[b]
    &&& forall|j: int| 0 <= j < n.loads.len() ==> 0 <= #[trigger] n.loads[j] <= CPU_UTILIZATION_THRESHOLD_PPB
}

/// Every node is well formed and names are distinct.
pub open spec fn state_wf(s: Seq<NodeState>) -> bool {
    &&& forall|i: int| 0 <= i < s.len() ==> node_wf(#[trigger] s[i])
    &&& forall|a: int, b: int| 0 <= a < b < s.len() ==> s[a].name@ != s[b].name@
}

/// Per-run state of one node.
struct NodeLoad {
    name: String,
    max_memory_mb: u64,
    cpu_count: usize,
    cpus: Vec<u32>,
    loads: Vec<u128>,
}

impl NodeLoad {
    spec fn state(&self) -> NodeState {
        NodeState {
            name: self.name,
            max_memory_mb: self.max_memory_mb,
            cpu_count: self.cpu_count as nat,
            cpus: self.cpus@,
            loads: self.loads@.map_values(|l: u128| l as int),
        }
    }
}

spec fn states(v: Seq<NodeLoad>) -> Seq<NodeState> {
    v.map_values(|n: NodeLoad| n.state())
}

proof fn lemma_distinct(s: Seq<u32>)
    ensures
        forall|a: int, b: int| 0 <= a < b < distinct(s).len() ==> distinct(s)[a] != distinct(s)[b],
        forall|x: u32| distinct(s).contains(x) <==> s.contains(x),
        distinct(s).len() <= s.len(),
    decreases s.len(),
{
    if s.len() > 0 {
        lemma_distinct(s.drop_last());
        assert forall|x: u32| s.contains(x) <==> (s.drop_last().contains(x) || x == s.last()) by {
            if s.contains(x) {
                let k = choose|k: int| 0 <= k < s.len() && s[k] == x;
                if k < s.len() - 1 {
                    assert(s.drop_last()[k] == x);
                }
            }
            if s.drop_last().contains(x) {
                let k = choose|k: int| 0 <= k < s.drop_last().len() && s.drop_last()[k] == x;
                assert(s[k] == x);
            }
            if x == s.last() {
                assert(s[s.len() - 1] == x);
            }
        }
        let d = distinct(s.drop_last());
        if !d.contains(s.last()) {
            let e = d.push(s.last());
            assert forall|x: u32| e.contains(x) <==> (d.contains(x) || x == s.last()) by {
                if e.contains(x) {
                    let k = choose|k: int| 0 <= k < e.len() && e[k] == x;
                    if k < d.len() {
                        assert(d[k] == x);
                    }
                }
                if d.contains(x) {
                    let k = choose|k: int| 0 <= k < d.len() && d[k] == x;
                    assert(e[k] == x);
                }
                if x == s.last() {
                    assert(e[d.len() as int] == x);
                }
            }
            assert forall|a: int, b: int| 0 <= a < b < e.len() implies e[a] != e[b] by {
                if b == d.len() {
                    assert(d.contains(e[a]));
                }
            }
        }
    }
}

fn vec_contains(v: &Vec<u32>, x: u32) -> (r: bool)
    ensures
        r == v@.contains(x),
{
    let mut i: usize = 0;
    while i < v.len()
        invariant
            i <= v@.len(),
            forall|k: int| 0 <= k < i ==> v@[k] != x,
        decreases v@.len() - i,
    {
        if v[i] == x {
            return true;
        }
        i = i + 1;
    }
    false
}

fn initial_node_load(c: &NodeConfig) -> (r: NodeLoad)
    ensures
        r.state() == initial_node(*c),
        node_wf(r.state()),
{
    let mut cpus: Vec<u32> = Vec::new();
    let mut loads: Vec<u128> = Vec::new();
    let mut i: usize = 0;
    while i < c.available_cpus.len()
        invariant
            i <= c.available_cpus@.len(),
            cpus@ == distinct(c.available_cpus@.take(i as int)),
            loads@.len() == cpus@.len(),
            forall|j: int| 0 <= j < loads@.len() ==> loads@[j] == 0,
        decreases c.available_cpus@.len() - i,
    {
        let x = c.available_cpus[i];
        proof {
            let t = c.available_cpus@.take(i + 1);
            assert(t.drop_last() =~= c.available_cpus@.take(i as int));
            assert(t.last() == x);
        }
        if !vec_contains(&cpus, x) {
            cpus.push(x);
            loads.push(0);
        }
        i = i + 1;
    }
    proof {
        assert(c.available_cpus@.take(i as int) =~= c.available_cpus@);
        lemma_distinct(c.available_cpus@);
    }
    let r = NodeLoad {
        name: c.name.clone(),
        max_memory_mb: c.max_memory_mb,
        cpu_count: c.available_cpus.len(),
        cpus,
        loads,
    };
    proof {
        assert(r.state().loads =~= initial_node(*c).loads);
    }
    r
}

/// Sum of the loads of `n`.
fn node_total_of(n: &NodeLoad) -> (r: u128)
    requires
        node_wf(n.state()),
    ensures
        r == node_total(n.state()),
        r <= n.loads@.len() * CPU_UTILIZATION_THRESHOLD_PPB,
{
    let ghost ls = n.state().loads;
    let mut total: u128 = 0;
    let mut j: usize = 0;
    while j < n.loads.len()
        invariant
            ls == n.state().loads,
            node_wf(n.state()),
            j <= n.loads@.len(),
            total == seq_sum(ls.take(j as int)),
            total <= j * CPU_UTILIZATION_THRESHOLD_PPB,
        decreases n.loads@.len() - j,
    {
        proof {
            assert(ls.take(j + 1).drop_last() =~= ls.take(j as int));
            assert(ls[j as int] <= CPU_UTILIZATION_THRESHOLD_PPB);
            assert(n.loads@.len() <= usize::MAX);
            assert(total + n.loads@[j as int] <= (j + 1) * CPU_UTILIZATION_THRESHOLD_PPB) by (nonlinear_arith)
                requires
                    total <= j * CPU_UTILIZATION_THRESHOLD_PPB,
                    n.loads@[j as int] <= CPU_UTILIZATION_THRESHOLD_PPB,
            ;
            assert((j + 1) * CPU_UTILIZATION_THRESHOLD_PPB <= 0x1_0000_0000_0000_0000 * 900_000_000int) by (nonlinear_arith)
                requires
                    j < 0x1_0000_0000_0000_0000int,
            ;
        }
        total = total + n.loads[j];
        j = j + 1;
    }
    proof {
        assert(ls.take(j as int) =~= ls);
    }
    total
}

/// Position of CPU id `cpu` in the node's list.
fn find_cpu(n: &NodeLoad, cpu: u32) -> (r: Option<usize>)
    requires
        node_wf(n.state()),
    ensures
        r matches Some(j) ==> cpu_index(n.state(), cpu) == Some(j as int),
        r is None ==> cpu_index(n.state(), cpu) is None,
{
    let mut j: usize = 0;
    while j < n.cpus.len()
        invariant
            node_wf(n.state()),
            j <= n.cpus@.len(),
            forall|k: int| 0 <= k < j ==> n.cpus@[k] != cpu,
        decreases n.cpus@.len() - j,
    {
        if n.cpus[j] == cpu {
            proof {
                let c = choose|k: int| 0 <= k < n.state().cpus.len() && n.state().cpus[k] == cpu;
                if c < j {
                    assert(n.state().cpus[c] != n.state().cpus[j as int]);
                } else if c > j {
                    assert(n.state().cpus[j as int] != n.state().cpus[c]);
                }
            }
            return Some(j);
        }
        j = j + 1;
    }
    None
}

/// Highest-numbered CPU with room for `u`.
fn packing_cpu(n: &NodeLoad, u: u128) -> (r: Option<usize>)
    requires
        node_wf(n.state()),
        u <= u64::MAX * UTILIZATION_SCALE,
    ensures
        r matches Some(j) ==> packing_choice(n.state(), u as int) == Some(j as int),
        r is None ==> packing_choice(n.state(), u as int) is None,
{
    let ghost st = n.state();
    let mut best: Option<usize> = None;
    let mut j: usize = 0;
    while j < n.cpus.len()
        invariant
            st == n.state(),
            node_wf(st),
            u <= u64::MAX * UTILIZATION_SCALE,
            j <= n.cpus@.len(),
            best matches Some(b) ==> b < j && fits(st, b as int, u as int) && forall|k: int|
                0 <= k < j && #[trigger] fits(st, k, u as int) ==> st.cpus[k] <= st.cpus[b as int],
            best is None ==> forall|k: int| 0 <= k < j ==> !#[trigger] fits(st, k, u as int),
        decreases n.cpus@.len() - j,
    {
        proof {
            assert(st.loads[j as int] == n.loads@[j as int] as int);
        }
        if n.loads[j] + u <= CPU_UTILIZATION_THRESHOLD_PPB {
            match best {
                Some(b) => {
                    if n.cpus[j] > n.cpus[b] {
                        best = Some(j);
                    }
                },
                None => {
                    best = Some(j);
                },
            }
        }
        j = j + 1;
    }
    proof {
        match best {
            Some(b) => {
                assert(is_packing_choice(st, u as int, b as int));
                let c = choose|c: int| is_packing_choice(st, u as int, c);
                assert(st.cpus[c] == st.cpus[b as int]);
                if c != b {
                    if c < b {
                        assert(st.cpus[c] != st.cpus[b as int]);
                    } else {
                        assert(st.cpus[b as int] != st.cpus[c]);
                    }
                }
            },
            None => {
                assert(!exists|c: int| is_packing_choice(st, u as int, c));
            },
        }
    }
    best
}

/// The CPU for `t` on `n`: the pinned CPU if it has room, else packing.
fn best_cpu(n: &NodeLoad, t: &Task) -> (r: Option<usize>)
    requires
        node_wf(n.state()),
    ensures
        r matches Some(j) ==> cpu_choice(n.state(), *t) == Some(j as int),
        r is None ==> cpu_choice(n.state(), *t) is None,
{
    let u = t.utilization();
    let ghost st = n.state();
    let ghost ui = t.util() as int;
    assert(u as int == ui);
    match t.affinity {
        CpuAffinity::Pinned(mask) => {
            let p = count_trailing_zeros(mask);
            proof {
                assert(requested_cpu(*t) == Some(p));
            }
            match find_cpu(n, p) {
                Some(j) => {
                    proof {
                        assert(cpu_index(st, p) == Some(j as int));
                        assert(st.loads[j as int] == n.loads@[j as int] as int);
                    }
                    if n.loads[j] + u <= CPU_UTILIZATION_THRESHOLD_PPB {
                        proof {
                            assert(fits(st, j as int, ui));
                            assert(cpu_choice(st, *t) == Some(j as int));
                        }
                        Some(j)
                    } else {
                        proof {
                            assert(!fits(st, j as int, ui));
                            assert(cpu_choice(st, *t) == packing_choice(st, ui));
                        }
                        packing_cpu(n, u)
                    }
                },
                None => {
                    proof {
                        assert(cpu_choice(st, *t) == packing_choice(st, ui));
                    }
                    packing_cpu(n, u)
                },
            }
        },
        CpuAffinity::Any => packing_cpu(n, u),
    }
}

/// Admission control of `t` on `n`.
fn check_admission(n: &NodeLoad, t: &Task) -> (r: Option<AdmissionReason>)
    requires
        node_wf(n.state()),
    ensures
        r == admission(n.state(), *t),
{
    if t.memory_mb > 0 && t.memory_mb > n.max_memory_mb {
        return Some(AdmissionReason::InsufficientMemory { required_mb: t.memory_mb, available_mb: n.max_memory_mb });
    }
    match t.affinity {
        CpuAffinity::Pinned(mask) => {
            let p = count_trailing_zeros(mask);
            if find_cpu(n, p).is_none() {
                Some(AdmissionReason::CpuAffinityUnavailable { requested_cpu: p })
            } else {
                None
            }
        },
        CpuAffinity::Any => None,
    }
}

/// Whether `n` admits `t` and has a CPU for it.
fn is_eligible(n: &NodeLoad, t: &Task) -> (r: bool)
    requires
        node_wf(n.state()),
    ensures
        r == eligible(n.state(), *t),
{
    check_admission(n, t).is_none() && best_cpu(n, t).is_some()
}

/// A chosen CPU exists and has room for the task.
pub proof fn lemma_cpu_choice_fits(n: NodeState, t: Task)
    ensures
        cpu_choice(n, t) matches Some(j) ==> 0 <= j < n.cpus.len() && fits(n, j, t.util() as int),
{
    let u = t.util() as int;
    if exists|j: int| is_packing_choice(n, u, j) {
        let j = choose|j: int| is_packing_choice(n, u, j);
        assert(is_packing_choice(n, u, j));
    }
    match requested_cpu(t) {
        Some(p) => {
            if exists|j: int| 0 <= j < n.cpus.len() && n.cpus[j] == p {
                let j = choose|j: int| 0 <= j < n.cpus.len() && n.cpus[j] == p;
                assert(0 <= j < n.cpus.len());
            }
        },
        None => {},
    }
}

/// Position of the node named `name`.
fn find_node(state: &Vec<NodeLoad>, name: &str) -> (r: Option<usize>)
    requires
        state_wf(states(state@)),
    ensures
        r matches Some(i) ==> node_index(states(state@), name@) == Some(i as int),
        r is None ==> node_index(states(state@), name@) is None,
{
    let ghost ss = states(state@);
    let mut i: usize = 0;
    while i < state.len()
        invariant
            ss == states(state@),
            state_wf(ss),
            i <= state@.len(),
            forall|k: int| 0 <= k < i ==> #[trigger] ss[k].name@ != name@,
        decreases state@.len() - i,
    {
        if str_eq(state[i].name.as_str(), name) {
            proof {
                assert(ss[i as int].name@ == name@);
                let c = choose|c: int| 0 <= c < ss.len() && #[trigger] ss[c].name@ == name@;
                if c < i {
                } else if c > i {
                    assert(ss[i as int].name@ != ss[c].name@);
                }
            }
            return Some(i);
        }
        i = i + 1;
    }
    None
}

/// The eligible node with the lowest total, first in name order on ties.
fn least_loaded_node(state: &Vec<NodeLoad>, t: &Task) -> (r: Option<usize>)
    requires
        state_wf(states(state@)),
    ensures
        r matches Some(i) ==> least_loaded_choice(states(state@), *t) == Some(i as int),
        r is None ==> least_loaded_choice(states(state@), *t) is None,
{
    let ghost ss = states(state@);
    let mut best: Option<usize> = None;
    let mut best_total: u128 = 0;
    let mut i: usize = 0;
    while i < state.len()
        invariant
            ss == states(state@),
            state_wf(ss),
            i <= ss.len(),
            best matches Some(b) ==> b < i && eligible(ss[b as int], *t) && best_total == node_total(ss[b as int])
                && (forall|k: int| 0 <= k < i && #[trigger] eligible(ss[k], *t) ==> node_total(ss[b as int]) <= node_total(ss[k]))
                && (forall|k: int| 0 <= k < b && #[trigger] eligible(ss[k], *t) ==> node_total(ss[b as int]) < node_total(ss[k])),
            best is None ==> forall|k: int| 0 <= k < i ==> !#[trigger] eligible(ss[k], *t),
        decreases ss.len() - i,
    {
        proof {
            assert(ss[i as int] == state@[i as int].state());
        }
        if is_eligible(&state[i], t) {
            let total = node_total_of(&state[i]);
            match best {
                Some(_) => {
                    if total < best_total {
                        best = Some(i);
                        best_total = total;
                    }
                },
                None => {
                    best = Some(i);
                    best_total = total;
                },
            }
        }
        i = i + 1;
    }
    proof {
        match best {
            Some(b) => {
                assert(is_least_loaded(ss, *t, b as int));
                let c = choose|c: int| is_least_loaded(ss, *t, c);
                if c < b {
                    assert(node_total(ss[b as int]) < node_total(ss[c]));
                } else if c > b {
                    assert(node_total(ss[c]) < node_total(ss[b as int]));
                }
            },
            None => {
                assert(!exists|c: int| is_least_loaded(ss, *t, c));
            },
        }
    }
    best
}

/// The node `best_fit_decreasing` picks for `t`: its target node when that
/// admits it, else the tightest fit.
fn best_fit_node(state: &Vec<NodeLoad>, t: &Task) -> (r: Option<usize>)
    requires
        state_wf(states(state@)),
    ensures
        r matches Some(i) ==> best_fit_choice(states(state@), *t) == Some(i as int),
        r is None ==> best_fit_choice(states(state@), *t) is None,
{
    let ghost ss = states(state@);
    let has_hint = !t.target_node.as_str().is_empty();
    if has_hint {
        match find_node(state, t.target_node.as_str()) {
            Some(i) => {
                proof {
                    assert(ss[i as int] == state@[i as int].state());
                }
                if is_eligible(&state[i], t) {
                    return Some(i);
                }
            },
            None => {},
        }
    }
    let u = t.utilization();
    let mut best: Option<usize> = None;
    let mut best_after: u128 = 0;
    let mut i: usize = 0;
    while i < state.len()
        invariant
            ss == states(state@),
            state_wf(ss),
            u == t.util(),
            u <= u64::MAX * UTILIZATION_SCALE,
            i <= ss.len(),
            best matches Some(b) ==> b < i && best_fit_candidate(ss[b as int], *t) && best_after == total_after(ss[b as int], *t)
                && (forall|k: int| 0 <= k < i && #[trigger] best_fit_candidate(ss[k], *t) ==> total_after(ss[k], *t) <= total_after(ss[b as int], *t))
                && (forall|k: int| 0 <= k < b && #[trigger] best_fit_candidate(ss[k], *t) ==> total_after(ss[k], *t) < total_after(ss[b as int], *t)),
            best is None ==> forall|k: int| 0 <= k < i ==> !#[trigger] best_fit_candidate(ss[k], *t),
        decreases ss.len() - i,
    {
        proof {
            assert(ss[i as int] == state@[i as int].state());
        }
        if is_eligible(&state[i], t) {
            let total = node_total_of(&state[i]);
            let nl = state[i].loads.len();
            proof {
                assert(total <= 0x1_0000_0000_0000_0000 * 900_000_000int) by (nonlinear_arith)
                    requires
                        total <= state@[i as int].loads@.len() * CPU_UTILIZATION_THRESHOLD_PPB,
                        state@[i as int].loads@.len() <= usize::MAX,
                ;
                assert((state@[i as int].cpu_count as int) * 1_000_000_000int <= 0x1_0000_0000_0000_0000 * 1_000_000_000int) by (nonlinear_arith)
                    requires
                        state@[i as int].cpu_count <= usize::MAX,
                ;
            }
            let after = total + u;
            let capacity = (state[i].cpu_count as u128) * (UTILIZATION_SCALE as u128);
            if after <= capacity {
                match best {
                    Some(_) => {
                        if after > best_after {
                            best = Some(i);
                            best_after = after;
                        }
                    },
                    None => {
                        best = Some(i);
                        best_after = after;
                    },
                }
            }
        }
        i = i + 1;
    }
    proof {
        match best {
            Some(b) => {
                assert(is_best_fit(ss, *t, b as int));
                let c = choose|c: int| is_best_fit(ss, *t, c);
                if c < b {
                    assert(total_after(ss[c], *t) < total_after(ss[b as int], *t));
                } else if c > b {
                    assert(total_after(ss[b as int], *t) < total_after(ss[c], *t));
                }
            },
            None => {
                assert(!exists|c: int| is_best_fit(ss, *t, c));
            },
        }
    }
    best
}

/// Adds `u` to CPU `j` of node `i`.
fn add_to_cpu(state: &mut Vec<NodeLoad>, i: usize, j: usize, u: u128)
    requires
        state_wf(states(old(state)@)),
        i < old(state)@.len(),
        j < old(state)@[i as int].cpus@.len(),
        fits(states(old(state)@)[i as int], j as int, u as int),
    ensures
        state_wf(states(final(state)@)),
        states(final(state)@) == add_load(states(old(state)@), i as int, j as int, u as int),
{
    let ghost ss = states(state@);
    proof {
        assert(ss[i as int] == state@[i as int].state());
        assert(ss[i as int].loads[j as int] == state@[i as int].loads@[j as int] as int);
    }
    let v = state[i].loads[j] + u;
    state[i].loads[j] = v;
    proof {
        let expect = add_load(ss, i as int, j as int, u as int);
        assert(state@[i as int].state().loads =~= expect[i as int].loads);
        assert(states(state@) =~= expect) by {
            assert forall|k: int| 0 <= k < expect.len() implies #[trigger] states(state@)[k] == expect[k] by {
                if k != i {
                    assert(state@[k] == old(state)@[k]);
                }
            }
        }
    }
}

/// Places `t` on node `i` at its CPU choice.
fn place_on_node(state: &mut Vec<NodeLoad>, t: &Task, i: usize) -> (r: (usize, u32))
    requires
        state_wf(states(old(state)@)),
        i < old(state)@.len(),
        eligible(states(old(state)@)[i as int], *t),
    ensures
        state_wf(states(final(state)@)),
        place_on(states(old(state)@), *t, i as int) == Ok::<(Seq<NodeState>, (int, u32)), SchedulerError>(
            (states(final(state)@), (r.0 as int, r.1)),
        ),
{
    proof {
        assert(states(state@)[i as int] == state@[i as int].state());
    }
    proof {
        lemma_cpu_choice_fits(states(state@)[i as int], *t);
    }
    let j = match best_cpu(&state[i], t) {
        Some(j) => j,
        None => {
            proof {
                assert(false);
            }
            0
        },
    };
    let cpu = state[i].cpus[j];
    let u = t.utilization();
    proof {
        let n = states(state@)[i as int];
        assert(n == state@[i as int].state());
        assert(cpu_choice(n, *t) == Some(j as int));
        assert(fits(n, j as int, u as int));
    }
    add_to_cpu(state, i, j, u);
    (i, cpu)
}

/// One placement step of `alg` for `t`.
fn place_task(alg: Algorithm, state: &mut Vec<NodeLoad>, t: &Task) -> (r: Result<(usize, u32), SchedulerError>)
    requires
        state_wf(states(old(state)@)),
    ensures
        state_wf(states(final(state)@)),
        match step(alg, states(old(state)@), *t) {
            Ok((s2, p)) => r matches Ok(q) && q.0 as int == p.0 && q.1 == p.1 && states(final(state)@) == s2,
            Err(e) => r == Err::<(usize, u32), SchedulerError>(e),
        },
{
    let ghost ss = states(state@);
    match alg {
        Algorithm::TargetNodePriority => {
            if t.workload_id.as_str().is_empty() {
                return Err(SchedulerError::MissingWorkloadId { task: t.name.clone() });
            }
            if t.target_node.as_str().is_empty() {
                return Err(SchedulerError::MissingTargetNode { task: t.name.clone() });
            }
            match find_node(state, t.target_node.as_str()) {
                None => Err(
                    SchedulerError::AdmissionRejected {
                        task: t.name.clone(),
                        node: t.target_node.clone(),
                        reason: AdmissionReason::NodeNotFound { node: t.target_node.clone() },
                    },
                ),
                Some(i) => {
                    proof {
                        assert(ss[i as int] == state@[i as int].state());
                    }
                    match check_admission(&state[i], t) {
                        Some(reason) => Err(
                            SchedulerError::AdmissionRejected { task: t.name.clone(), node: t.target_node.clone(), reason },
                        ),
                        None => {
                            if best_cpu(&state[i], t).is_none() {
                                Err(
                                    SchedulerError::AdmissionRejected {
                                        task: t.name.clone(),
                                        node: t.target_node.clone(),
                                        reason: AdmissionReason::NoAvailableCpu,
                                    },
                                )
                            } else {
                                Ok(place_on_node(state, t, i))
                            }
                        },
                    }
                },
            }
        },
        Algorithm::LeastLoaded => match least_loaded_node(state, t) {
            None => Err(SchedulerError::NoSchedulableNode { task: t.name.clone() }),
            Some(i) => {
                proof {
                    let c = choose|c: int| is_least_loaded(ss, *t, c);
                    assert(c == i);
                }
                Ok(place_on_node(state, t, i))
            },
        },
        Algorithm::BestFitDecreasing => match best_fit_node(state, t) {
            None => Err(SchedulerError::NoSchedulableNode { task: t.name.clone() }),
            Some(i) => {
                proof {
                    let hint = if t.target_node@.len() > 0 { node_index(ss, t.target_node@) } else { None };
                    if !(hint is Some && eligible(ss[hint->Some_0], *t)) {
                        let c = choose|c: int| is_best_fit(ss, *t, c);
                        assert(c == i);
                    }
                }
                Ok(place_on_node(state, t, i))
            },
        },
    }
}

spec fn index_view(v: Seq<usize>) -> Seq<int> {
    v.map_values(|x: usize| x as int)
}

spec fn placement_view(v: Seq<(usize, u32)>) -> Seq<(int, u32)> {
    v.map_values(|p: (usize, u32)| (p.0 as int, p.1))
}

proof fn lemma_insert_by_runtime(tasks: Seq<Task>, o: Seq<int>, k: int, p: int)
    requires
        0 <= p <= o.len(),
        forall|q: int| 0 <= q < p ==> !(tasks[#[trigger] o[q]].runtime_us < tasks[k].runtime_us),
        p < o.len() ==> tasks[o[p]].runtime_us < tasks[k].runtime_us,
    ensures
        insert_by_runtime(tasks, o, k) == o.insert(p, k),
    decreases p,
{
    if p == 0 {
        if o.len() == 0 {
            assert(o.insert(0, k) =~= seq![k]);
        } else {
            assert(o.insert(0, k) =~= seq![k] + o);
        }
    } else {
        assert(!(tasks[o[0]].runtime_us < tasks[k].runtime_us));
        let d = o.drop_first();
        assert forall|q: int| 0 <= q < p - 1 implies !(tasks[#[trigger] d[q]].runtime_us < tasks[k].runtime_us) by {
            assert(d[q] == o[q + 1]);
        }
        if p - 1 < d.len() {
            assert(d[p - 1] == o[p]);
        }
        lemma_insert_by_runtime(tasks, d, k, p - 1);
        assert(seq![o[0]] + d.insert(p - 1, k) =~= o.insert(p, k));
    }
}

/// Task indices by decreasing runtime; equal runtimes keep input order.
fn decreasing_order(tasks: &Vec<Task>) -> (r: Vec<usize>)
    ensures
        index_view(r@) == decreasing_runtime_order(tasks@, tasks@.len()),
        forall|q: int| 0 <= q < r@.len() ==> #[trigger] r@[q] < tasks@.len(),
        r@.len() == tasks@.len(),
{
    let mut order: Vec<usize> = Vec::new();
    let mut k: usize = 0;
    while k < tasks.len()
        invariant
            k <= tasks@.len(),
            index_view(order@) == decreasing_runtime_order(tasks@, k as nat),
            forall|q: int| 0 <= q < order@.len() ==> #[trigger] order@[q] < k,
            order@.len() == k,
        decreases tasks@.len() - k,
    {
        let rk = tasks[k].runtime_us;
        let mut p: usize = 0;
        while p < order.len() && !(tasks[order[p]].runtime_us < rk)
            invariant
                k < tasks@.len(),
                rk == tasks@[k as int].runtime_us,
                p <= order@.len(),
                forall|q: int| 0 <= q < order@.len() ==> #[trigger] order@[q] < k,
                forall|q: int| 0 <= q < p ==> !(tasks@[#[trigger] index_view(order@)[q]].runtime_us < rk),
            decreases order@.len() - p,
        {
            p = p + 1;
        }
        let ghost before = order@;
        proof {
            lemma_insert_by_runtime(tasks@, index_view(before), k as int, p as int);
        }
        order.insert(p, k);
        proof {
            assert(index_view(order@) =~= index_view(before).insert(p as int, k as int));
            assert forall|q: int| 0 <= q < order@.len() implies #[trigger] order@[q] < k + 1 by {
                if q < p {
                    assert(order@[q] == before[q]);
                } else if q > p {
                    assert(order@[q] == before[q - 1]);
                }
            }
        }
        k = k + 1;
    }
    order
}

/// Per-run state built from the configuration: every CPU idle.
fn build_state(cfg: &NodeConfigManager) -> (r: Vec<NodeLoad>)
    ensures
        states(r@) == initial_state(cfg.nodes()),
        state_wf(states(r@)),
{
    let nodes = cfg.get_all_nodes();
    let mut state: Vec<NodeLoad> = Vec::new();
    let mut i: usize = 0;
    while i < nodes.len()
        invariant
            nodes@ == cfg.nodes(),
            crate::config::sorted_by_name(nodes@),
            i <= nodes@.len(),
            states(state@) == initial_state(cfg.nodes()).take(i as int),
            state_wf(states(state@)),
        decreases nodes@.len() - i,
    {
        let n = initial_node_load(&nodes[i]);
        let ghost before = states(state@);
        state.push(n);
        proof {
            assert(states(state@) =~= before.push(n.state()));
            assert(initial_state(cfg.nodes()).take(i + 1) =~= initial_state(cfg.nodes()).take(i as int).push(
                initial_node(nodes@[i as int]),
            ));
            assert forall|a: int, b: int| 0 <= a < b < states(state@).len() implies states(state@)[a].name@
                != states(state@)[b].name@ by {
                assert(seq_lt(nodes@[a].name@, nodes@[b].name@));
                if nodes@[a].name@ == nodes@[b].name@ {
                    lemma_seq_lt_irreflexive(nodes@[a].name@);
                }
            }
        }
        i = i + 1;
    }
    proof {
        assert(initial_state(cfg.nodes()).take(i as int) =~= initial_state(cfg.nodes()));
    }
    state
}

/// The result map: per node in state order, its tasks in placement order.
fn build_sched_map(state: &Vec<NodeLoad>, tasks: &Vec<Task>, order: &Vec<usize>, placements: &Vec<(usize, u32)>) -> (r: NodeSchedMap)
    requires
        order@.len() == placements@.len(),
        forall|q: int| 0 <= q < order@.len() ==> #[trigger] order@[q] < tasks@.len(),
    ensures
        r.entries() == sched_map_of(
            states(state@),
            state@.len() as nat,
            index_view(order@).map_values(|k: int| tasks@[k]),
            placement_view(placements@),
        ),
{
    let ghost ss = states(state@);
    let ghost ts = index_view(order@).map_values(|k: int| tasks@[k]);
    let ghost pl = placement_view(placements@);
    let mut nodes: Vec<NodeSchedule> = Vec::new();
    let mut i: usize = 0;
    while i < state.len()
        invariant
            ss == states(state@),
            ts == index_view(order@).map_values(|k: int| tasks@[k]),
            pl == placement_view(placements@),
            order@.len() == placements@.len(),
            forall|q: int| 0 <= q < order@.len() ==> #[trigger] order@[q] < tasks@.len(),
            i <= state@.len(),
            nodes@.map_values(|e: NodeSchedule| (e.node, e.tasks@)) == sched_map_of(ss, i as nat, ts, pl),
        decreases state@.len() - i,
    {
        let name = &state[i].name;
        proof {
            assert(ss[i as int].name == *name);
        }
        let mut on: Vec<SchedTask> = Vec::new();
        let mut k: usize = 0;
        while k < order.len()
            invariant
                ss == states(state@),
                ts == index_view(order@).map_values(|k: int| tasks@[k]),
                pl == placement_view(placements@),
                order@.len() == placements@.len(),
                forall|q: int| 0 <= q < order@.len() ==> #[trigger] order@[q] < tasks@.len(),
                i < state@.len(),
                *name == ss[i as int].name,
                k <= order@.len(),
                on@ == placed_on(ts.take(k as int), pl.take(k as int), i as int, *name),
            decreases order@.len() - k,
        {
            proof {
                assert(ts.take(k + 1).drop_last() =~= ts.take(k as int));
                assert(pl.take(k + 1).drop_last() =~= pl.take(k as int));
                assert(ts.take(k + 1).last() == tasks@[order@[k as int] as int]);
                assert(pl.take(k + 1).last() == (placements@[k as int].0 as int, placements@[k as int].1));
            }
            let (node_index, cpu) = placements[k];
            if node_index == i {
                let st = make_sched_task(&tasks[order[k]], name, cpu);
                on.push(st);
            }
            k = k + 1;
        }
        proof {
            assert(ts.take(k as int) =~= ts);
            assert(pl.take(k as int) =~= pl);
        }
        let ghost before = nodes@;
        if on.len() > 0 {
            nodes.push(NodeSchedule { node: name.clone(), tasks: on });
            proof {
                assert(nodes@.map_values(|e: NodeSchedule| (e.node, e.tasks@)) =~= before.map_values(
                    |e: NodeSchedule| (e.node, e.tasks@),
                ).push((ss[i as int].name, placed_on(ts, pl, i as int, ss[i as int].name))));
            }
        }
        i = i + 1;
    }
    NodeSchedMap { nodes }
}

/// The algorithm a name selects.
fn algorithm_from_name(name: &str) -> (r: Option<Algorithm>)
    ensures
        r == algorithm_named(name@),
{
    if str_eq(name, "target_node_priority") {
        Some(Algorithm::TargetNodePriority)
    } else if str_eq(name, "least_loaded") {
        Some(Algorithm::LeastLoaded)
    } else if str_eq(name, "best_fit_decreasing") {
        Some(Algorithm::BestFitDecreasing)
    } else {
        None
    }
}

/// Indices `0..n` in order.
fn identity_order(n: usize) -> (r: Vec<usize>)
    ensures
        r@.len() == n,
        forall|q: int| 0 <= q < n ==> #[trigger] r@[q] == q,
{
    let mut v: Vec<usize> = Vec::new();
    let mut i: usize = 0;
    while i < n
        invariant
            i <= n,
            v@.len() == i,
            forall|q: int| 0 <= q < i ==> #[trigger] v@[q] == q,
        decreases n - i,
    {
        v.push(i);
        i = i + 1;
    }
    v
}

proof fn lemma_run_stays_err(alg: Algorithm, s: Seq<NodeState>, ts: Seq<Task>, i: int)
    requires
        0 <= i <= ts.len(),
        run(alg, s, ts.take(i)) is Err,
    ensures
        run(alg, s, ts.take(ts.len() as int)) == run(alg, s, ts.take(i)),
    decreases ts.len() - i,
{
    if i < ts.len() {
        assert(ts.take(i + 1).drop_last() =~= ts.take(i));
        lemma_run_stays_err(alg, s, ts, i + 1);
    }
}

proof fn lemma_place_on_keeps_wf(s: Seq<NodeState>, t: Task, i: int)
    requires
        state_wf(s),
        0 <= i < s.len(),
        eligible(s[i], t),
    ensures
        place_on(s, t, i) matches Ok((s2, p)) && state_wf(s2) && s2.len() == s.len() && p.0 == i
            && cpu_choice(s[i], t) is Some && 0 <= cpu_choice(s[i], t)->Some_0 < s[i].cpus.len()
            && p.1 == s[i].cpus[cpu_choice(s[i], t)->Some_0]
            && s2 == add_load(s, i, cpu_choice(s[i], t)->Some_0, t.util() as int),
{
    lemma_cpu_choice_fits(s[i], t);
    let j = cpu_choice(s[i], t)->Some_0;
    let s2 = add_load(s, i, j, t.util() as int);
    assert forall|k: int| 0 <= k < s2.len() implies node_wf(#[trigger] s2[k]) by {
        if k == i {
            assert forall|q: int| 0 <= q < s2[k].loads.len() implies 0 <= #[trigger] s2[k].loads[q] <= CPU_UTILIZATION_THRESHOLD_PPB by {
                if q != j {
                    assert(s2[k].loads[q] == s[i].loads[q]);
                }
            }
        }
    }
}

proof fn lemma_step_keeps_wf(alg: Algorithm, s: Seq<NodeState>, t: Task)
    requires
        state_wf(s),
    ensures
        step(alg, s, t) matches Ok((s2, p)) ==> state_wf(s2) && s2.len() == s.len() && 0 <= p.0 < s.len()
            && cpu_choice(s[p.0], t) is Some && 0 <= cpu_choice(s[p.0], t)->Some_0 < s[p.0].cpus.len()
            && p.1 == s[p.0].cpus[cpu_choice(s[p.0], t)->Some_0]
            && s2 == add_load(s, p.0, cpu_choice(s[p.0], t)->Some_0, t.util() as int),
{
    match alg {
        Algorithm::TargetNodePriority => {
            if t.workload_id@.len() > 0 && t.target_node@.len() > 0 {
                if let Some(i) = node_index(s, t.target_node@) {
                    let c = choose|c: int| 0 <= c < s.len() && #[trigger] s[c].name@ == t.target_node@;
                    assert(0 <= i < s.len());
                    if admission(s[i], t) is None && cpu_choice(s[i], t) is Some {
                        lemma_place_on_keeps_wf(s, t, i);
                    }
                }
            }
        },
        Algorithm::LeastLoaded => {
            if let Some(i) = least_loaded_choice(s, t) {
                assert(is_least_loaded(s, t, i));
                lemma_place_on_keeps_wf(s, t, i);
            }
        },
        Algorithm::BestFitDecreasing => {
            if let Some(i) = best_fit_choice(s, t) {
                let hint = if t.target_node@.len() > 0 { node_index(s, t.target_node@) } else { None };
                if hint is Some && eligible(s[hint->Some_0], t) {
                    let c = choose|c: int| 0 <= c < s.len() && #[trigger] s[c].name@ == t.target_node@;
                    assert(0 <= i < s.len());
                } else {
                    assert(is_best_fit(s, t, i));
                }
                lemma_place_on_keeps_wf(s, t, i);
            }
        },
    }
}

/// No run pushes a CPU past the 90% cap: starting from a state whose CPU
/// loads are within the cap, every CPU load after a successful run still is.
pub proof fn lemma_run_respects_cap(alg: Algorithm, s: Seq<NodeState>, ts: Seq<Task>)
    requires
        state_wf(s),
    ensures
        run(alg, s, ts) matches Ok((s2, pl)) ==> state_wf(s2) && forall|i: int, j: int|
            0 <= i < s2.len() && 0 <= j < s2[i].loads.len() ==> #[trigger] s2[i].loads[j]
                <= CPU_UTILIZATION_THRESHOLD_PPB,
    decreases ts.len(),
{
    if ts.len() > 0 {
        lemma_run_respects_cap(alg, s, ts.drop_last());
        if let Ok((s1, pl)) = run(alg, s, ts.drop_last()) {
            lemma_step_keeps_wf(alg, s1, ts.last());
        }
    }
    if let Ok((s2, pl)) = run(alg, s, ts) {
        assert forall|i: int, j: int| 0 <= i < s2.len() && 0 <= j < s2[i].loads.len() implies #[trigger] s2[i].loads[j]
            <= CPU_UTILIZATION_THRESHOLD_PPB by {
            assert(node_wf(s2[i]));
        }
    }
}

/// The state a run starts from is within the cap: every CPU idle.
pub proof fn lemma_initial_state_wf(nodes: Seq<NodeConfig>)
    requires
        crate::config::sorted_by_name(nodes),
    ensures
        state_wf(initial_state(nodes)),
{
    let s = initial_state(nodes);
    assert forall|i: int| 0 <= i < s.len() implies node_wf(#[trigger] s[i]) by {
        lemma_distinct(nodes[i].available_cpus@);
    }
    assert forall|a: int, b: int| 0 <= a < b < s.len() implies s[a].name@ != s[b].name@ by {
        assert(seq_lt(nodes[a].name@, nodes[b].name@));
        if nodes[a].name@ == nodes[b].name@ {
            lemma_seq_lt_irreflexive(nodes[a].name@);
        }
    }
}

/// Number of placements onto node `i`.
pub open spec fn count_at(pl: Seq<(int, u32)>, i: int) -> nat
    decreases pl.len(),
{
    if pl.len() == 0 {
        0
    } else {
        count_at(pl.drop_last(), i) + if pl.last().0 == i { 1nat } else { 0nat }
    }
}

/// Number of placements onto one of the nodes `0..n`.
pub open spec fn count_below(pl: Seq<(int, u32)>, n: int) -> nat
    decreases pl.len(),
{
    if pl.len() == 0 {
        0
    } else {
        count_below(pl.drop_last(), n) + if 0 <= pl.last().0 < n { 1nat } else { 0nat }
    }
}

/// Number of tasks over all entries of a result map.
pub open spec fn placed_count(entries: Seq<(String, Seq<SchedTask>)>) -> nat
    decreases entries.len(),
{
    if entries.len() == 0 {
        0
    } else {
        placed_count(entries.drop_last()) + entries.last().1.len()
    }
}

proof fn lemma_placed_on_len(ts: Seq<Task>, pl: Seq<(int, u32)>, i: int, name: String)
    requires
        ts.len() == pl.len(),
    ensures
        placed_on(ts, pl, i, name).len() == count_at(pl, i),
    decreases ts.len(),
{
    if ts.len() > 0 {
        lemma_placed_on_len(ts.drop_last(), pl.drop_last(), i, name);
    }
}

proof fn lemma_count_below_step(pl: Seq<(int, u32)>, n: int)
    requires
        n > 0,
    ensures
        count_below(pl, n) == count_below(pl, n - 1) + count_at(pl, n - 1),
    decreases pl.len(),
{
    if pl.len() > 0 {
        lemma_count_below_step(pl.drop_last(), n);
    }
}

proof fn lemma_count_below_all(pl: Seq<(int, u32)>, n: int)
    requires
        forall|k: int| 0 <= k < pl.len() ==> 0 <= #[trigger] pl[k].0 < n,
    ensures
        count_below(pl, n) == pl.len(),
    decreases pl.len(),
{
    if pl.len() > 0 {
        assert(pl.last() == pl[pl.len() - 1]);
        lemma_count_below_all(pl.drop_last(), n);
    }
}

proof fn lemma_sched_map_count(s: Seq<NodeState>, n: nat, ts: Seq<Task>, pl: Seq<(int, u32)>)
    requires
        ts.len() == pl.len(),
        n <= s.len(),
    ensures
        placed_count(sched_map_of(s, n, ts, pl)) == count_below(pl, n as int),
    decreases n,
{
    if n > 0 {
        lemma_sched_map_count(s, (n - 1) as nat, ts, pl);
        lemma_placed_on_len(ts, pl, n - 1, s[n - 1].name);
        lemma_count_below_step(pl, n as int);
        let rest = sched_map_of(s, (n - 1) as nat, ts, pl);
        let on = placed_on(ts, pl, n - 1, s[n - 1].name);
        if on.len() > 0 {
            assert(rest.push((s[n - 1].name, on)).drop_last() =~= rest);
        }
    } else {
        lemma_count_below_zero(pl);
    }
}

proof fn lemma_count_below_zero(pl: Seq<(int, u32)>)
    ensures
        count_below(pl, 0) == 0,
    decreases pl.len(),
{
    if pl.len() > 0 {
        lemma_count_below_zero(pl.drop_last());
    }
}

proof fn lemma_run_shape(alg: Algorithm, s: Seq<NodeState>, ts: Seq<Task>)
    requires
        state_wf(s),
    ensures
        run(alg, s, ts) matches Ok((s2, pl)) ==> state_wf(s2) && s2.len() == s.len() && pl.len() == ts.len()
            && forall|k: int| 0 <= k < pl.len() ==> 0 <= #[trigger] pl[k].0 < s.len(),
    decreases ts.len(),
{
    if ts.len() > 0 {
        lemma_run_shape(alg, s, ts.drop_last());
        if let Ok((s1, pl1)) = run(alg, s, ts.drop_last()) {
            lemma_step_keeps_wf(alg, s1, ts.last());
            if let Ok((s2, p)) = step(alg, s1, ts.last()) {
                let pl = pl1.push(p);
                assert forall|k: int| 0 <= k < pl.len() implies 0 <= #[trigger] pl[k].0 < s.len() by {
                    if k < pl1.len() {
                        assert(pl[k] == pl1[k]);
                    }
                }
            }
        }
    }
}

/// No task is lost: when scheduling succeeds, the result holds exactly as
/// many placed tasks as were handed in.
pub proof fn lemma_plan_places_every_task(alg: Algorithm, nodes: Seq<NodeConfig>, tasks: Seq<Task>)
    requires
        crate::config::sorted_by_name(nodes),
    ensures
        plan(alg, initial_state(nodes), tasks) matches Ok(entries) ==> placed_count(entries) == tasks.len(),
{
    let s = initial_state(nodes);
    lemma_initial_state_wf(nodes);
    let ts = processing_order(alg, tasks);
    if alg == Algorithm::BestFitDecreasing {
        lemma_decreasing_order(tasks, tasks.len());
    }
    assert(ts.len() == tasks.len());
    lemma_run_shape(alg, s, ts);
    if let Ok((s2, pl)) = run(alg, s, ts) {
        lemma_sched_map_count(s2, s2.len(), ts, pl);
        lemma_count_below_all(pl, s2.len() as int);
    }
}

/// Sum of the utilizations of the tasks among `ts` that `pl` put on CPU `c`
/// of node `i`.
pub open spec fn util_on(ts: Seq<Task>, pl: Seq<(int, u32)>, i: int, c: u32) -> int
    decreases ts.len(),
{
    if ts.len() == 0 || pl.len() != ts.len() {
        0
    } else {
        util_on(ts.drop_last(), pl.drop_last(), i, c) + if pl.last() == (i, c) {
            ts.last().util() as int
        } else {
            0int
        }
    }
}

proof fn lemma_run_load_at(alg: Algorithm, s: Seq<NodeState>, ts: Seq<Task>, i: int, j: int)
    requires
        state_wf(s),
        0 <= i < s.len(),
        0 <= j < s[i].cpus.len(),
    ensures
        run(alg, s, ts) matches Ok((s2, pl)) ==> s2[i].cpus == s[i].cpus && s2[i].loads[j] == s[i].loads[j]
            + util_on(ts, pl, i, s[i].cpus[j]),
    decreases ts.len(),
{
    lemma_run_shape(alg, s, ts);
    if ts.len() == 0 {
    } else {
        lemma_run_load_at(alg, s, ts.drop_last(), i, j);
        lemma_run_shape(alg, s, ts.drop_last());
        match run(alg, s, ts.drop_last()) {
            Ok((s1, pl1)) => {
                let t = ts.last();
                lemma_step_keeps_wf(alg, s1, t);
                match step(alg, s1, t) {
                    Ok((s2, p)) => {
                        let pl = pl1.push(p);
                        let j0 = cpu_choice(s1[p.0], t)->Some_0;
                        assert(pl.drop_last() =~= pl1);
                        assert(pl.last() == p);
                        assert(s1[i].loads[j] == s[i].loads[j] + util_on(ts.drop_last(), pl1, i, s[i].cpus[j]));
                        assert(util_on(ts, pl, i, s[i].cpus[j]) == util_on(ts.drop_last(), pl1, i, s[i].cpus[j]) + if p
                            == (i, s[i].cpus[j]) {
                            t.util() as int
                        } else {
                            0int
                        });
                        if i == p.0 && j != j0 {
                            assert(node_wf(s1[i]));
                            if j < j0 {
                                assert(s1[i].cpus[j] != s1[i].cpus[j0]);
                            } else {
                                assert(s1[i].cpus[j0] != s1[i].cpus[j]);
                            }
                        }
                    },
                    Err(_) => {},
                }
            },
            Err(_) => {},
        }
    }
}

/// The cap holds for the tasks themselves: after a successful run from the
/// idle state, the tasks on any one CPU have utilizations (each rounded up,
/// so never below `runtime / period`) that sum to at most 90%.
pub proof fn lemma_plan_respects_cap(alg: Algorithm, nodes: Seq<NodeConfig>, tasks: Seq<Task>)
    requires
        crate::config::sorted_by_name(nodes),
    ensures
        ({
            let s = initial_state(nodes);
            let ts = processing_order(alg, tasks);
            run(alg, s, ts) matches Ok((s2, pl)) ==> forall|i: int, j: int|
                0 <= i < s.len() && 0 <= j < s[i].cpus.len() ==> #[trigger] util_on(ts, pl, i, s[i].cpus[j])
                    <= CPU_UTILIZATION_THRESHOLD_PPB
        }),
{
    let s = initial_state(nodes);
    let ts = processing_order(alg, tasks);
    lemma_initial_state_wf(nodes);
    lemma_run_shape(alg, s, ts);
    lemma_run_respects_cap(alg, s, ts);
    if let Ok((s2, pl)) = run(alg, s, ts) {
        assert forall|i: int, j: int| 0 <= i < s.len() && 0 <= j < s[i].cpus.len() implies #[trigger] util_on(ts, pl, i, s[i].cpus[j])
            <= CPU_UTILIZATION_THRESHOLD_PPB by {
            lemma_run_load_at(alg, s, ts, i, j);
            assert(s[i].loads[j] == 0);
            assert(s2[i].loads[j] <= CPU_UTILIZATION_THRESHOLD_PPB);
        }
    }
}

/// Runtimes along `order` never increase.
pub open spec fn runtimes_non_increasing(tasks: Seq<Task>, order: Seq<int>) -> bool {
    forall|a: int, b: int| 0 <= a < b < order.len() ==> tasks[order[a]].runtime_us >= tasks[order[b]].runtime_us
}

proof fn lemma_insert_keeps_order(tasks: Seq<Task>, o: Seq<int>, k: int)
    requires
        runtimes_non_increasing(tasks, o),
    ensures
        runtimes_non_increasing(tasks, insert_by_runtime(tasks, o, k)),
        insert_by_runtime(tasks, o, k).len() == o.len() + 1,
        forall|x: int| #[trigger] insert_by_runtime(tasks, o, k).contains(x) <==> (o.contains(x) || x == k),
    decreases o.len(),
{
    let r = insert_by_runtime(tasks, o, k);
    if o.len() == 0 {
        assert(r =~= seq![k]);
        assert forall|x: int| r.contains(x) <==> (o.contains(x) || x == k) by {
            if x == k {
                assert(r[0] == k);
            }
        }
    } else if tasks[o[0]].runtime_us < tasks[k].runtime_us {
        assert forall|x: int| r.contains(x) <==> (o.contains(x) || x == k) by {
            if r.contains(x) {
                let q = choose|q: int| 0 <= q < r.len() && r[q] == x;
                if q > 0 {
                    assert(o[q - 1] == x);
                }
            }
            if o.contains(x) {
                let q = choose|q: int| 0 <= q < o.len() && o[q] == x;
                assert(r[q + 1] == x);
            }
            if x == k {
                assert(r[0] == k);
            }
        }
        assert forall|a: int, b: int| 0 <= a < b < r.len() implies tasks[r[a]].runtime_us >= tasks[r[b]].runtime_us by {
            if a == 0 {
                assert(r[b] == o[b - 1]);
                if b - 1 > 0 {
                    assert(tasks[o[0]].runtime_us >= tasks[o[b - 1]].runtime_us);
                }
            } else {
                assert(r[a] == o[a - 1] && r[b] == o[b - 1]);
            }
        }
    } else {
        let d = o.drop_first();
        assert(runtimes_non_increasing(tasks, d)) by {
            assert forall|a: int, b: int| 0 <= a < b < d.len() implies tasks[d[a]].runtime_us >= tasks[d[b]].runtime_us by {
                assert(d[a] == o[a + 1] && d[b] == o[b + 1]);
            }
        }
        lemma_insert_keeps_order(tasks, d, k);
        let rd = insert_by_runtime(tasks, d, k);
        assert(r == seq![o[0]] + rd);
        assert forall|x: int| r.contains(x) <==> (o.contains(x) || x == k) by {
            assert(rd.contains(x) <==> (d.contains(x) || x == k));
            if r.contains(x) {
                let q = choose|q: int| 0 <= q < r.len() && r[q] == x;
                if q > 0 {
                    assert(rd[q - 1] == x);
                    assert(rd.contains(x));
                    if d.contains(x) {
                        let m = choose|m: int| 0 <= m < d.len() && d[m] == x;
                        assert(o[m + 1] == x);
                    }
                } else {
                    assert(o[0] == x);
                }
            }
            if o.contains(x) {
                let q = choose|q: int| 0 <= q < o.len() && o[q] == x;
                if q > 0 {
                    assert(d[q - 1] == x);
                    assert(rd.contains(x));
                    let m = choose|m: int| 0 <= m < rd.len() && rd[m] == x;
                    assert(r[m + 1] == x);
                } else {
                    assert(r[0] == x);
                }
            }
            if x == k {
                assert(rd.contains(k));
                let m = choose|m: int| 0 <= m < rd.len() && rd[m] == k;
                assert(r[m + 1] == k);
            }
        }
        assert forall|a: int, b: int| 0 <= a < b < r.len() implies tasks[r[a]].runtime_us >= tasks[r[b]].runtime_us by {
            if a == 0 {
                assert(rd.contains(r[b])) by {
                    assert(rd[b - 1] == r[b]);
                }
                if r[b] == k {
                } else {
                    assert(d.contains(r[b]));
                    let m = choose|m: int| 0 <= m < d.len() && d[m] == r[b];
                    assert(o[m + 1] == r[b]);
                }
            } else {
                assert(r[a] == rd[a - 1] && r[b] == rd[b - 1]);
            }
        }
    }
}

/// `best_fit_decreasing` handles the tasks by non-increasing runtime, each
/// task exactly once.
pub proof fn lemma_decreasing_order(tasks: Seq<Task>, n: nat)
    requires
        n <= tasks.len(),
    ensures
        runtimes_non_increasing(tasks, decreasing_runtime_order(tasks, n)),
        decreasing_runtime_order(tasks, n).len() == n,
        forall|x: int| #[trigger] decreasing_runtime_order(tasks, n).contains(x) <==> 0 <= x < n,
    decreases n,
{
    if n > 0 {
        lemma_decreasing_order(tasks, (n - 1) as nat);
        let prev = decreasing_runtime_order(tasks, (n - 1) as nat);
        lemma_insert_keeps_order(tasks, prev, n - 1);
        assert forall|x: int| #[trigger] decreasing_runtime_order(tasks, n).contains(x) <==> 0 <= x < n by {
            assert(decreasing_runtime_order(tasks, n) == insert_by_runtime(tasks, prev, n - 1));
            assert(prev.contains(x) <==> 0 <= x < n - 1);
        }
    } else {
        assert forall|x: int| #[trigger] decreasing_runtime_order(tasks, n).contains(x) <==> 0 <= x < n by {
            assert(decreasing_runtime_order(tasks, n) =~= Seq::<int>::empty());
        }
    }
}

/// The global scheduler, reading a shared node configuration. Every run
/// builds its own capacity state and keeps nothing afterwards.
pub struct GlobalScheduler {
    node_config_manager: Arc<NodeConfigManager>,
}

impl GlobalScheduler {
    /// The node configuration the scheduler reads.
    pub closed spec fn config(&self) -> NodeConfigManager {
        *self.node_config_manager
    }

    /// A scheduler over the given configuration.
    pub fn new(node_config_manager: Arc<NodeConfigManager>) -> (r: GlobalScheduler)
        ensures
            r.config() == *node_config_manager,
    {
        GlobalScheduler { node_config_manager }
    }

    /// Places every task of `tasks` on a node and a CPU with the algorithm
    /// named `algorithm`, and returns the tasks grouped by node.
    ///
    /// Fails with `NoTasks` on an empty list, with `ConfigNotLoaded` when no
    /// configuration is loaded, with `UnknownAlgorithm` on another name, and
    /// otherwise with the first task's failure, as `plan` states.
    pub fn schedule(&self, tasks: Vec<Task>, algorithm: &str) -> (r: Result<NodeSchedMap, SchedulerError>)
        ensures
            tasks@.len() == 0 ==> r == Err::<NodeSchedMap, SchedulerError>(SchedulerError::NoTasks),
            tasks@.len() > 0 && !self.config().loaded() ==> r == Err::<NodeSchedMap, SchedulerError>(
                SchedulerError::ConfigNotLoaded,
            ),
            tasks@.len() > 0 && self.config().loaded() ==> match algorithm_named(algorithm@) {
                None => r matches Err(SchedulerError::UnknownAlgorithm(name)) && name@ == algorithm@,
                Some(alg) => match plan(alg, initial_state(self.config().nodes()), tasks@) {
                    Ok(entries) => r matches Ok(m) && m.entries() == entries,
                    Err(e) => r == Err::<NodeSchedMap, SchedulerError>(e),
                },
            },
    {
        if tasks.len() == 0 {
            return Err(SchedulerError::NoTasks);
        }
        if !self.node_config_manager.is_loaded() {
            return Err(SchedulerError::ConfigNotLoaded);
        }
        let mut state = build_state(&self.node_config_manager);
        let alg = match algorithm_from_name(algorithm) {
            Some(a) => a,
            None => {
                return Err(SchedulerError::UnknownAlgorithm(algorithm.to_owned()));
            },
        };
        let order = match alg {
            Algorithm::BestFitDecreasing => decreasing_order(&tasks),
            _ => identity_order(tasks.len()),
        };
        let ghost s0 = states(state@);
        proof {
            assert(self.config().loaded());
        }
        let ghost ts = index_view(order@).map_values(|k: int| tasks@[k]);
        proof {
            if alg != Algorithm::BestFitDecreasing {
                assert(ts =~= tasks@);
            }
            assert(ts == processing_order(alg, tasks@));
        }
        let mut placements: Vec<(usize, u32)> = Vec::new();
        let mut k: usize = 0;
        proof {
            assert(ts.take(0) =~= Seq::<Task>::empty());
            assert(placement_view(placements@) =~= Seq::<(int, u32)>::empty());
        }
        while k < order.len()
            invariant
                state_wf(states(state@)),
                tasks@.len() > 0,
                self.config().loaded(),
                s0 == initial_state(self.config().nodes()),
                algorithm_named(algorithm@) == Some(alg),
                ts == processing_order(alg, tasks@),
                ts == index_view(order@).map_values(|k: int| tasks@[k]),
                forall|q: int| 0 <= q < order@.len() ==> #[trigger] order@[q] < tasks@.len(),
                k <= order@.len(),
                placements@.len() == k,
                run(alg, s0, ts.take(k as int)) == Ok::<(Seq<NodeState>, Seq<(int, u32)>), SchedulerError>(
                    (states(state@), placement_view(placements@)),
                ),
            decreases order@.len() - k,
        {
            proof {
                assert(ts.take(k + 1).drop_last() =~= ts.take(k as int));
                assert(ts.take(k + 1).last() == tasks@[order@[k as int] as int]);
            }
            match place_task(alg, &mut state, &tasks[order[k]]) {
                Ok(p) => {
                    let ghost before = placements@;
                    placements.push(p);
                    proof {
                        assert(placement_view(placements@) =~= placement_view(before).push((p.0 as int, p.1)));
                    }
                },
                Err(e) => {
                    proof {
                        lemma_run_stays_err(alg, s0, ts, (k + 1) as int);
                        assert(ts.take(ts.len() as int) =~= ts);
                    }
                    return Err(e);
                },
            }
            k = k + 1;
        }
        proof {
            assert(ts.take(k as int) =~= ts);
        }
        Ok(build_sched_map(&state, &tasks, &order, &placements))
    }
}

} // verus!
