//! Task data model: the mutable pre-assignment record and the wire-ready
//! post-assignment record.
use vstd::prelude::*;
use crate::text::str_eq;

verus! {

/// Utilization is expressed in parts of this many (parts per billion).
pub const UTILIZATION_SCALE: u64 = 1_000_000_000;

/// Linux scheduling policy of a task.
#[derive(Debug, Clone, Copy, PartialEq, Eq, Structural)]
pub enum SchedPolicy {
    /// `SCHED_NORMAL`.
    Normal,
    /// `SCHED_FIFO`.
    Fifo,
    /// `SCHED_RR`.
    RoundRobin,
}

impl Default for SchedPolicy {
    fn default() -> (r: SchedPolicy)
        ensures
            r == SchedPolicy::Normal,
    {
        SchedPolicy::Normal
    }
}

impl SchedPolicy {
    pub open spec fn linux_int(self) -> i32 {
        match self {
            SchedPolicy::Normal => 0,
            SchedPolicy::Fifo => 1,
            SchedPolicy::RoundRobin => 2,
        }
    }

    /// Integer value expected by the node agent and the Linux kernel.
    pub fn to_linux_int(self) -> (r: i32)
        ensures
            r == self.linux_int(),
    {
        match self {
            SchedPolicy::Normal => 0,
            SchedPolicy::Fifo => 1,
            SchedPolicy::RoundRobin => 2,
        }
    }

    /// Parses the wire integer; unknown values map to `Normal`.
    pub fn from_proto_int(v: i32) -> (r: SchedPolicy)
        ensures
            r == (if v == 1 {
                SchedPolicy::Fifo
            } else if v == 2 {
                SchedPolicy::RoundRobin
            } else {
                SchedPolicy::Normal
            }),
    {
        if v == 1 {
            SchedPolicy::Fifo
        } else if v == 2 {
            SchedPolicy::RoundRobin
        } else {
            SchedPolicy::Normal
        }
    }
}

/// Whether bit `i` of `mask` is set.
pub open spec fn bit_set(mask: u64, i: u64) -> bool {
    (mask >> i) & 1u64 == 1u64
}

/// Index of the lowest set bit of `mask` at or above `i`, or 64 when there is
/// none.
pub open spec fn lowest_set_bit_from(mask: u64, i: u64) -> u64
    decreases 64 - i,
{
    if i >= 64 {
        64
    } else if bit_set(mask, i) {
        i
    } else {
        lowest_set_bit_from(mask, (i + 1) as u64)
    }
}

/// Number of trailing zero bits of `mask` (64 for a zero mask).
pub open spec fn trailing_zeros(mask: u64) -> u64 {
    lowest_set_bit_from(mask, 0)
}

/// Counts the trailing zero bits of `mask`.
pub fn count_trailing_zeros(mask: u64) -> (r: u32)
    ensures
        r as u64 == trailing_zeros(mask),
        r <= 64,
{
    let mut i: u64 = 0;
    while i < 64 && (mask >> i) & 1u64 != 1u64
        invariant
            i <= 64,
            lowest_set_bit_from(mask, i) == trailing_zeros(mask),
        decreases 64 - i,
    {
        i = i + 1;
    }
    proof {
        assert(lowest_set_bit_from(mask, i) == i);
    }
    i as u32
}

/// CPU affinity constraint of a task.
#[derive(Debug, Clone, Copy, PartialEq, Eq, Structural)]
pub enum CpuAffinity {
    /// No constraint.
    Any,
    /// Bit N set means CPU N is allowed; only the lowest set bit is used for
    /// placement.
    Pinned(u64),
}

impl Default for CpuAffinity {
    fn default() -> (r: CpuAffinity)
        ensures
            r == CpuAffinity::Any,
    {
        CpuAffinity::Any
    }
}

impl CpuAffinity {
    /// Parses the wire bitmask: all-zero and all-one masks mean `Any`.
    pub fn from_proto(v: u64) -> (r: CpuAffinity)
        ensures
            r == (if v == 0 || v == u64::MAX {
                CpuAffinity::Any
            } else {
                CpuAffinity::Pinned(v)
            }),
    {
        if v == 0 || v == u64::MAX {
            CpuAffinity::Any
        } else {
            CpuAffinity::Pinned(v)
        }
    }

    pub open spec fn allows(self, cpu_id: u32) -> bool {
        match self {
            CpuAffinity::Any => true,
            CpuAffinity::Pinned(mask) => cpu_id < 64 && bit_set(mask, cpu_id as u64),
        }
    }

    /// Whether CPU `cpu_id` is allowed. A mask has no bit for ids of 64 and
    /// above, so those are never allowed by a `Pinned` mask.
    pub fn allows_cpu(&self, cpu_id: u32) -> (r: bool)
        ensures
            r == self.allows(cpu_id),
    {
        match self {
            CpuAffinity::Any => true,
            CpuAffinity::Pinned(mask) => cpu_id < 64 && (*mask >> (cpu_id as u64)) & 1u64 == 1u64,
        }
    }

    /// The CPU that a pinned task asks for: the lowest set bit of its mask.
    pub open spec fn pinned_cpu(self) -> Option<u32> {
        match self {
            CpuAffinity::Any => None,
            CpuAffinity::Pinned(mask) => if mask == 0 {
                None
            } else {
                Some(trailing_zeros(mask) as u32)
            },
        }
    }

    /// The lowest allowed CPU of a pinned mask; `None` for `Any`.
    pub fn lowest_cpu(&self) -> (r: Option<u32>)
        ensures
            r == self.pinned_cpu(),
    {
        match self {
            CpuAffinity::Any => None,
            CpuAffinity::Pinned(mask) => {
                if *mask == 0 {
                    None
                } else {
                    Some(count_trailing_zeros(*mask))
                }
            },
        }
    }
}

/// Utilization of a task with the given timing, in parts per billion and
/// rounded up; zero when the period is zero.
pub open spec fn util_ppb(runtime_us: u64, period_us: u64) -> nat {
    if period_us == 0 {
        0
    } else {
        ((runtime_us * UTILIZATION_SCALE + period_us - 1) / (period_us as int)) as nat
    }
}

/// Rounding up: the value never understates `runtime / period`.
pub proof fn lemma_util_ppb_rounds_up(runtime_us: u64, period_us: u64)
    requires
        period_us > 0,
    ensures
        util_ppb(runtime_us, period_us) * period_us >= runtime_us * UTILIZATION_SCALE,
        util_ppb(runtime_us, period_us) * period_us < runtime_us * UTILIZATION_SCALE + period_us,
{
    let n = runtime_us * UTILIZATION_SCALE + period_us - 1;
    let d = period_us as int;
    vstd::arithmetic::div_mod::lemma_fundamental_div_mod(n, d);
    assert(0 <= n % d < d) by {
        vstd::arithmetic::div_mod::lemma_mod_bound(n, d);
    }
    assert((n / d) * d == d * (n / d)) by (nonlinear_arith);
}

/// Pre-assignment task record; the scheduler fills the assignment.
#[derive(Debug, Clone)]
pub struct Task {
    /// Task name, unique within its workload.
    pub name: String,
    /// Workload the task belongs to.
    pub workload_id: String,
    /// Node the task asks for; empty means any node.
    pub target_node: String,
    /// Linux scheduling policy.
    pub policy: SchedPolicy,
    /// Real-time priority.
    pub priority: i32,
    /// CPU affinity constraint.
    pub affinity: CpuAffinity,
    /// Memory requirement in MB; zero means not specified.
    pub memory_mb: u64,
    /// Period in microseconds.
    pub period_us: u64,
    /// Worst-case execution time in microseconds.
    pub runtime_us: u64,
    /// Relative deadline in microseconds.
    pub deadline_us: u64,
    /// Release offset in microseconds.
    pub release_time_us: u32,
    /// Consecutive deadline misses tolerated before a fault is raised.
    pub max_dmiss: i32,
    /// Node the scheduler assigned; empty until assigned.
    pub assigned_node: String,
    /// CPU the scheduler assigned; `None` until assigned.
    pub assigned_cpu: Option<u32>,
}

impl Default for Task {
    fn default() -> (r: Task)
        ensures
            r.name@.len() == 0,
            r.workload_id@.len() == 0,
            r.target_node@.len() == 0,
            r.policy == SchedPolicy::Normal,
            r.priority == 0,
            r.affinity == CpuAffinity::Any,
            r.memory_mb == 0,
            r.period_us == 0,
            r.runtime_us == 0,
            r.deadline_us == 0,
            r.release_time_us == 0,
            r.max_dmiss == 0,
            r.assigned_node@.len() == 0,
            r.assigned_cpu.is_none(),
    {
        Task {
            name: String::new(),
            workload_id: String::new(),
            target_node: String::new(),
            policy: SchedPolicy::Normal,
            priority: 0,
            affinity: CpuAffinity::Any,
            memory_mb: 0,
            period_us: 0,
            runtime_us: 0,
            deadline_us: 0,
            release_time_us: 0,
            max_dmiss: 0,
            assigned_node: String::new(),
            assigned_cpu: None,
        }
    }
}

impl Task {
    pub open spec fn util(&self) -> nat {
        util_ppb(self.runtime_us, self.period_us)
    }

    pub open spec fn assigned(&self) -> bool {
        self.assigned_node@.len() > 0 && self.assigned_cpu.is_some()
    }

    /// CPU utilization `runtime_us / period_us` in parts per billion, rounded
    /// up; zero when the period is zero.
    pub fn utilization(&self) -> (r: u128)
        ensures
            r == self.util(),
            r <= self.runtime_us * UTILIZATION_SCALE,
    {
        if self.period_us == 0 {
            0
        } else {
            let p = self.period_us as u128;
            let scaled = (self.runtime_us as u128) * (UTILIZATION_SCALE as u128);
            proof {
                assert((self.runtime_us as int) * (UTILIZATION_SCALE as int) <= 0xffff_ffff_ffff_ffffint
                    * 1_000_000_000int) by (nonlinear_arith)
                    requires
                        self.runtime_us <= 0xffff_ffff_ffff_ffffu64,
                ;
            }
            proof {
                let x = (self.runtime_us as int) * (UTILIZATION_SCALE as int);
                let pp = self.period_us as int;
                assert(x + pp - 1 <= x * pp || x == 0) by (nonlinear_arith)
                    requires
                        x >= 0,
                        pp >= 1,
                ;
                if x > 0 {
                    vstd::arithmetic::div_mod::lemma_div_is_ordered(x + pp - 1, x * pp, pp);
                    vstd::arithmetic::div_mod::lemma_div_multiples_vanish(x, pp);
                    assert(x * pp == pp * x) by (nonlinear_arith);
                } else {
                    vstd::arithmetic::div_mod::lemma_basic_div(pp - 1, pp);
                }
            }
            (scaled + (p - 1)) / p
        }
    }

    /// Whether both the node and the CPU have been assigned.
    pub fn is_assigned(&self) -> (r: bool)
        ensures
            r == self.assigned(),
    {
        !self.assigned_node.as_str().is_empty() && self.assigned_cpu.is_some()
    }
}

/// Microseconds to nanoseconds, saturating at `u64::MAX`.
pub open spec fn us_to_ns(us: u64) -> u64 {
    if us * 1000 > u64::MAX {
        u64::MAX
    } else {
        (us * 1000) as u64
    }
}

fn saturating_us_to_ns(us: u64) -> (r: u64)
    ensures
        r == us_to_ns(us),
{
    match us.checked_mul(1000) {
        Some(v) => v,
        None => u64::MAX,
    }
}

/// Wire-ready record of a placed task, timing in nanoseconds.
#[derive(Debug, Clone)]
pub struct SchedTask {
    /// Task name.
    pub name: String,
    /// Node the task runs on.
    pub assigned_node: String,
    /// CPU the task runs on.
    pub assigned_cpu: u32,
    /// Linux scheduling policy.
    pub policy: SchedPolicy,
    /// Real-time priority.
    pub priority: i32,
    /// Period in nanoseconds.
    pub period_ns: u64,
    /// Worst-case execution time in nanoseconds.
    pub runtime_ns: u64,
    /// Deadline in nanoseconds.
    pub deadline_ns: u64,
    /// Release offset in microseconds.
    pub release_time_us: i32,
    /// Consecutive deadline misses tolerated.
    pub max_dmiss: i32,
}

/// The wire record of `task` placed on `node`, CPU `cpu`.
pub open spec fn sched_task_of(task: Task, node: String, cpu: u32) -> SchedTask {
    SchedTask {
        name: task.name,
        assigned_node: node,
        assigned_cpu: cpu,
        policy: task.policy,
        priority: task.priority,
        period_ns: us_to_ns(task.period_us),
        runtime_ns: us_to_ns(task.runtime_us),
        deadline_ns: us_to_ns(task.deadline_us),
        release_time_us: task.release_time_us as i32,
        max_dmiss: task.max_dmiss,
    }
}

/// Builds the wire record of `task` placed on `node`, CPU `cpu`.
pub(crate) fn make_sched_task(task: &Task, node: &String, cpu: u32) -> (r: SchedTask)
    ensures
        r == sched_task_of(*task, *node, cpu),
{
    SchedTask {
        name: task.name.clone(),
        assigned_node: node.clone(),
        assigned_cpu: cpu,
        policy: task.policy,
        priority: task.priority,
        period_ns: saturating_us_to_ns(task.period_us),
        runtime_ns: saturating_us_to_ns(task.runtime_us),
        deadline_ns: saturating_us_to_ns(task.deadline_us),
        release_time_us: task.release_time_us as i32,
        max_dmiss: task.max_dmiss,
    }
}

impl SchedTask {
    /// Converts a fully assigned task into its wire record.
    pub fn from_task(task: &Task) -> (r: SchedTask)
        requires
            task.assigned(),
        ensures
            r == sched_task_of(*task, task.assigned_node, task.assigned_cpu->Some_0),
    {
        let cpu = match task.assigned_cpu {
            Some(c) => c,
            None => 0,
        };
        make_sched_task(task, &task.assigned_node, cpu)
    }
}

/// The tasks placed on one node, in placement order.
#[derive(Debug, Clone)]
pub struct NodeSchedule {
    /// Node name.
    pub node: String,
    /// Tasks placed on the node.
    pub tasks: Vec<SchedTask>,
}

/// Scheduling result: per node, in node-name order, the tasks placed on it.
/// Nodes without tasks are absent.
#[derive(Debug, Clone)]
pub struct NodeSchedMap {
    /// One entry per node that received tasks.
    pub nodes: Vec<NodeSchedule>,
}

impl NodeSchedMap {
    /// Node names paired with their task sequences.
    pub open spec fn entries(&self) -> Seq<(String, Seq<SchedTask>)> {
        self.nodes@.map_values(|e: NodeSchedule| (e.node, e.tasks@))
    }

    /// Number of nodes that received tasks.
    pub fn len(&self) -> (r: usize)
        ensures
            r == self.entries().len(),
    {
        self.nodes.len()
    }

    /// The tasks placed on `node`, if any.
    pub fn get(&self, node: &str) -> (r: Option<&Vec<SchedTask>>)
        ensures
            r.is_none() <==> (forall|i: int| 0 <= i < self.entries().len() ==> self.entries()[i].0@ != node@),
            r.is_some() ==> exists|i: int|
                0 <= i < self.entries().len() && self.entries()[i].0@ == node@ && r->Some_0@ == self.entries()[i].1,
    {
        let mut i: usize = 0;
        while i < self.nodes.len()
            invariant
                i <= self.nodes@.len(),
                forall|k: int| 0 <= k < i ==> self.entries()[k].0@ != node@,
            decreases self.nodes@.len() - i,
        {
            if str_eq(self.nodes[i].node.as_str(), node) {
                proof {
                    assert(self.entries()[i as int] == (self.nodes@[i as int].node, self.nodes@[i as int].tasks@));
                }
                return Some(&self.nodes[i].tasks);
            }
            i = i + 1;
        }
        None
    }

    /// Whether `node` received any task.
    pub fn contains_key(&self, node: &str) -> (r: bool)
        ensures
            r == exists|i: int| 0 <= i < self.entries().len() && self.entries()[i].0@ == node@,
    {
        self.get(node).is_some()
    }
}

} // verus!
