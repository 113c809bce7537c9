//! Hyperperiod of a workload: the LCM of its distinct task periods, with a
//! per-workload store of the results.
use vstd::prelude::*;
use crate::task::Task;
use crate::text::str_eq;
use math::{lcm_of_seq, lcm_of_slice};

pub mod math;

verus! {

/// Default upper limit of a hyperperiod: one hour in microseconds.
pub const DEFAULT_HYPERPERIOD_LIMIT_US: u64 = 3_600_000_000;

/// Errors of the hyperperiod calculation.
#[derive(Debug, PartialEq, Eq, Structural, Clone, Copy)]
pub enum HyperperiodError {
    /// No task of the workload has a non-zero period.
    NoValidPeriods,
    /// The LCM of `a` and `b` does not fit in `u64`.
    Overflow { a: u64, b: u64 },
    /// The hyperperiod exceeds the configured limit.
    TooLarge { value_us: u64, limit_us: u64 },
}

/// A task that counts for workload `id`: it belongs to it and has a period.
pub open spec fn task_matches(t: Task, id: Seq<char>) -> bool {
    t.workload_id@ == id && t.period_us > 0
}

/// Number of tasks of `tasks` that count for workload `id`.
pub open spec fn matching_count(id: Seq<char>, tasks: Seq<Task>) -> nat
    decreases tasks.len(),
{
    if tasks.len() == 0 {
        0
    } else {
        matching_count(id, tasks.drop_last()) + if task_matches(tasks.last(), id) {
            1nat
        } else {
            0nat
        }
    }
}

/// Some task of workload `id` has period `p`.
pub open spec fn has_period(id: Seq<char>, tasks: Seq<Task>, p: u64) -> bool {
    exists|i: int| 0 <= i < tasks.len() && task_matches(tasks[i], id) && #[trigger] tasks[i].period_us == p
}

pub open spec fn strictly_increasing(s: Seq<u64>) -> bool {
    forall|i: int, j: int| 0 <= i < j < s.len() ==> s[i] < s[j]
}

/// The distinct periods of workload `id`, ascending.
pub open spec fn distinct_periods(id: Seq<char>, tasks: Seq<Task>) -> Seq<u64> {
    choose|ps: Seq<u64>|
        strictly_increasing(ps) && forall|p: u64| ps.contains(p) <==> has_period(id, tasks, p)
}

/// A stored hyperperiod result, as plain values.
pub struct HyperperiodRecord {
    pub workload_id: Seq<char>,
    pub hyperperiod_us: u64,
    pub unique_periods: Seq<u64>,
    pub task_count: nat,
}

/// What `calculate_hyperperiod` yields for workload `id` under `limit_us`.
pub open spec fn hyperperiod_outcome(id: Seq<char>, tasks: Seq<Task>, limit_us: u64) -> Result<
    HyperperiodRecord,
    HyperperiodError,
> {
    if matching_count(id, tasks) == 0 {
        Err(HyperperiodError::NoValidPeriods)
    } else {
        let ps = distinct_periods(id, tasks);
        match lcm_of_seq(ps) {
            Err(e) => Err(e),
            Ok(h) => if h > limit_us {
                Err(HyperperiodError::TooLarge { value_us: h, limit_us })
            } else {
                Ok(
                    HyperperiodRecord {
                        workload_id: id,
                        hyperperiod_us: h,
                        unique_periods: ps,
                        task_count: matching_count(id, tasks),
                    },
                )
            },
        }
    }
}

/// Two ascending sequences with the same elements are equal.
proof fn lemma_sorted_same_elements(s1: Seq<u64>, s2: Seq<u64>)
    requires
        strictly_increasing(s1),
        strictly_increasing(s2),
        forall|x: u64| s1.contains(x) <==> s2.contains(x),
    ensures
        s1 == s2,
    decreases s1.len(),
{
    if s1.len() == 0 {
        if s2.len() > 0 {
            assert(s2.contains(s2[0]));
        }
        assert(s1 =~= s2);
    } else {
        assert(s1.contains(s1[0]));
        assert(s2.len() > 0);
        assert(s2.contains(s2[0]));
        let j = choose|j: int| 0 <= j < s2.len() && s2[j] == s1[0];
        let i = choose|i: int| 0 <= i < s1.len() && s1[i] == s2[0];
        assert(s1[0] <= s1[i]);
        assert(s2[0] <= s2[j]);
        assert(s1[0] == s2[0]);
        let t1 = s1.drop_first();
        let t2 = s2.drop_first();
        assert forall|x: u64| t1.contains(x) <==> t2.contains(x) by {
            if t1.contains(x) {
                let k = choose|k: int| 0 <= k < t1.len() && t1[k] == x;
                assert(s1[k + 1] == x && s1[0] < s1[k + 1]);
                assert(s2.contains(x));
                let m = choose|m: int| 0 <= m < s2.len() && s2[m] == x;
                assert(m != 0);
                assert(t2[m - 1] == x);
            }
            if t2.contains(x) {
                let k = choose|k: int| 0 <= k < t2.len() && t2[k] == x;
                assert(s2[k + 1] == x && s2[0] < s2[k + 1]);
                assert(s1.contains(x));
                let m = choose|m: int| 0 <= m < s1.len() && s1[m] == x;
                assert(m != 0);
                assert(t1[m - 1] == x);
            }
        }
        lemma_sorted_same_elements(t1, t2);
        assert(s1 =~= s2) by {
            assert forall|k: int| 0 <= k < s1.len() implies s1[k] == s2[k] by {
                if k > 0 {
                    assert(s1[k] == t1[k - 1]);
                    assert(s2[k] == t2[k - 1]);
                }
            }
        }
    }
}

proof fn lemma_has_period_step(id: Seq<char>, tasks: Seq<Task>, i: int, p: u64)
    requires
        0 <= i < tasks.len(),
    ensures
        has_period(id, tasks.take(i + 1), p) <==> (has_period(id, tasks.take(i), p) || (task_matches(
            tasks[i],
            id,
        ) && tasks[i].period_us == p)),
{
    let s = tasks.take(i + 1);
    let t = tasks.take(i);
    assert forall|k: int| 0 <= k < i implies s[k] == t[k] by {}
    assert(s[i] == tasks[i]);
    if has_period(id, s, p) {
        let k = choose|k: int| 0 <= k < s.len() && task_matches(s[k], id) && #[trigger] s[k].period_us == p;
        if k < i {
            assert(t[k] == s[k]);
            assert(has_period(id, t, p));
        }
    }
    if has_period(id, t, p) {
        let k = choose|k: int| 0 <= k < t.len() && task_matches(t[k], id) && #[trigger] t[k].period_us == p;
        assert(s[k] == t[k]);
        assert(has_period(id, s, p));
    }
    if task_matches(tasks[i], id) && tasks[i].period_us == p {
        assert(has_period(id, s, p));
    }
}

/// Inserts `x` into an ascending vector of distinct values, keeping it so.
fn insert_sorted(v: &mut Vec<u64>, x: u64)
    requires
        strictly_increasing(old(v)@),
    ensures
        strictly_increasing(final(v)@),
        forall|p: u64| final(v)@.contains(p) <==> (old(v)@.contains(p) || p == x),
{
    let mut i: usize = 0;
    while i < v.len() && v[i] < x
        invariant
            i <= v@.len(),
            v@ == old(v)@,
            forall|k: int| 0 <= k < i ==> v@[k] < x,
        decreases v@.len() - i,
    {
        i = i + 1;
    }
    if i < v.len() && v[i] == x {
        proof {
            assert(v@[i as int] == x);
        }
        return;
    }
    let ghost before = v@;
    v.insert(i, x);
    proof {
        lemma_insert_contains(before, i as int, x);
        assert(v@ == before.insert(i as int, x));
    }
}

proof fn lemma_insert_contains(s: Seq<u64>, i: int, x: u64)
    requires
        0 <= i <= s.len(),
    ensures
        forall|p: u64| #[trigger] s.insert(i, x).contains(p) <==> (s.contains(p) || p == x),
{
    let v = s.insert(i, x);
    assert forall|p: u64| #[trigger] v.contains(p) <==> (s.contains(p) || p == x) by {
        if v.contains(p) {
            let k = choose|k: int| 0 <= k < v.len() && v[k] == p;
            if k < i {
                assert(s[k] == p);
            } else if k > i {
                assert(s[k - 1] == p);
            }
        }
        if s.contains(p) {
            let k = choose|k: int| 0 <= k < s.len() && s[k] == p;
            if k < i {
                assert(v[k] == p);
            } else {
                assert(v[k + 1] == p);
            }
        }
        if p == x {
            assert(v[i] == x);
        }
    }
}

/// Calculated hyperperiod of one workload.
#[derive(Debug, Clone)]
pub struct HyperperiodInfo {
    /// Workload the result belongs to.
    pub workload_id: String,
    /// LCM of the distinct periods, in microseconds.
    pub hyperperiod_us: u64,
    /// Distinct periods of the workload, ascending.
    pub unique_periods: Vec<u64>,
    /// Number of tasks that contributed.
    pub task_count: usize,
}

impl HyperperiodInfo {
    pub open spec fn record(&self) -> HyperperiodRecord {
        HyperperiodRecord {
            workload_id: self.workload_id@,
            hyperperiod_us: self.hyperperiod_us,
            unique_periods: self.unique_periods@,
            task_count: self.task_count as nat,
        }
    }

    fn duplicate(&self) -> (r: HyperperiodInfo)
        ensures
            r.record() == self.record(),
    {
        let mut periods: Vec<u64> = Vec::new();
        let mut i: usize = 0;
        while i < self.unique_periods.len()
            invariant
                i <= self.unique_periods@.len(),
                periods@ == self.unique_periods@.take(i as int),
            decreases self.unique_periods@.len() - i,
        {
            periods.push(self.unique_periods[i]);
            i = i + 1;
            proof {
                assert(periods@ =~= self.unique_periods@.take(i as int));
            }
        }
        proof {
            assert(periods@ =~= self.unique_periods@);
        }
        HyperperiodInfo {
            workload_id: self.workload_id.clone(),
            hyperperiod_us: self.hyperperiod_us,
            unique_periods: periods,
            task_count: self.task_count,
        }
    }
}

/// Stored results of `records` are for distinct workloads.
pub open spec fn ids_unique(records: Seq<HyperperiodRecord>) -> bool {
    forall|i: int, j: int| 0 <= i < j < records.len() ==> records[i].workload_id != records[j].workload_id
}

/// The record of workload `id` among `records`, if any.
pub open spec fn lookup(records: Seq<HyperperiodRecord>, id: Seq<char>) -> Option<HyperperiodRecord> {
    if exists|i: int| 0 <= i < records.len() && #[trigger] records[i].workload_id == id {
        Some(records[choose|i: int| 0 <= i < records.len() && #[trigger] records[i].workload_id == id])
    } else {
        None
    }
}

proof fn lemma_lookup_at(records: Seq<HyperperiodRecord>, i: int)
    requires
        ids_unique(records),
        0 <= i < records.len(),
    ensures
        lookup(records, records[i].workload_id) == Some(records[i]),
{
}

spec fn records_of(infos: Seq<HyperperiodInfo>) -> Seq<HyperperiodRecord> {
    infos.map_values(|i: HyperperiodInfo| i.record())
}

/// Position of workload `workload_id` in `infos`.
fn position(infos: &Vec<HyperperiodInfo>, workload_id: &str) -> (r: Option<usize>)
    ensures
        r matches Some(i) ==> i < infos@.len() && records_of(infos@)[i as int].workload_id == workload_id@,
        r is None ==> forall|i: int| 0 <= i < infos@.len() ==> records_of(infos@)[i].workload_id != workload_id@,
{
    let mut i: usize = 0;
    while i < infos.len()
        invariant
            i <= infos@.len(),
            forall|k: int| 0 <= k < i ==> records_of(infos@)[k].workload_id != workload_id@,
        decreases infos@.len() - i,
    {
        if str_eq(infos[i].workload_id.as_str(), workload_id) {
            return Some(i);
        }
        i = i + 1;
    }
    None
}

/// Stores `info` in `infos`, replacing the record of the same workload.
fn store(infos: &mut Vec<HyperperiodInfo>, info: HyperperiodInfo)
    requires
        ids_unique(records_of(old(infos)@)),
    ensures
        ids_unique(records_of(final(infos)@)),
        forall|k: Seq<char>| #[trigger] lookup(records_of(final(infos)@), k) == if k == info.workload_id@ {
            Some(info.record())
        } else {
            lookup(records_of(old(infos)@), k)
        },
{
    let ghost before = records_of(infos@);
    let ghost rec = info.record();
    let ghost id = info.workload_id@;
    match position(infos, info.workload_id.as_str()) {
        Some(k) => {
            infos[k] = info;
            proof {
                let after = records_of(infos@);
                assert(after =~= before.update(k as int, rec));
                assert forall|q: Seq<char>| #[trigger] lookup(after, q) == if q == id {
                    Some(rec)
                } else {
                    lookup(before, q)
                } by {
                    lemma_lookup_at(after, k as int);
                    if exists|j: int| 0 <= j < before.len() && #[trigger] before[j].workload_id == q {
                        let j = choose|j: int| 0 <= j < before.len() && #[trigger] before[j].workload_id == q;
                        lemma_lookup_at(before, j);
                        lemma_lookup_at(after, j);
                    }
                }
            }
        },
        None => {
            infos.push(info);
            proof {
                let after = records_of(infos@);
                assert(after =~= before.push(rec));
                assert forall|q: Seq<char>| #[trigger] lookup(after, q) == if q == id {
                    Some(rec)
                } else {
                    lookup(before, q)
                } by {
                    lemma_lookup_at(after, before.len() as int);
                    if exists|j: int| 0 <= j < before.len() && #[trigger] before[j].workload_id == q {
                        let j = choose|j: int| 0 <= j < before.len() && #[trigger] before[j].workload_id == q;
                        lemma_lookup_at(before, j);
                        lemma_lookup_at(after, j);
                    }
                }
            }
        },
    }
}

/// Calculates hyperperiods and stores them per workload.
#[derive(Debug)]
pub struct HyperperiodManager {
    infos: Vec<HyperperiodInfo>,
    limit_us: u64,
}

impl Default for HyperperiodManager {
    fn default() -> (r: HyperperiodManager)
        ensures
            r.records().len() == 0,
            r.limit() == DEFAULT_HYPERPERIOD_LIMIT_US,
    {
        HyperperiodManager::new()
    }
}

impl HyperperiodManager {
    /// Each workload is stored at most once.
    #[verifier::type_invariant]
    spec fn inv(&self) -> bool {
        ids_unique(records_of(self.infos@))
    }

    /// Stored results, in the order the workloads were first stored.
    pub closed spec fn records(&self) -> Seq<HyperperiodRecord> {
        records_of(self.infos@)
    }

    /// Upper limit on a hyperperiod, in microseconds.
    pub closed spec fn limit(&self) -> u64 {
        self.limit_us
    }

    /// The stored result of workload `id`.
    pub open spec fn stored(&self, id: Seq<char>) -> Option<HyperperiodRecord> {
        lookup(self.records(), id)
    }

    /// Creates an empty manager with the one-hour limit.
    pub fn new() -> (r: HyperperiodManager)
        ensures
            r.records().len() == 0,
            r.limit() == DEFAULT_HYPERPERIOD_LIMIT_US,
    {
        HyperperiodManager { infos: Vec::new(), limit_us: DEFAULT_HYPERPERIOD_LIMIT_US }
    }

    /// Creates an empty manager with the given limit in microseconds.
    pub fn with_limit(limit_us: u64) -> (r: HyperperiodManager)
        ensures
            r.records().len() == 0,
            r.limit() == limit_us,
    {
        HyperperiodManager { infos: Vec::new(), limit_us }
    }

    /// Calculates the hyperperiod of workload `workload_id` and stores it,
    /// replacing an earlier result of the same workload.
    ///
    /// Only tasks of that workload with a non-zero period count; other tasks
    /// in `tasks` are ignored. Fails with `NoValidPeriods` when none counts,
    /// with `Overflow` when the LCM of the distinct periods does not fit in
    /// `u64`, and with `TooLarge` when it exceeds the limit. On failure nothing
    /// is stored.
    pub fn calculate_hyperperiod(&mut self, workload_id: &str, tasks: &[Task]) -> (r: Result<
        HyperperiodInfo,
        HyperperiodError,
    >)
        ensures
            final(self).limit() == old(self).limit(),
            match hyperperiod_outcome(workload_id@, tasks@, old(self).limit()) {
                Ok(rec) => r matches Ok(info) && info.record() == rec && forall|k: Seq<char>|
                    #[trigger] final(self).stored(k) == if k == workload_id@ {
                        Some(rec)
                    } else {
                        old(self).stored(k)
                    },
                Err(e) => r == Err::<HyperperiodInfo, HyperperiodError>(e) && final(self).records()
                    == old(self).records(),
            },
    {
        let ghost id = workload_id@;
        let mut count: usize = 0;
        let mut periods: Vec<u64> = Vec::new();
        let mut i: usize = 0;
        while i < tasks.len()
            invariant
                id == workload_id@,
                i <= tasks@.len(),
                count <= i,
                count == matching_count(id, tasks@.take(i as int)),
                strictly_increasing(periods@),
                forall|p: u64| periods@.contains(p) <==> has_period(id, tasks@.take(i as int), p),
            decreases tasks@.len() - i,
        {
            let t = &tasks[i];
            let w = t.workload_id.as_str();
            proof {
                assert(w@ == tasks@[i as int].workload_id@);
            }
            let same = str_eq(w, workload_id);
            let matches = t.period_us > 0 && same;
            let ghost s = tasks@.take(i + 1);
            proof {
                assert(s.drop_last() =~= tasks@.take(i as int));
                assert(s.last() == tasks@[i as int]);
                assert(matches == task_matches(tasks@[i as int], id));
                assert(matching_count(id, s) == matching_count(id, tasks@.take(i as int)) + if matches {
                    1nat
                } else {
                    0nat
                });
                assert forall|p: u64|
                    has_period(id, s, p) <==> (has_period(id, tasks@.take(i as int), p) || (task_matches(
                        tasks@[i as int],
                        id,
                    ) && tasks@[i as int].period_us == p)) by {
                    lemma_has_period_step(id, tasks@, i as int, p);
                }
            }
            if matches {
                count = count + 1;
                insert_sorted(&mut periods, t.period_us);
            }
            i = i + 1;
            proof {
                assert(s == tasks@.take(i as int));
            }
        }
        proof {
            assert(tasks@.take(i as int) =~= tasks@);
        }
        if count == 0 {
            return Err(HyperperiodError::NoValidPeriods);
        }
        proof {
            let ps = distinct_periods(id, tasks@);
            assert(strictly_increasing(ps) && forall|p: u64| ps.contains(p) <==> has_period(id, tasks@, p));
            lemma_sorted_same_elements(periods@, ps);
        }
        let hyperperiod_us = match lcm_of_slice(periods.as_slice()) {
            Ok(h) => h,
            Err(e) => {
                return Err(e);
            },
        };
        if hyperperiod_us > self.limit_us {
            return Err(HyperperiodError::TooLarge { value_us: hyperperiod_us, limit_us: self.limit_us });
        }
        let info = HyperperiodInfo {
            workload_id: workload_id.to_owned(),
            hyperperiod_us,
            unique_periods: periods,
            task_count: count,
        };
        let result = info.duplicate();
        proof {
            use_type_invariant(&*self);
        }
        let mut infos: Vec<HyperperiodInfo> = Vec::new();
        std::mem::swap(&mut infos, &mut self.infos);
        store(&mut infos, info);
        self.infos = infos;
        Ok(result)
    }

    /// The stored result of workload `workload_id`, if any.
    pub fn get(&self, workload_id: &str) -> (r: Option<&HyperperiodInfo>)
        ensures
            r is None <==> self.stored(workload_id@) is None,
            r matches Some(info) ==> self.stored(workload_id@) == Some(info.record()),
    {
        proof {
            use_type_invariant(self);
        }
        match position(&self.infos, workload_id) {
            Some(i) => {
                proof {
                    lemma_lookup_at(self.records(), i as int);
                }
                Some(&self.infos[i])
            },
            None => None,
        }
    }

    /// Whether a result of workload `workload_id` is stored.
    pub fn has(&self, workload_id: &str) -> (r: bool)
        ensures
            r == self.stored(workload_id@) is Some,
    {
        self.get(workload_id).is_some()
    }

    /// Removes the result of workload `workload_id`; does nothing when none
    /// is stored.
    pub fn clear_workload(&mut self, workload_id: &str)
        ensures
            final(self).limit() == old(self).limit(),
            forall|k: Seq<char>| #[trigger] final(self).stored(k) == if k == workload_id@ {
                None
            } else {
                old(self).stored(k)
            },
    {
        proof {
            use_type_invariant(&*self);
        }
        let ghost before = self.records();
        match position(&self.infos, workload_id) {
            Some(k) => {
                let mut infos: Vec<HyperperiodInfo> = Vec::new();
                std::mem::swap(&mut infos, &mut self.infos);
                infos.remove(k);
                proof {
                    let after = records_of(infos@);
                    assert(after =~= before.remove(k as int));
                    assert(ids_unique(after)) by {
                        assert forall|a: int, b: int| 0 <= a < b < after.len() implies after[a].workload_id
                            != after[b].workload_id by {
                            let a0 = if a < k { a } else { a + 1 };
                            let b0 = if b < k { b } else { b + 1 };
                            assert(after[a] == before[a0] && after[b] == before[b0]);
                        }
                    }
                    assert forall|q: Seq<char>| #[trigger] lookup(after, q) == if q == workload_id@ {
                        None
                    } else {
                        lookup(before, q)
                    } by {
                        if exists|j: int| 0 <= j < before.len() && #[trigger] before[j].workload_id == q {
                            let j = choose|j: int| 0 <= j < before.len() && #[trigger] before[j].workload_id == q;
                            lemma_lookup_at(before, j);
                            if j < k {
                                lemma_lookup_at(after, j);
                            } else if j > k {
                                lemma_lookup_at(after, j - 1);
                            }
                        }
                        if exists|j: int| 0 <= j < after.len() && #[trigger] after[j].workload_id == q {
                            let j = choose|j: int| 0 <= j < after.len() && #[trigger] after[j].workload_id == q;
                            if j < k {
                                lemma_lookup_at(before, j);
                            } else {
                                lemma_lookup_at(before, j + 1);
                            }
                        }
                    }
                }
                self.infos = infos;
            },
            None => {},
        }
    }

    /// Removes every stored result.
    pub fn clear_all(&mut self)
        ensures
            final(self).limit() == old(self).limit(),
            final(self).records().len() == 0,
    {
        self.infos = Vec::new();
    }

    /// Every stored result, in the order the workloads were first stored.
    pub fn all(&self) -> (r: &Vec<HyperperiodInfo>)
        ensures
            r@.map_values(|i: HyperperiodInfo| i.record()) == self.records(),
    {
        &self.infos
    }
}

} // verus!
