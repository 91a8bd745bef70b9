//! Parallel evaluation: what is dispatched, what is served from the cache, what
//! is cancelled, and how the output of a solver is read.
//!
//! Work is parallel over pairs of neighbour and instance. A batch is identified
//! by a number; results of an earlier batch are stale.

use crate::cache::{CachedResult, PENALTY_BITS};
use crate::config::{listing, pair_views, Assignment, Config};
use crate::measure::Measure;
use crate::text::{
    begins_with, chars_of, digit_value, first_pieces, hex_u64, hexadecimal, join, joined,
    lemma_hash_text_reads_back, lemma_hexadecimal_reads_back, lemma_lines_follow_one_another,
    lemma_tidy_is_trimmed, lemma_trimming_takes_the_padding, lemma_words_are_separated_by_white,
    lemma_words_of_two_texts, lines_of, parse_hex, push_text, rows, slice_of, split_first, split_lines, string_of,
    texts, tidy, trim, trimmed, white, words,
};
use std::collections::HashMap;
use std::sync::Arc;
use vstd::prelude::*;

verus! {

broadcast use vstd::std_specs::hash::group_hash_axioms;

/// One evaluation task: one neighbour evaluated on all instances.
pub struct EvalTask {
    pub neighbor_id: usize,
    pub config: Config,
    /// Hash of `config`, for cache lookup and write-back.
    pub hash: u64,
    /// Pairs of instance id, for the cache, and path, for the solver.
    pub instances: Arc<Vec<(i64, String)>>,
}

/// A worker has claimed an instance and is about to run it.
#[derive(Debug)]
pub struct DispatchEvent {
    pub batch_id: u64,
    pub neighbor_id: usize,
    pub instance_id: i64,
    pub dispatch_time: Measure,
}

/// One message to the search: a start, or a result. The start of an instance
/// comes before its result.
#[derive(Debug)]
pub enum SchedulerEvent {
    Dispatched(DispatchEvent),
    Completed(TaskResult),
}

/// Result of one evaluation of a neighbour on an instance.
#[derive(Debug)]
pub struct TaskResult {
    pub batch_id: u64,
    pub neighbor_id: usize,
    pub instance_id: i64,
    /// Hash of the configuration, for cache write-back.
    pub hash: u64,
    pub runtime: Measure,
    pub quality: Measure,
    pub status: String,
    /// Fingerprint of the solver's internal behaviour on this instance; `None`
    /// for anything but a terminated run.
    pub runhash: Option<u64>,
    /// Only results produced by a solver execution may be stored.
    pub cacheable: bool,
    pub cutoff: Measure,
}

/// A result by the values that it holds.
pub struct TaskResultView {
    pub batch_id: u64,
    pub neighbor_id: usize,
    pub instance_id: i64,
    pub hash: u64,
    pub runtime: Measure,
    pub quality: Measure,
    pub status: Seq<char>,
    pub runhash: Option<u64>,
    pub cacheable: bool,
    pub cutoff: Measure,
}

impl View for TaskResult {
    type V = TaskResultView;

    open spec fn view(&self) -> TaskResultView {
        TaskResultView {
            batch_id: self.batch_id,
            neighbor_id: self.neighbor_id,
            instance_id: self.instance_id,
            hash: self.hash,
            runtime: self.runtime,
            quality: self.quality,
            status: self.status@,
            runhash: self.runhash,
            cacheable: self.cacheable,
            cutoff: self.cutoff,
        }
    }
}

/// The instances of one task that workers share among them.
pub struct WorkBatch {
    pub batch_id: u64,
    pub neighbor_id: usize,
    pub config: Arc<Config>,
    pub hash: u64,
    pub instances: Arc<Vec<(i64, String)>>,
    /// Positions of the instances that have to be run.
    pub missing_indices: Arc<Vec<usize>>,
    pub cutoff_time: Measure,
}

/// What becomes of one task: results that the cache answered, and work for
/// `worker_slots` workers.
pub struct TaskPlan {
    pub completed: Vec<TaskResult>,
    pub batch: Option<WorkBatch>,
    pub worker_slots: usize,
}

/// The batch in progress, what is cancelled in it, and the process groups that
/// run for it.
pub struct Scheduler {
    pub batch_id: u64,
    pub n_workers: usize,
    pub cutoff_time: Measure,
    /// Every task is a miss whatever the cache holds.
    pub cache_disable: bool,
    /// Pairs of batch and neighbour that were cancelled.
    pub cancelled_neighbors: Vec<(u64, usize)>,
    /// Process groups with the batch and neighbour that they run for.
    pub process_groups: Vec<(i32, (u64, usize))>,
}

/// The positions among the first `n` instances that the cache has no answer
/// for, in order.
pub open spec fn missing_upto(
    instances: Seq<(i64, String)>,
    hits: Map<i64, CachedResult>,
    n: nat,
) -> Seq<usize>
    decreases n,
{
    if n == 0 {
        Seq::empty()
    } else {
        let shorter = missing_upto(instances, hits, (n - 1) as nat);
        if hits.contains_key(instances[n - 1].0) {
            shorter
        } else {
            shorter.push((n - 1) as usize)
        }
    }
}

/// The result that a cached one makes for an instance of a task.
pub open spec fn served_result(
    batch_id: u64,
    neighbor_id: usize,
    hash: u64,
    instance_id: i64,
    cached: CachedResult,
    cutoff: Measure,
) -> TaskResultView {
    TaskResultView {
        batch_id,
        neighbor_id,
        instance_id,
        hash,
        runtime: cached.runtime,
        quality: cached.quality,
        status: cached.status@,
        runhash: cached.runhash,
        cacheable: false,
        cutoff,
    }
}

/// The results for those of the first `n` instances that the cache answers, in
/// order.
pub open spec fn served_upto(
    batch_id: u64,
    task: EvalTask,
    hits: Map<i64, CachedResult>,
    cutoff: Measure,
    n: nat,
) -> Seq<TaskResultView>
    decreases n,
{
    if n == 0 {
        Seq::empty()
    } else {
        let shorter = served_upto(batch_id, task, hits, cutoff, (n - 1) as nat);
        let id = task.instances@[n - 1].0;
        if hits.contains_key(id) {
            shorter.push(
                served_result(batch_id, task.neighbor_id, task.hash, id, hits[id], cutoff),
            )
        } else {
            shorter
        }
    }
}

/// Every instance of a task is either served from the cache or dispatched, and
/// none is both.
pub proof fn lemma_instances_are_served_or_dispatched(
    batch_id: u64,
    task: EvalTask,
    hits: Map<i64, CachedResult>,
    cutoff: Measure,
    n: nat,
)
    requires
        n <= task.instances@.len() <= usize::MAX,
    ensures
        served_upto(batch_id, task, hits, cutoff, n).len() + missing_upto(task.instances@, hits, n).len()
            == n,
        forall|i: int|
            0 <= i < n ==> (missing_upto(task.instances@, hits, n).contains(i as usize)
                <==> !hits.contains_key((#[trigger] task.instances@[i]).0)),
        forall|k: int|
            0 <= k < missing_upto(task.instances@, hits, n).len() ==> (#[trigger] missing_upto(
                task.instances@,
                hits,
                n,
            )[k]) < n,
        missing_upto(task.instances@, hits, n).no_duplicates(),
    decreases n,
{
    if n > 0 {
        let m = (n - 1) as nat;
        lemma_instances_are_served_or_dispatched(batch_id, task, hits, cutoff, m);
        let shorter = missing_upto(task.instances@, hits, m);
        let longer = missing_upto(task.instances@, hits, n);
        assert forall|i: int| 0 <= i < n implies (longer.contains(i as usize) <==> !hits.contains_key(
            (#[trigger] task.instances@[i]).0,
        )) by {
            if longer.contains(i as usize) && i < m {
                let k = choose|k: int| 0 <= k < longer.len() && longer[k] == i as usize;
                assert(shorter.contains(i as usize)) by {
                    assert(shorter[k] == longer[k]);
                }
            }
            if i < m && shorter.contains(i as usize) {
                let k = choose|k: int| 0 <= k < shorter.len() && shorter[k] == i as usize;
                assert(longer[k] == i as usize);
            }
            if i == m {
                if hits.contains_key(task.instances@[i].0) && longer.contains(i as usize) {
                    let k = choose|k: int| 0 <= k < shorter.len() && shorter[k] == i as usize;
                    assert(shorter[k] < m);
                }
                if !hits.contains_key(task.instances@[i].0) {
                    assert(longer[longer.len() - 1] == i as usize);
                }
            }
        }
    }
}

/// The hits that a scheduler uses: none if it does without the cache.
pub open spec fn usable_hits(disabled: bool, hits: Map<i64, CachedResult>) -> Map<i64, CachedResult> {
    if disabled {
        Map::empty()
    } else {
        hits
    }
}

/// Whether an entry of the process groups is not the given group.
pub open spec fn other_group(group: i32) -> spec_fn((i32, (u64, usize))) -> bool {
    |g: (i32, (u64, usize))| g.0 != group
}

/// How many workers share the work on a number of instances.
pub open spec fn slots_for(n_workers: usize, missing: nat) -> int {
    if n_workers <= missing {
        n_workers as int
    } else {
        missing as int
    }
}

/// All workers share the work, except that none is left without an instance.
pub proof fn lemma_work_is_shared_by_all_workers(n_workers: usize, missing: nat)
    ensures
        slots_for(n_workers, missing) <= missing,
        slots_for(n_workers, missing) <= n_workers,
        n_workers <= missing ==> slots_for(n_workers, missing) == n_workers,
        missing <= n_workers ==> slots_for(n_workers, missing) == missing,
{
}

impl Scheduler {
    /// A scheduler with no batch in progress.
    pub fn new(n_workers: usize, cutoff_time: Measure, cache_disable: bool) -> (s: Scheduler)
        ensures
            s.batch_id == 0,
            s.n_workers == n_workers,
            s.cutoff_time == cutoff_time,
            s.cache_disable == cache_disable,
            s.cancelled_neighbors@.len() == 0,
            s.process_groups@.len() == 0,
    {
        Scheduler {
            batch_id: 0,
            n_workers,
            cutoff_time,
            cache_disable,
            cancelled_neighbors: Vec::new(),
            process_groups: Vec::new(),
        }
    }

    /// Begin a batch: earlier ones become stale, and nothing is cancelled.
    /// Returns the number of the new batch.
    pub fn open_batch(&mut self) -> (id: u64)
        requires
            old(self).batch_id < u64::MAX,
        ensures
            id == old(self).batch_id + 1,
            *final(self) == (Scheduler {
                batch_id: id,
                cancelled_neighbors: final(self).cancelled_neighbors,
                ..*old(self)
            }),
            final(self).cancelled_neighbors@.len() == 0,
            forall|n: usize| !#[trigger] final(self).stops(id, n),
    {
        self.batch_id = self.batch_id + 1;
        self.cancelled_neighbors = Vec::new();
        self.batch_id
    }

    /// Dispatch one task of a batch, given the answers of the cache for its
    /// instances: hits become results, misses become shared work.
    pub fn submit(&self, batch_id: u64, task: EvalTask, hits: &HashMap<i64, CachedResult>) -> (plan: TaskPlan)
        ensures
            ({
                let used = usable_hits(self.cache_disable, hits@);
                let n = task.instances@.len();
                let missing = missing_upto(task.instances@, used, n);
                &&& plan.completed@.map_values(|r: TaskResult| r@) == served_upto(
                    batch_id,
                    task,
                    used,
                    self.cutoff_time,
                    n,
                )
                &&& plan.worker_slots == slots_for(self.n_workers, missing.len())
                &&& plan.worker_slots == if self.n_workers <= missing.len() {
                    self.n_workers as int
                } else {
                    missing.len() as int
                }
                &&& match plan.batch {
                    Some(b) => {
                        &&& missing.len() > 0
                        &&& b.batch_id == batch_id
                        &&& b.neighbor_id == task.neighbor_id
                        &&& b.config@ == task.config@
                        &&& b.hash == task.hash
                        &&& b.instances@ == task.instances@
                        &&& b.missing_indices@ == missing
                        &&& b.cutoff_time == self.cutoff_time
                    },
                    None => missing.len() == 0,
                }
            }),
    {
        let ghost used = usable_hits(self.cache_disable, hits@);
        let ghost given = task;
        let mut completed: Vec<TaskResult> = Vec::new();
        let mut missing: Vec<usize> = Vec::new();
        let ghost served = completed@.map_values(|r: TaskResult| r@);
        assert(served =~= Seq::empty());
        assert(missing@ =~= Seq::empty());
        for i in 0..task.instances.len()
            invariant
                given == task,
                used == usable_hits(self.cache_disable, hits@),
                completed@.map_values(|r: TaskResult| r@) == served_upto(
                    batch_id,
                    task,
                    used,
                    self.cutoff_time,
                    i as nat,
                ),
                missing@ == missing_upto(task.instances@, used, i as nat),
        {
            let id: i64 = task.instances[i].0;
            let cached = if self.cache_disable {
                None
            } else {
                hits.get(&id)
            };
            match cached {
                Some(c) => {
                    let ghost prev = completed@.map_values(|r: TaskResult| r@);
                    let result = TaskResult {
                        batch_id,
                        neighbor_id: task.neighbor_id,
                        instance_id: id,
                        hash: task.hash,
                        runtime: c.runtime,
                        quality: c.quality,
                        status: c.status.clone(),
                        runhash: c.runhash,
                        cacheable: false,
                        cutoff: self.cutoff_time,
                    };
                    let ghost view = result@;
                    completed.push(result);
                    assert(completed@.map_values(|r: TaskResult| r@) =~= prev.push(view));
                },
                None => {
                    missing.push(i);
                },
            }
        }
        let worker_slots: usize = if self.n_workers <= missing.len() {
            self.n_workers
        } else {
            missing.len()
        };
        if missing.len() == 0 {
            return TaskPlan { completed, batch: None, worker_slots };
        }
        let batch = WorkBatch {
            batch_id,
            neighbor_id: task.neighbor_id,
            config: Arc::new(task.config),
            hash: task.hash,
            instances: task.instances,
            missing_indices: Arc::new(missing),
            cutoff_time: self.cutoff_time,
        };
        TaskPlan { completed, batch: Some(batch), worker_slots }
    }

    /// Whether work for a neighbour of a batch is to stop.
    pub open spec fn stops(&self, batch_id: u64, neighbor_id: usize) -> bool {
        batch_id != self.batch_id || self.cancelled_neighbors@.contains((batch_id, neighbor_id))
    }

    /// Whether work for a neighbour of a batch is to stop: another batch is in
    /// progress, or the neighbour was cancelled.
    pub fn is_cancelled(&self, batch_id: u64, neighbor_id: usize) -> (r: bool)
        ensures
            r == self.stops(batch_id, neighbor_id),
    {
        if batch_id != self.batch_id {
            return true;
        }
        for i in 0..self.cancelled_neighbors.len()
            invariant
                forall|j: int|
                    0 <= j < i ==> (#[trigger] self.cancelled_neighbors@[j]) != (batch_id, neighbor_id),
        {
            let c: (u64, usize) = self.cancelled_neighbors[i];
            if c.0 == batch_id && c.1 == neighbor_id {
                assert(self.cancelled_neighbors@[i as int] == (batch_id, neighbor_id));
                return true;
            }
        }
        false
    }

    /// Invalidate the batch in progress. Returns the process groups that run
    /// for it, which are to be terminated.
    pub fn reset(&mut self) -> (groups: Vec<i32>)
        requires
            old(self).batch_id < u64::MAX,
        ensures
            *final(self) == (Scheduler { batch_id: (old(self).batch_id + 1) as u64, ..*old(self) }),
            groups@ == old(self).groups_where(|a: (u64, usize)| a.0 == old(self).batch_id),
            forall|n: usize| #[trigger] final(self).stops(old(self).batch_id, n),
    {
        let groups = self.groups_of_batch(self.batch_id);
        self.batch_id = self.batch_id + 1;
        groups
    }

    /// Cancel one neighbour of a batch and no other. Returns the process groups
    /// that run for it, which are to be terminated.
    pub fn cancel_neighbor(&mut self, batch_id: u64, neighbor_id: usize) -> (groups: Vec<i32>)
        ensures
            final(self).cancelled_neighbors@ == old(self).cancelled_neighbors@.push(
                (batch_id, neighbor_id),
            ),
            *final(self) == (Scheduler {
                cancelled_neighbors: final(self).cancelled_neighbors,
                ..*old(self)
            }),
            groups@ == old(self).groups_where(|a: (u64, usize)| a == (batch_id, neighbor_id)),
            forall|b: u64, n: usize| #[trigger]
                final(self).stops(b, n) <==> old(self).stops(b, n) || (b, n) == (batch_id, neighbor_id),
    {
        let ghost before = self.cancelled_neighbors@;
        proof {
            assert forall|x: (u64, usize)| before.push((batch_id, neighbor_id)).contains(x)
                <==> before.contains(x) || x == (batch_id, neighbor_id) by {
                let after = before.push((batch_id, neighbor_id));
                assert(after[before.len() as int] == (batch_id, neighbor_id));
                if before.contains(x) {
                    let i = choose|i: int| 0 <= i < before.len() && before[i] == x;
                    assert(after[i] == x);
                }
            }
        }
        let groups = self.groups_of_neighbor(batch_id, neighbor_id);
        self.cancelled_neighbors.push((batch_id, neighbor_id));
        groups
    }

    /// A process group has started for a neighbour of a batch.
    pub fn register_group(&mut self, group: i32, batch_id: u64, neighbor_id: usize)
        ensures
            final(self).process_groups@ == old(self).process_groups@.filter(other_group(group)).push(
                (group, (batch_id, neighbor_id)),
            ),
            *final(self) == (Scheduler { process_groups: final(self).process_groups, ..*old(self) }),
    {
        self.unregister_group(group);
        self.process_groups.push((group, (batch_id, neighbor_id)));
    }

    /// A process group has ended.
    pub fn unregister_group(&mut self, group: i32)
        ensures
            final(self).process_groups@ == old(self).process_groups@.filter(other_group(group)),
            *final(self) == (Scheduler { process_groups: final(self).process_groups, ..*old(self) }),
    {
        let ghost all = self.process_groups@;
        let ghost keep = other_group(group);
        let mut rest: Vec<(i32, (u64, usize))> = Vec::new();
        assert(all.take(0).filter(keep) =~= Seq::empty());
        for i in 0..self.process_groups.len()
            invariant
                all == self.process_groups@,
                keep == other_group(group),
                rest@ == all.take(i as int).filter(keep),
        {
            proof {
                assert(all.take(i + 1) =~= all.take(i as int).push(all[i as int]));
                all.take(i as int).lemma_filter_push(all[i as int], keep);
            }
            let entry: (i32, (u64, usize)) = self.process_groups[i];
            if entry.0 != group {
                rest.push(entry);
            }
        }
        assert(all.take(all.len() as int) =~= all);
        self.process_groups = rest;
    }

    /// The process groups whose batch and neighbour satisfy a condition.
    pub open spec fn groups_where(&self, p: spec_fn((u64, usize)) -> bool) -> Seq<i32> {
        self.process_groups@.filter_map(
            |g: (i32, (u64, usize))|
                if p(g.1) {
                    Some(g.0)
                } else {
                    None
                },
        )
    }

    /// The process groups that run for a batch.
    pub fn groups_of_batch(&self, batch_id: u64) -> (groups: Vec<i32>)
        ensures
            groups@ == self.groups_where(|a: (u64, usize)| a.0 == batch_id),
    {
        let ghost p = |a: (u64, usize)| a.0 == batch_id;
        let ghost f = |g: (i32, (u64, usize))|
            if p(g.1) {
                Some(g.0)
            } else {
                None
            };
        let mut out: Vec<i32> = Vec::new();
        assert(self.process_groups@.take(0).filter_map(f) =~= Seq::empty());
        for i in 0..self.process_groups.len()
            invariant
                p == (|a: (u64, usize)| a.0 == batch_id),
                f == (|g: (i32, (u64, usize))|
                    if p(g.1) {
                        Some(g.0)
                    } else {
                        None
                    }),
                out@ == self.process_groups@.take(i as int).filter_map(f),
        {
            proof {
                self.process_groups@.lemma_filter_map_take_succ(f, i as int);
            }
            let entry: (i32, (u64, usize)) = self.process_groups[i];
            if entry.1.0 == batch_id {
                out.push(entry.0);
            }
            assert(out@ =~= self.process_groups@.take(i + 1).filter_map(f));
        }
        assert(self.process_groups@.take(self.process_groups@.len() as int) =~= self.process_groups@);
        out
    }

    /// The process groups that run for one neighbour of a batch.
    pub fn groups_of_neighbor(&self, batch_id: u64, neighbor_id: usize) -> (groups: Vec<i32>)
        ensures
            groups@ == self.groups_where(|a: (u64, usize)| a == (batch_id, neighbor_id)),
    {
        let ghost p = |a: (u64, usize)| a == (batch_id, neighbor_id);
        let ghost f = |g: (i32, (u64, usize))|
            if p(g.1) {
                Some(g.0)
            } else {
                None
            };
        let mut out: Vec<i32> = Vec::new();
        assert(self.process_groups@.take(0).filter_map(f) =~= Seq::empty());
        for i in 0..self.process_groups.len()
            invariant
                p == (|a: (u64, usize)| a == (batch_id, neighbor_id)),
                f == (|g: (i32, (u64, usize))|
                    if p(g.1) {
                        Some(g.0)
                    } else {
                        None
                    }),
                out@ == self.process_groups@.take(i as int).filter_map(f),
        {
            proof {
                self.process_groups@.lemma_filter_map_take_succ(f, i as int);
            }
            let entry: (i32, (u64, usize)) = self.process_groups[i];
            if entry.1.0 == batch_id && entry.1.1 == neighbor_id {
                out.push(entry.0);
            }
            assert(out@ =~= self.process_groups@.take(i + 1).filter_map(f));
        }
        assert(self.process_groups@.take(self.process_groups@.len() as int) =~= self.process_groups@);
        out
    }
}

/// Aggregated result for one configuration across all instances.
#[derive(Clone, Debug)]
pub struct EvalResult {
    pub runtimes: Vec<Measure>,
    pub pruned: bool,
}

/// What every result line begins with.
pub open spec fn result_prefix() -> Seq<char> {
    "#%# RamParIls #%# "@
}

/// What one result line says, with its numbers as they are written.
pub struct ResultLineView {
    pub status: Seq<char>,
    pub runtime: Seq<char>,
    pub quality: Seq<char>,
    pub runhash: Option<u64>,
    pub line: Seq<char>,
}

/// What one result line says, with its numbers as they are written.
#[derive(Debug)]
pub struct ResultLine {
    pub status: String,
    pub runtime: String,
    pub quality: String,
    pub runhash: Option<u64>,
    pub line: String,
}

impl View for ResultLine {
    type V = ResultLineView;

    open spec fn view(&self) -> ResultLineView {
        ResultLineView {
            status: self.status@,
            runtime: self.runtime@,
            quality: self.quality@,
            runhash: self.runhash,
            line: self.line@,
        }
    }
}

/// What a line says if it has the prefix and, after it, at least the three
/// fields status, runtime and quality. The fourth field, if there is one, is a
/// fingerprint in hexadecimal.
pub open spec fn result_line(line: Seq<char>) -> Option<ResultLineView> {
    if result_prefix().is_prefix_of(line) {
        let fields = first_pieces(line.skip(result_prefix().len() as int), ',', 4);
        if fields.len() >= 3 {
            Some(
                ResultLineView {
                    status: trimmed(fields[0]),
                    runtime: trimmed(fields[1]),
                    quality: trimmed(fields[2]),
                    runhash: if fields.len() > 3 {
                        hex_u64(trimmed(fields[3]))
                    } else {
                        None
                    },
                    line,
                },
            )
        } else {
            None
        }
    } else {
        None
    }
}

/// The result lines of an output, in order.
pub open spec fn result_lines_of(output: Seq<char>) -> Seq<ResultLineView> {
    lines_of(output).filter_map(|line: Seq<char>| result_line(line))
}

fn read_result_line(line: &Vec<char>) -> (r: Option<ResultLine>)
    ensures
        match r {
            Some(l) => result_line(line@) == Some(l@),
            None => result_line(line@) is None,
        },
{
    let prefix = chars_of("#%# RamParIls #%# ");
    if !begins_with(line, &prefix) {
        return None;
    }
    let rest = slice_of(line, prefix.len(), line.len());
    assert(rest@ =~= line@.skip(prefix@.len() as int));
    let fields = split_first(&rest, ',', 4);
    let ghost views = first_pieces(rest@, ',', 4);
    assert(views.len() == fields@.len());
    if fields.len() < 3 {
        return None;
    }
    assert(views[0] == fields@[0]@ && views[1] == fields@[1]@ && views[2] == fields@[2]@);
    let runhash = if fields.len() > 3 {
        assert(views[3] == fields@[3]@);
        parse_hex(&trim(&fields[3]))
    } else {
        None
    };
    Some(
        ResultLine {
            status: string_of(&trim(&fields[0])),
            runtime: string_of(&trim(&fields[1])),
            quality: string_of(&trim(&fields[2])),
            runhash,
            line: string_of(line),
        },
    )
}

/// The result lines of a solver's output, in order. Their numbers are left as
/// they are written.
pub fn result_lines(output: &str) -> (r: Vec<ResultLine>)
    ensures
        r@.map_values(|l: ResultLine| l@) == result_lines_of(output@),
{
    let lines = split_lines(&chars_of(output));
    let ghost all = lines_of(output@);
    let ghost f = |line: Seq<char>| result_line(line);
    let mut out: Vec<ResultLine> = Vec::new();
    assert(all.take(0).filter_map(f) =~= Seq::empty());
    assert(out@.map_values(|l: ResultLine| l@) =~= Seq::empty());
    for i in 0..lines.len()
        invariant
            all == lines_of(output@),
            rows(lines@) == all,
            f == (|line: Seq<char>| result_line(line)),
            out@.map_values(|l: ResultLine| l@) == all.take(i as int).filter_map(f),
    {
        let ghost prev = out@.map_values(|l: ResultLine| l@);
        proof {
            assert(rows(lines@)[i as int] == lines@[i as int]@);
            all.lemma_filter_map_take_succ(f, i as int);
        }
        match read_result_line(&lines[i]) {
            Some(l) => {
                let ghost view = l@;
                out.push(l);
                assert(out@.map_values(|l: ResultLine| l@) =~= prev.push(view));
                assert(all.take(i + 1).filter_map(f) =~= prev.push(view));
            },
            None => {
                assert(all.take(i + 1).filter_map(f) =~= prev);
            },
        }
    }
    assert(all.take(all.len() as int) =~= all);
    out
}

/// The outcome of one solver run.
#[derive(Debug)]
pub struct SolverOutcome {
    pub runtime: Measure,
    pub quality: Measure,
    pub status: String,
    pub runhash: Option<u64>,
    pub line: String,
}

/// The outcome of one solver run by the values that it holds.
pub struct OutcomeView {
    pub runtime: Measure,
    pub quality: Measure,
    pub status: Seq<char>,
    pub runhash: Option<u64>,
    pub line: Seq<char>,
}

impl View for SolverOutcome {
    type V = OutcomeView;

    open spec fn view(&self) -> OutcomeView {
        OutcomeView {
            runtime: self.runtime,
            quality: self.quality,
            status: self.status@,
            runhash: self.runhash,
            line: self.line@,
        }
    }
}

/// The lesser of a runtime and the cutoff; if one of them is no number, the other.
pub open spec fn capped(runtime: Measure, cutoff: Measure) -> Measure {
    if runtime.nan() || cutoff.below(runtime) {
        cutoff
    } else {
        runtime
    }
}

/// Whether `i` is the first position at which both numbers are there.
pub open spec fn is_first_usable(numbers: Seq<(Option<Measure>, Option<Measure>)>, i: int) -> bool {
    &&& 0 <= i < numbers.len()
    &&& numbers[i].0 is Some && numbers[i].1 is Some
    &&& forall|j: int| 0 <= j < i ==> (#[trigger] numbers[j]).0 is None || numbers[j].1 is None
}

/// What a run without a result line counts as.
pub open spec fn unknown_outcome(cutoff: Measure, cutoff_text: Seq<char>) -> OutcomeView {
    OutcomeView {
        runtime: cutoff,
        quality: Measure { bits: PENALTY_BITS },
        status: "UNKNOWN"@,
        runhash: None,
        line: result_prefix() + "UNKNOWN, "@ + cutoff_text + ", 10000000"@,
    }
}

/// What a run counts as whose output has the given result lines, with their
/// numbers as far as they are numbers: the first line with both.
pub open spec fn outcome_of(
    lines: Seq<ResultLineView>,
    numbers: Seq<(Option<Measure>, Option<Measure>)>,
    cutoff: Measure,
    cutoff_text: Seq<char>,
) -> OutcomeView {
    if exists|i: int| is_first_usable(numbers, i) {
        let i = choose|i: int| is_first_usable(numbers, i);
        OutcomeView {
            runtime: capped(numbers[i].0->Some_0, cutoff),
            quality: numbers[i].1->Some_0,
            status: lines[i].status,
            runhash: lines[i].runhash,
            line: lines[i].line,
        }
    } else {
        unknown_outcome(cutoff, cutoff_text)
    }
}

/// No result line counts with a longer runtime than the cutoff.
pub proof fn lemma_outcome_respects_cutoff(
    lines: Seq<ResultLineView>,
    numbers: Seq<(Option<Measure>, Option<Measure>)>,
    cutoff: Measure,
    cutoff_text: Seq<char>,
)
    requires
        !cutoff.nan(),
    ensures
        outcome_of(lines, numbers, cutoff, cutoff_text).runtime.at_most(cutoff),
{
}

/// What a run without a usable result line counts as. `cutoff_text` is how the
/// cutoff is written.
pub fn unknown_result(cutoff: Measure, cutoff_text: &str) -> (r: SolverOutcome)
    ensures
        r@ == unknown_outcome(cutoff, cutoff_text@),
{
    let mut line = "#%# RamParIls #%# ".to_owned();
    push_text(&mut line, "UNKNOWN, ");
    push_text(&mut line, cutoff_text);
    push_text(&mut line, ", 10000000");
    SolverOutcome {
        runtime: cutoff,
        quality: Measure { bits: PENALTY_BITS },
        status: "UNKNOWN".to_owned(),
        runhash: None,
        line,
    }
}

/// What a run counts as: the first of its result lines whose runtime and
/// quality are numbers, with the runtime capped at the cutoff. `numbers` holds
/// the numbers of the lines, `cutoff_text` how the cutoff is written.
pub fn parse_solver_output(
    lines: &Vec<ResultLine>,
    numbers: &Vec<(Option<Measure>, Option<Measure>)>,
    cutoff: Measure,
    cutoff_text: &str,
) -> (r: SolverOutcome)
    requires
        lines@.len() == numbers@.len(),
    ensures
        r@ == outcome_of(lines@.map_values(|l: ResultLine| l@), numbers@, cutoff, cutoff_text@),
{
    for i in 0..lines.len()
        invariant
            lines@.len() == numbers@.len(),
            forall|j: int| 0 <= j < i ==> (#[trigger] numbers@[j]).0 is None || numbers@[j].1 is None,
    {
        if let (Some(runtime), Some(quality)) = numbers[i] {
            proof {
                assert(is_first_usable(numbers@, i as int));
                let k = choose|k: int| is_first_usable(numbers@, k);
                assert(is_first_usable(numbers@, k));
                if k < i {
                    assert(numbers@[k].0 is None || numbers@[k].1 is None);
                } else if i < k {
                    assert(numbers@[i as int].0 is None || numbers@[i as int].1 is None);
                }
                assert(lines@.map_values(|l: ResultLine| l@)[i as int] == lines@[i as int]@);
            }
            return SolverOutcome {
                runtime: if runtime.is_nan() || cutoff.lt(runtime) {
                    cutoff
                } else {
                    runtime
                },
                quality,
                status: lines[i].status.clone(),
                runhash: lines[i].runhash,
                line: lines[i].line.clone(),
            };
        }
    }
    unknown_result(cutoff, cutoff_text)
}

/// The arguments of a configuration: `-name value`, by increasing name.
pub open spec fn argument_texts(m: Assignment) -> Seq<Seq<char>> {
    listing(m).map_values(|p: (Seq<char>, Seq<char>)| "-"@ + p.0 + " "@ + p.1)
}

/// The command that runs a configuration on an instance.
pub open spec fn command_text(
    algo: Seq<char>,
    instance: Seq<char>,
    cutoff_text: Seq<char>,
    m: Assignment,
) -> Seq<char> {
    algo + " "@ + instance + " "@ + cutoff_text + " "@ + joined(argument_texts(m), " "@)
}

/// The command that runs a configuration on an instance: the algorithm, the
/// instance, the cutoff as it is written, and the arguments.
pub fn command_line(algo: &str, instance: &str, cutoff_text: &str, config: &Config) -> (r: String)
    ensures
        r@ == command_text(algo@, instance@, cutoff_text@, config@),
{
    let pairs = config.pairs();
    let ghost all = argument_texts(config@);
    let mut arguments: Vec<String> = Vec::new();
    assert(texts(arguments@) =~= Seq::empty());
    for i in 0..pairs.len()
        invariant
            all == argument_texts(config@),
            listing(config@) == pair_views(pairs@),
            texts(arguments@) == all.take(i as int),
    {
        let mut argument = "-".to_owned();
        push_text(&mut argument, pairs[i].0.as_str());
        push_text(&mut argument, " ");
        push_text(&mut argument, pairs[i].1.as_str());
        let ghost view = argument@;
        let ghost prev = texts(arguments@);
        assert(listing(config@)[i as int] == (pairs@[i as int].0@, pairs@[i as int].1@));
        arguments.push(argument);
        assert(texts(arguments@) =~= prev.push(view));
        assert(texts(arguments@) =~= all.take(i + 1));
    }
    assert(all.take(all.len() as int) =~= all);
    let mut out = algo.to_owned();
    push_text(&mut out, " ");
    push_text(&mut out, instance);
    push_text(&mut out, " ");
    push_text(&mut out, cutoff_text);
    push_text(&mut out, " ");
    push_text(&mut out, join(&arguments, " ").as_str());
    out
}

/// Whether a text holds characters, none of them white.
pub open spec fn is_word(s: Seq<char>) -> bool {
    s.len() > 0 && forall|i: int| 0 <= i < s.len() ==> !white(#[trigger] s[i])
}

/// The words that name and value pairs make on a command line.
pub open spec fn argument_words(l: Seq<(Seq<char>, Seq<char>)>) -> Seq<Seq<char>>
    decreases l.len(),
{
    if l.len() == 0 {
        Seq::empty()
    } else {
        argument_words(l.drop_last()).push(seq!['-'] + l.last().0).push(l.last().1)
    }
}

proof fn lemma_arguments_are_words(l: Seq<(Seq<char>, Seq<char>)>)
    requires
        forall|i: int| 0 <= i < l.len() ==> is_word((#[trigger] l[i]).0) && is_word(l[i].1),
    ensures
        words(
            joined(l.map_values(|p: (Seq<char>, Seq<char>)| "-"@ + p.0 + " "@ + p.1), " "@),
        ) == argument_words(l),
    decreases l.len(),
{
    let f = |p: (Seq<char>, Seq<char>)| "-"@ + p.0 + " "@ + p.1;
    reveal_strlit("-");
    reveal_strlit(" ");
    assert(" "@ =~= seq![' ']);
    assert("-"@ =~= seq!['-']);
    if l.len() == 0 {
        lemma_words_are_separated_by_white(Seq::empty(), ' ', Seq::empty());
        assert(l.map_values(f).len() == 0);
    } else {
        let d = l.drop_last();
        let p = l.last();
        assert(is_word(l[l.len() - 1].0));
        assert forall|i: int| 0 <= i < d.len() implies is_word((#[trigger] d[i]).0) && is_word(d[i].1) by {
            assert(d[i] == l[i]);
        }
        lemma_arguments_are_words(d);
        let first = seq!['-'] + p.0;
        assert forall|i: int| 0 <= i < first.len() implies !white(#[trigger] first[i]) by {
            if i > 0 {
                assert(first[i] == p.0[i - 1]);
            }
        }
        assert(f(p) =~= first + seq![' '] + p.1);
        lemma_words_of_two_texts(first, ' ', p.1);
        lemma_words_are_separated_by_white(first, ' ', Seq::empty());
        lemma_words_are_separated_by_white(p.1, ' ', Seq::empty());
        assert(l.map_values(f).drop_last() =~= d.map_values(f));
        assert(l.map_values(f).last() == f(p));
        if d.len() > 0 {
            lemma_words_of_two_texts(joined(d.map_values(f), " "@), ' ', f(p));
        } else {
            assert(l.map_values(f)[0] == f(p));
        }
        assert(words(joined(l.map_values(f), " "@)) =~= argument_words(l));
    }
}

/// A solver finds on its command line, word by word, the instance, the cutoff, and
/// for every parameter that it is given `-name` and the value, by increasing name.
pub proof fn lemma_command_says_everything(
    algo: Seq<char>,
    instance: Seq<char>,
    cutoff_text: Seq<char>,
    m: Assignment,
)
    requires
        is_word(instance),
        is_word(cutoff_text),
        forall|i: int|
            0 <= i < listing(m).len() ==> is_word((#[trigger] listing(m)[i]).0) && is_word(listing(m)[i].1),
    ensures
        words(command_text(algo, instance, cutoff_text, m)) == words(algo) + seq![instance, cutoff_text]
            + argument_words(listing(m)),
{
    reveal_strlit(" ");
    assert(" "@ =~= seq![' ']);
    lemma_arguments_are_words(listing(m));
    let a = algo + seq![' '] + instance;
    let b = a + seq![' '] + cutoff_text;
    lemma_words_of_two_texts(algo, ' ', instance);
    lemma_words_of_two_texts(a, ' ', cutoff_text);
    lemma_words_of_two_texts(b, ' ', joined(argument_texts(m), " "@));
    lemma_words_are_separated_by_white(instance, ' ', Seq::empty());
    lemma_words_are_separated_by_white(cutoff_text, ' ', Seq::empty());
    assert(words(command_text(algo, instance, cutoff_text, m)) =~= words(algo) + seq![instance, cutoff_text]
        + argument_words(listing(m)));
}

/// A result line reads as it is written: status, runtime and quality, each without
/// the white characters round it, and after them the fingerprint, if there is one.
#[verifier::rlimit(40)]
#[verifier::spinoff_prover]
pub proof fn lemma_result_line_reads_back(
    status: Seq<char>,
    runtime: Seq<char>,
    quality: Seq<char>,
    rest: Option<Seq<char>>,
)
    requires
        !status.contains(','),
        !runtime.contains(','),
        !quality.contains(','),
    ensures
        ({
            let fields = status + seq![','] + runtime + seq![','] + quality;
            let line = "#%# RamParIls #%# "@ + match rest {
                Some(text) => fields + seq![','] + text,
                None => fields,
            };
            result_line(line) == Some(
                ResultLineView {
                    status: trimmed(status),
                    runtime: trimmed(runtime),
                    quality: trimmed(quality),
                    runhash: match rest {
                        Some(text) => hex_u64(trimmed(text)),
                        None => None,
                    },
                    line,
                },
            )
        }),
{
    let p = "#%# RamParIls #%# "@;
    let tail = match rest {
        Some(text) => quality + seq![','] + text,
        None => quality,
    };
    let body = status + seq![','] + (runtime + seq![','] + tail);
    let fields = status + seq![','] + runtime + seq![','] + quality;
    let line = p + match rest {
        Some(text) => fields + seq![','] + text,
        None => fields,
    };
    assert(line =~= p + body);
    assert(p.is_prefix_of(line)) by {
        assert(line.subrange(0, p.len() as int) =~= p);
    }
    assert(line.skip(p.len() as int) =~= body);
    lemma_field_is_cut(status, runtime + seq![','] + tail);
    lemma_field_is_cut(runtime, tail);
    let last = match rest {
        Some(text) => seq![quality, text],
        None => seq![quality],
    };
    assert(first_pieces(tail, ',', 2) =~= last) by {
        if let Some(text) = rest {
            lemma_field_is_cut(quality, text);
            assert(first_pieces(text, ',', 1) =~= seq![text]);
        } else {
            quality.index_of_first_ensures(',');
        }
    }
    let middle = runtime + seq![','] + tail;
    assert(first_pieces(middle, ',', 3) == seq![runtime] + first_pieces(tail, ',', 2));
    assert(first_pieces(body, ',', 4) == seq![status] + first_pieces(middle, ',', 3));
    let all = first_pieces(body, ',', 4);
    assert(all[0] == status && all[1] == runtime && all[2] == quality);
    assert(all.len() == 2 + last.len());
    if let Some(text) = rest {
        assert(all[3] == text);
    }
}

proof fn lemma_field_is_cut(field: Seq<char>, rest: Seq<char>)
    requires
        !field.contains(','),
    ensures
        ({
            let s = field + seq![','] + rest;
            &&& s.index_of_first(',') == Some(field.len() as int)
            &&& s.take(field.len() as int) == field
            &&& s.skip(field.len() as int + 1) == rest
        }),
{
    let s = field + seq![','] + rest;
    let n = field.len() as int;
    s.index_of_first_ensures(',');
    assert(s[n] == ',');
    let i = s.index_of_first(',')->Some_0;
    if i < n {
        assert(s[i] == field[i]);
    }
    assert(s.take(n) =~= field);
    assert(s.skip(n + 1) =~= rest);
}

/// A line that does not begin with the marker of a result line is none, and
/// neither is one without the two commas between the three fields.
pub proof fn lemma_other_lines_are_no_results(line: Seq<char>)
    ensures
        !("#%# RamParIls #%# "@.is_prefix_of(line)) ==> result_line(line) is None,
        ({
            let n = "#%# RamParIls #%# "@.len() as int;
            !line.skip(n).contains(',') ==> result_line(line) is None
        }),
{
    let rest = line.skip("#%# RamParIls #%# "@.len() as int);
    rest.index_of_first_ensures(',');
}

/// A fingerprint in sixteen hexadecimal digits reads back as it is.
pub proof fn lemma_fingerprint_reads_back(status: Seq<char>, runtime: Seq<char>, quality: Seq<char>, runhash: u64)
    requires
        !status.contains(','),
        !runtime.contains(','),
        !quality.contains(','),
    ensures
        result_line(
            "#%# RamParIls #%# "@ + (status + seq![','] + runtime + seq![','] + quality + seq![','] + (seq![' ']
                + hexadecimal(runhash as nat, 16))),
        ) matches Some(l) && l.runhash == Some(runhash),
{
    let h = hexadecimal(runhash as nat, 16);
    lemma_hash_text_reads_back(runhash);
    lemma_hexadecimal_reads_back(runhash as nat, 16);
    assert(digit_value(h[0]) is Some && digit_value(h[15]) is Some);
    assert(tidy(h));
    lemma_trimming_takes_the_padding(seq![' '], h, Seq::empty());
    assert(seq![' '] + h + Seq::<char>::empty() =~= seq![' '] + h);
    lemma_result_line_reads_back(status, runtime, quality, Some(seq![' '] + h));
}

/// The results of an output are those of its lines, in order.
pub proof fn lemma_results_come_line_by_line(line: Seq<char>, rest: Seq<char>)
    requires
        !line.contains('\n'),
        line.len() == 0 || line.last() != '\r',
    ensures
        result_line(line) matches Some(l) ==> result_lines_of(line + seq!['\n'] + rest) == seq![l]
            + result_lines_of(rest),
        result_line(line) is None ==> result_lines_of(line + seq!['\n'] + rest) == result_lines_of(rest),
{
    lemma_lines_follow_one_another(line, rest);
    lemma_results_of_two(seq![line], lines_of(rest), |s: Seq<char>| result_line(s));
    Seq::lemma_filter_map_singleton(line, |s: Seq<char>| result_line(s));
    assert(Seq::<ResultLineView>::empty() + result_lines_of(rest) =~= result_lines_of(rest));
}

proof fn lemma_results_of_two(
    a: Seq<Seq<char>>,
    b: Seq<Seq<char>>,
    f: spec_fn(Seq<char>) -> Option<ResultLineView>,
)
    ensures
        (a + b).filter_map(f) == a.filter_map(f) + b.filter_map(f),
    decreases b.len(),
{
    if b.len() == 0 {
        assert(a + b =~= a);
        assert(a.filter_map(f) + b.filter_map(f) =~= a.filter_map(f));
    } else {
        lemma_results_of_two(a, b.drop_last(), f);
        assert((a + b).drop_last() =~= a + b.drop_last());
        assert((a + b).filter_map(f) =~= a.filter_map(f) + b.filter_map(f));
    }
}

/// A run counts as the first of its result lines whose runtime and quality are
/// numbers says, except that its runtime is the cutoff if it took longer.
pub proof fn lemma_first_usable_line_counts(
    lines: Seq<ResultLineView>,
    numbers: Seq<(Option<Measure>, Option<Measure>)>,
    cutoff: Measure,
    cutoff_text: Seq<char>,
    i: int,
    runtime: Measure,
    quality: Measure,
)
    requires
        0 <= i < numbers.len(),
        numbers[i] == (Some(runtime), Some(quality)),
        forall|j: int| 0 <= j < i ==> (#[trigger] numbers[j]).0 is None || numbers[j].1 is None,
    ensures
        ({
            let r = outcome_of(lines, numbers, cutoff, cutoff_text);
            &&& r.status == lines[i].status
            &&& r.runhash == lines[i].runhash
            &&& r.line == lines[i].line
            &&& r.quality == quality
            &&& runtime.at_most(cutoff) ==> r.runtime == runtime
            &&& cutoff.below(runtime) ==> r.runtime == cutoff
            &&& runtime.nan() ==> r.runtime == cutoff
            &&& cutoff.nan() && !runtime.nan() ==> r.runtime == runtime
        }),
{
    assert(is_first_usable(numbers, i));
    let k = choose|k: int| is_first_usable(numbers, k);
    if k < i {
        assert(numbers[k].0 is None || numbers[k].1 is None);
    } else if i < k {
        assert(numbers[i].0 is None || numbers[i].1 is None);
    }
}

/// A run without such a line counts as unknown: with the whole cutoff as its
/// runtime, the penalty as its quality and no fingerprint.
pub proof fn lemma_run_without_a_result_is_unknown(
    lines: Seq<ResultLineView>,
    numbers: Seq<(Option<Measure>, Option<Measure>)>,
    cutoff: Measure,
    cutoff_text: Seq<char>,
)
    requires
        forall|j: int|
            0 <= j < numbers.len() ==> (#[trigger] numbers[j]).0 is None || numbers[j].1 is None,
    ensures
        ({
            let r = outcome_of(lines, numbers, cutoff, cutoff_text);
            &&& r.runtime == cutoff
            &&& r.quality == (Measure { bits: 0x4163_12d0_0000_0000 })
            &&& r.status == "UNKNOWN"@
            &&& r.runhash is None
        }),
{
    assert forall|i: int| !is_first_usable(numbers, i) by {}
}

/// The line that is made up for a run without a result reads as one: unknown, with
/// the cutoff for the runtime and the penalty for the quality.
pub proof fn lemma_unknown_line_reads_back(cutoff: Measure, cutoff_text: Seq<char>)
    requires
        tidy(cutoff_text),
        !cutoff_text.contains(','),
    ensures
        result_line(unknown_outcome(cutoff, cutoff_text).line) matches Some(l) && l.status == "UNKNOWN"@
            && l.runtime == cutoff_text && l.quality == "10000000"@ && l.runhash is None,
{
    reveal_strlit("UNKNOWN");
    reveal_strlit("UNKNOWN, ");
    reveal_strlit(", 10000000");
    reveal_strlit("10000000");
    let line = unknown_outcome(cutoff, cutoff_text).line;
    let none = Seq::<char>::empty();
    let status = "UNKNOWN"@;
    let runtime = seq![' '] + cutoff_text;
    let quality = seq![' '] + "10000000"@;
    assert(line =~= "#%# RamParIls #%# "@ + (status + seq![','] + runtime + seq![','] + quality));
    assert(!runtime.contains(',')) by {
        assert forall|i: int| 0 <= i < runtime.len() implies runtime[i] != ',' by {
            if i > 0 {
                assert(runtime[i] == cutoff_text[i - 1]);
            }
        }
    }
    lemma_result_line_reads_back(status, runtime, quality, None);
    lemma_tidy_is_trimmed(status);
    assert(runtime =~= seq![' '] + cutoff_text + none);
    assert(quality =~= seq![' '] + "10000000"@ + none);
    lemma_trimming_takes_the_padding(seq![' '], cutoff_text, none);
    lemma_trimming_takes_the_padding(seq![' '], "10000000"@, none);
}

/// What the cache answers for an instance is served as it is, for the batch,
/// neighbour and configuration of the task; it is not stored again.
pub proof fn lemma_answers_are_served_as_they_are(
    batch_id: u64,
    task: EvalTask,
    hits: Map<i64, CachedResult>,
    cutoff: Measure,
    n: nat,
    i: int,
)
    requires
        0 <= i < n <= task.instances@.len(),
        hits.contains_key(task.instances@[i].0),
    ensures
        exists|k: int|
            0 <= k < served_upto(batch_id, task, hits, cutoff, n).len() && {
                let r = #[trigger] served_upto(batch_id, task, hits, cutoff, n)[k];
                let c = hits[task.instances@[i].0];
                &&& r.instance_id == task.instances@[i].0
                &&& r.runtime == c.runtime
                &&& r.quality == c.quality
                &&& r.status == c.status@
                &&& r.runhash == c.runhash
                &&& r.batch_id == batch_id
                &&& r.neighbor_id == task.neighbor_id
                &&& r.hash == task.hash
                &&& !r.cacheable
                &&& r.cutoff == cutoff
            },
    decreases n,
{
    let shorter = served_upto(batch_id, task, hits, cutoff, (n - 1) as nat);
    let longer = served_upto(batch_id, task, hits, cutoff, n);
    if i == n - 1 {
        let r = longer[longer.len() - 1];
        assert(r.instance_id == task.instances@[i].0);
    } else {
        lemma_answers_are_served_as_they_are(batch_id, task, hits, cutoff, (n - 1) as nat, i);
        let k = choose|k: int|
            0 <= k < shorter.len() && {
                let r = #[trigger] shorter[k];
                let c = hits[task.instances@[i].0];
                &&& r.instance_id == task.instances@[i].0
                &&& r.runtime == c.runtime
                &&& r.quality == c.quality
                &&& r.status == c.status@
                &&& r.runhash == c.runhash
                &&& r.batch_id == batch_id
                &&& r.neighbor_id == task.neighbor_id
                &&& r.hash == task.hash
                &&& !r.cacheable
                &&& r.cutoff == cutoff
            };
        assert(longer[k] == shorter[k]);
    }
}

/// What has to be run is run in the order of the instances.
pub proof fn lemma_misses_keep_their_order(instances: Seq<(i64, String)>, hits: Map<i64, CachedResult>, n: nat)
    requires
        n <= instances.len() <= usize::MAX,
    ensures
        forall|j: int, k: int|
            0 <= j < k < missing_upto(instances, hits, n).len() ==> (#[trigger] missing_upto(
                instances,
                hits,
                n,
            )[j]) < (#[trigger] missing_upto(instances, hits, n)[k]),
        forall|k: int|
            0 <= k < missing_upto(instances, hits, n).len() ==> (#[trigger] missing_upto(instances, hits, n)[k])
                < n,
    decreases n,
{
    if n > 0 {
        lemma_misses_keep_their_order(instances, hits, (n - 1) as nat);
        let shorter = missing_upto(instances, hits, (n - 1) as nat);
        let longer = missing_upto(instances, hits, n);
        assert forall|j: int, k: int| 0 <= j < k < longer.len() implies (#[trigger] longer[j]) < (
        #[trigger] longer[k]) by {
            assert(longer[j] == shorter[j]);
            assert(shorter[j] < n - 1);
            if k < shorter.len() {
                assert(longer[k] == shorter[k]);
            }
        }
        assert forall|k: int| 0 <= k < longer.len() implies (#[trigger] longer[k]) < n by {
            if k < shorter.len() {
                assert(longer[k] == shorter[k]);
                assert(shorter[k] < n - 1);
            }
        }
    }
}

/// Without the cache every instance has to be run; with it every answer is used.
pub proof fn lemma_answers_are_used_unless_disabled(disabled: bool, hits: Map<i64, CachedResult>, id: i64)
    ensures
        disabled ==> !usable_hits(disabled, hits).contains_key(id),
        !disabled ==> (usable_hits(disabled, hits).contains_key(id) <==> hits.contains_key(id)),
        !disabled && hits.contains_key(id) ==> usable_hits(disabled, hits)[id] == hits[id],
{
}

impl Scheduler {
    /// Work stops for every other batch than the one in progress, and in that one
    /// exactly for the neighbours that were cancelled.
    pub proof fn lemma_work_stops_where_it_is_cancelled(&self, batch_id: u64, neighbor_id: usize)
        ensures
            batch_id != self.batch_id ==> self.stops(batch_id, neighbor_id),
            batch_id == self.batch_id ==> (self.stops(batch_id, neighbor_id)
                <==> self.cancelled_neighbors@.contains((batch_id, neighbor_id))),
    {
    }

    /// The process groups for a condition are all that run for a batch and
    /// neighbour which satisfy it, and no others.
    pub proof fn lemma_groups_are_found_by_what_they_run_for(&self, p: spec_fn((u64, usize)) -> bool, group: i32)
        ensures
            self.groups_where(p).contains(group) <==> exists|i: int|
                0 <= i < self.process_groups@.len() && (#[trigger] self.process_groups@[i]).0 == group && p(
                    self.process_groups@[i].1,
                ),
    {
        lemma_groups_found(self.process_groups@, p, group);
    }
}

proof fn lemma_groups_found(all: Seq<(i32, (u64, usize))>, p: spec_fn((u64, usize)) -> bool, group: i32)
    ensures
        all.filter_map(
            |g: (i32, (u64, usize))|
                if p(g.1) {
                    Some(g.0)
                } else {
                    None
                },
        ).contains(group) <==> exists|i: int|
            0 <= i < all.len() && (#[trigger] all[i]).0 == group && p(all[i].1),
    decreases all.len(),
{
    let f = |g: (i32, (u64, usize))|
        if p(g.1) {
            Some(g.0)
        } else {
            None
        };
    if all.len() > 0 {
        let d = all.drop_last();
        lemma_groups_found(d, p, group);
        let shorter = d.filter_map(f);
        let longer = all.filter_map(f);
        if exists|i: int| 0 <= i < all.len() && (#[trigger] all[i]).0 == group && p(all[i].1) {
            let i = choose|i: int| 0 <= i < all.len() && (#[trigger] all[i]).0 == group && p(all[i].1);
            if i < d.len() {
                assert(d[i] == all[i]);
                let k = choose|k: int| 0 <= k < shorter.len() && shorter[k] == group;
                assert(longer[k] == group);
            } else {
                assert(longer[longer.len() - 1] == group);
            }
        }
        if longer.contains(group) {
            let k = choose|k: int| 0 <= k < longer.len() && longer[k] == group;
            if k < shorter.len() {
                assert(shorter[k] == group);
                let i = choose|i: int| 0 <= i < d.len() && (#[trigger] d[i]).0 == group && p(d[i].1);
                assert(all[i].0 == group && p(all[i].1));
            } else {
                assert(all[all.len() - 1].0 == group);
            }
        }
    }
}

/// Forgetting a process group forgets that one and keeps all others.
pub proof fn lemma_one_group_is_forgotten(all: Seq<(i32, (u64, usize))>, group: i32, entry: (i32, (u64, usize)))
    ensures
        all.filter(other_group(group)).contains(entry) <==> all.contains(entry) && entry.0 != group,
{
    let keep = other_group(group);
    if all.contains(entry) && entry.0 != group {
        let i = choose|i: int| 0 <= i < all.len() && all[i] == entry;
        all.lemma_filter_contains(keep, i);
    }
    if all.filter(keep).contains(entry) {
        let k = choose|k: int| 0 <= k < all.filter(keep).len() && all.filter(keep)[k] == entry;
        all.lemma_filter_pred(keep, k);
        all.lemma_filter_contains_rev(keep, entry);
    }
}

} // verus!
