//! Future-telling: early rejection of a configuration at a checkpoint.
//!
//! A [`CheckpointTracker`] replays the runs of one configuration on virtual
//! workers. Once every virtual worker is known to be busy past the checkpoint,
//! the number of instances solved by then is known although runs are still in
//! flight, and can be held against the same number of the incumbent.

use crate::ils::IlsOptions;
use crate::measure::{Measure, COUNT_LIMIT};
use std::collections::HashMap;
use vstd::prelude::*;

verus! {

broadcast use vstd::std_specs::hash::group_hash_axioms;

/// Replays the runs of one configuration across identical virtual workers, the
/// buckets.
///
/// An instance whose start was reported occupies a bucket until its result
/// arrives. A result without a reported start goes to the least busy bucket and
/// begins when that bucket is free.
///
/// Times are relative to the first reported start. Their sums and differences
/// are formed by the caller, who hands them in.
pub struct CheckpointTracker {
    pub n_total: usize,
    pub checkpoint_time: Measure,
    pub cutoff_time: Measure,
    /// The time of the first reported start.
    pub t0: Option<Measure>,
    /// Per bucket: until when it is busy.
    pub virtual_busy: Vec<Measure>,
    /// Buckets occupied by a started instance, with the instance and its start.
    pub pending: HashMap<usize, (i64, Measure)>,
    /// The bucket of a started instance.
    pub assigned: HashMap<i64, usize>,
    /// How many results finished by the checkpoint below the cutoff time.
    pub solved_count: usize,
    /// The sum of the runtimes of the results that finished by the checkpoint.
    pub time_sum: Measure,
    /// How many results contributed to `time_sum`.
    pub n_counted: usize,
    /// How many results arrived.
    pub n_seen: usize,
    /// Whether every bucket is known to be busy past the checkpoint.
    pub ready: bool,
}

/// The state of a tracker as mathematical values.
pub struct TrackerView {
    pub n_total: nat,
    pub checkpoint_time: Measure,
    pub cutoff_time: Measure,
    pub t0: Option<Measure>,
    pub busy: Seq<Measure>,
    pub pending: Map<usize, (i64, Measure)>,
    pub assigned: Map<i64, usize>,
    pub solved_count: nat,
    pub time_sum: Measure,
    pub n_counted: nat,
    pub n_seen: nat,
    pub ready: bool,
}

/// Whether `w` is the first of the least busy buckets that are not taken.
pub open spec fn is_least_busy(busy: Seq<Measure>, taken: Set<usize>, w: int) -> bool {
    &&& 0 <= w < busy.len()
    &&& !taken.contains(w as usize)
    &&& forall|v: int|
        0 <= v < busy.len() && !taken.contains(v as usize) ==> {
            ||| busy[w].total_rank() < (#[trigger] busy[v]).total_rank()
            ||| busy[w].total_rank() == busy[v].total_rank() && w <= v
        }
}

/// The first of the least busy buckets that are not taken.
pub open spec fn least_busy(busy: Seq<Measure>, taken: Set<usize>) -> int {
    choose|w: int| is_least_busy(busy, taken, w)
}

/// What a tracker is told.
pub enum Feed {
    /// An instance was started at `at`, which is `rel` after the first start.
    Start { id: i64, at: Measure, rel: Measure },
    /// The result of an instance, with the sums that it makes.
    Result { id: i64, runtime: Measure, finish: Measure, time_sum: Measure },
    /// It is `now` after the first start.
    Clock { now: Measure },
}

/// Whether the start of an instance was reported.
pub open spec fn started_in(feeds: Seq<Feed>, id: i64) -> bool {
    exists|k: int|
        0 <= k < feeds.len() && (#[trigger] feeds[k] matches Feed::Start { id: other, .. } && other == id)
}

/// Whether the result of an instance arrived.
pub open spec fn done_in(feeds: Seq<Feed>, id: i64) -> bool {
    exists|k: int|
        0 <= k < feeds.len() && (#[trigger] feeds[k] matches Feed::Result { id: other, .. } && other == id)
}

/// Whether each of the given instances is started at most once and has at most
/// one result, after its start, and no other instance occurs.
pub open spec fn orderly(feeds: Seq<Feed>, ids: Set<i64>) -> bool
    decreases feeds.len(),
{
    feeds.len() > 0 ==> {
        let before = feeds.drop_last();
        &&& orderly(before, ids)
        &&& match feeds.last() {
            Feed::Start { id, .. } => ids.contains(id) && !started_in(before, id) && !done_in(
                before,
                id,
            ),
            Feed::Result { id, .. } => ids.contains(id) && !done_in(before, id),
            Feed::Clock { .. } => true,
        }
    }
}

proof fn lemma_histories_grow(feeds: Seq<Feed>)
    requires
        feeds.len() > 0,
    ensures
        forall|id: i64| #[trigger] started_in(feeds.drop_last(), id) ==> started_in(feeds, id),
        forall|id: i64| #[trigger] done_in(feeds.drop_last(), id) ==> done_in(feeds, id),
        feeds.last() matches Feed::Start { id, .. } ==> started_in(feeds, id),
        feeds.last() matches Feed::Result { id, .. } ==> done_in(feeds, id),
{
    let before = feeds.drop_last();
    assert forall|id: i64| #[trigger] started_in(before, id) implies started_in(feeds, id) by {
        let k = choose|k: int|
            0 <= k < before.len() && (#[trigger] before[k] matches Feed::Start { id: other, .. } && other
                == id);
        assert(feeds[k] == before[k]);
    }
    assert forall|id: i64| #[trigger] done_in(before, id) implies done_in(feeds, id) by {
        let k = choose|k: int|
            0 <= k < before.len() && (#[trigger] before[k] matches Feed::Result { id: other, .. } && other
                == id);
        assert(feeds[k] == before[k]);
    }
    assert(feeds[feeds.len() - 1] == feeds.last());
}

impl TrackerView {
    /// A bucket is occupied exactly by the instance that it is recorded with,
    /// and no count exceeds the next.
    pub open spec fn wf(self) -> bool {
        &&& 0 < self.busy.len() <= usize::MAX
        &&& self.n_total < COUNT_LIMIT
        &&& forall|w: usize| #[trigger] self.pending.contains_key(w) ==> w < self.busy.len()
        &&& forall|id: i64| #[trigger]
            self.assigned.contains_key(id) ==> self.pending.contains_key(self.assigned[id])
                && self.pending[self.assigned[id]].0 == id
        &&& self.solved_count <= self.n_counted <= self.n_seen <= usize::MAX
    }

    /// Whether every bucket is known to be busy past the checkpoint, if the time
    /// is at least `now`.
    pub open spec fn all_past_horizon(self, now: Measure) -> bool {
        forall|w: int|
            0 <= w < self.busy.len() ==> self.checkpoint_time.below(#[trigger] self.busy_until(w, now))
    }

    /// The buckets that an assignment may not choose.
    pub open spec fn excluded(self, free_only: bool) -> Set<usize> {
        if free_only {
            self.pending.dom()
        } else {
            Set::empty()
        }
    }

    /// Until when a bucket is known to be busy, if the time is at least `now`:
    /// an occupied bucket is busy now.
    pub open spec fn busy_until(self, w: int, now: Measure) -> Measure {
        if self.pending.contains_key(w as usize) {
            now
        } else {
            self.busy[w]
        }
    }

    /// After a look at the clock.
    pub open spec fn refreshed(self, now: Measure) -> TrackerView {
        if !self.ready && self.n_seen < self.n_total && self.all_past_horizon(now) {
            TrackerView { ready: true, ..self }
        } else {
            self
        }
    }

    /// With the first free of the least busy buckets, if any is free, occupied
    /// by an instance that started at `rel`.
    pub open spec fn claimed(self, id: i64, rel: Measure) -> TrackerView {
        if exists|w: int| is_least_busy(self.busy, self.pending.dom(), w) {
            let w = least_busy(self.busy, self.pending.dom()) as usize;
            TrackerView {
                pending: self.pending.insert(w, (id, rel)),
                assigned: self.assigned.insert(id, w),
                ..self
            }
        } else {
            self
        }
    }

    /// After the report of a start at `at`, which is `rel` after the first start.
    pub open spec fn dispatched(self, id: i64, at: Measure, rel: Measure) -> TrackerView {
        if self.ready {
            self
        } else {
            let t0 = match self.t0 {
                Some(t) => Some(t),
                None => Some(at),
            };
            let claimed = TrackerView { t0, ..self }.claimed(id, rel);
            claimed.refreshed(rel)
        }
    }

    /// The bucket that the result of an instance settles.
    pub open spec fn bucket_for(self, id: i64) -> int {
        if self.assigned.contains_key(id) {
            self.assigned[id] as int
        } else {
            least_busy(self.busy, Set::empty())
        }
    }

    /// When the run of an instance whose result arrives began.
    pub open spec fn start_of(self, id: i64) -> Measure {
        if self.assigned.contains_key(id) {
            self.pending[self.assigned[id]].1
        } else {
            self.busy[self.bucket_for(id)]
        }
    }

    /// With a result entered that finished at `finish`; `time_sum` is the sum so
    /// far and its runtime.
    pub open spec fn settled(
        self,
        id: i64,
        runtime: Measure,
        finish: Measure,
        time_sum: Measure,
    ) -> TrackerView {
        let w = self.bucket_for(id);
        let counts = finish.at_most(self.checkpoint_time);
        TrackerView {
            pending: if self.assigned.contains_key(id) {
                self.pending.remove(w as usize)
            } else {
                self.pending
            },
            assigned: self.assigned.remove(id),
            busy: self.busy.update(w, finish),
            time_sum: if counts {
                time_sum
            } else {
                self.time_sum
            },
            n_counted: if counts {
                self.n_counted + 1
            } else {
                self.n_counted
            },
            solved_count: if counts && runtime.below(self.cutoff_time) {
                self.solved_count + 1
            } else {
                self.solved_count
            },
            n_seen: self.n_seen + 1,
            ..self
        }
    }

    /// After a result that finished at `finish`; `time_sum` is the sum so far
    /// and its runtime.
    pub open spec fn recorded(
        self,
        id: i64,
        runtime: Measure,
        finish: Measure,
        time_sum: Measure,
    ) -> TrackerView {
        if self.ready {
            self
        } else {
            self.settled(id, runtime, finish, time_sum).refreshed(finish)
        }
    }

    /// Whether the checkpoint was reached while results are outstanding.
    pub open spec fn matured(self) -> bool {
        self.ready && self.n_seen < self.n_total
    }

    /// A state that a report or result reaches is well-formed.
    pub proof fn lemma_steps_keep_wf(
        self,
        id: i64,
        at: Measure,
        rel: Measure,
        runtime: Measure,
        finish: Measure,
        time_sum: Measure,
    )
        requires
            self.wf(),
        ensures
            self.refreshed(at).wf(),
            self.dispatched(id, at, rel).wf(),
            self.n_seen < usize::MAX ==> self.recorded(id, runtime, finish, time_sum).wf(),
    {
        if exists|w: int| is_least_busy(self.busy, self.pending.dom(), w) {
            let w = least_busy(self.busy, self.pending.dom());
            assert(is_least_busy(self.busy, self.pending.dom(), w));
            assert(!self.pending.contains_key(w as usize));
        }
        lemma_least_busy_exists(self.busy);
        let n = self.recorded(id, runtime, finish, time_sum);
        if !self.ready && self.assigned.contains_key(id) {
            let b = self.assigned[id];
            assert forall|other: i64| #[trigger] n.assigned.contains_key(other) implies n.pending.contains_key(
                n.assigned[other],
            ) && n.pending[n.assigned[other]].0 == other by {
                assert(self.pending[self.assigned[other]].0 == other);
                assert(self.pending[b].0 == id);
            }
        }
    }

    /// Once the checkpoint is reached nothing changes any more.
    pub proof fn lemma_ready_is_final(
        self,
        id: i64,
        at: Measure,
        rel: Measure,
        runtime: Measure,
        finish: Measure,
        time_sum: Measure,
    )
        requires
            self.ready,
        ensures
            self.refreshed(at) == self,
            self.dispatched(id, at, rel) == self,
            self.recorded(id, runtime, finish, time_sum) == self,
    {
    }

    /// The last result does not reach the checkpoint: the exact score is there
    /// then.
    pub proof fn lemma_last_result_never_matures(
        self,
        id: i64,
        runtime: Measure,
        finish: Measure,
        time_sum: Measure,
    )
        requires
            !self.ready,
            self.n_seen + 1 == self.n_total,
        ensures
            !self.recorded(id, runtime, finish, time_sum).ready,
            self.recorded(id, runtime, finish, time_sum).n_seen == self.n_total,
    {
    }

    /// After the given results, each an instance, its runtime, its finish and
    /// the sum of runtimes, with no start reported.
    pub open spec fn after_results(self, results: Seq<(i64, Measure, Measure, Measure)>) -> TrackerView
        decreases results.len(),
    {
        if results.len() == 0 {
            self
        } else {
            let r = results.last();
            self.after_results(results.drop_last()).recorded(r.0, r.1, r.2, r.3)
        }
    }

    /// A tracker before any report or result.
    pub open spec fn fresh(self) -> bool {
        &&& self.t0 is None
        &&& self.pending == Map::<usize, (i64, Measure)>::empty()
        &&& self.assigned == Map::<i64, usize>::empty()
        &&& self.solved_count == 0
        &&& self.n_counted == 0
        &&& self.n_seen == 0
        &&& !self.ready
        &&& forall|w: int| 0 <= w < self.busy.len() ==> (#[trigger] self.busy[w]).bits == 0
    }

    /// With no more instances than virtual workers the checkpoint is never
    /// reached: every result finds an idle worker.
    pub proof fn lemma_inert_without_surplus(self, results: Seq<(i64, Measure, Measure, Measure)>)
        requires
            self.fresh(),
            self.wf(),
            self.n_total <= self.busy.len(),
            !self.checkpoint_time.below(Measure { bits: 0 }),
        ensures
            !self.after_results(results).ready,
            !self.after_results(results).matured(),
    {
        self.lemma_inert_invariant(results);
    }

    /// After one report, result or look at the clock.
    pub open spec fn fed(self, feed: Feed) -> TrackerView {
        match feed {
            Feed::Start { id, at, rel } => self.dispatched(id, at, rel),
            Feed::Result { id, runtime, finish, time_sum } => self.recorded(
                id,
                runtime,
                finish,
                time_sum,
            ),
            Feed::Clock { now } => if self.t0 is Some {
                self.refreshed(now)
            } else {
                self
            },
        }
    }

    /// After a sequence of reports, results and looks at the clock.
    pub open spec fn after_feeds(self, feeds: Seq<Feed>) -> TrackerView
        decreases feeds.len(),
    {
        if feeds.len() == 0 {
            self
        } else {
            self.after_feeds(feeds.drop_last()).fed(feeds.last())
        }
    }

    /// With fewer instances than virtual workers the checkpoint is never
    /// reached, whatever starts are reported: some worker is idle throughout.
    pub proof fn lemma_inert_below_the_workers(self, feeds: Seq<Feed>, ids: Set<i64>)
        requires
            self.fresh(),
            self.wf(),
            self.n_total < self.busy.len(),
            !self.checkpoint_time.below(Measure { bits: 0 }),
            ids.finite(),
            ids.len() <= self.n_total,
            orderly(feeds, ids),
        ensures
            !self.after_feeds(feeds).ready,
            !self.after_feeds(feeds).matured(),
    {
        self.lemma_feeds_touch_few(feeds, ids);
    }

    /// Buckets outside `touched` are idle, and each of `touched` is due to an
    /// instance of its own, one of `touching`.
    spec fn touches_few(
        self,
        feeds: Seq<Feed>,
        ids: Set<i64>,
        touched: Set<int>,
        touching: Set<i64>,
    ) -> bool {
        &&& !self.ready
        &&& touched.finite()
        &&& touching.subset_of(ids)
        &&& touched.len() <= touching.len()
        &&& forall|w: int|
            0 <= w < self.busy.len() && !touched.contains(w) ==> (#[trigger] self.busy[w]).bits == 0
        &&& forall|w: usize| #[trigger] self.pending.contains_key(w) ==> touched.contains(w as int)
        &&& forall|id: i64| #[trigger]
            self.assigned.contains_key(id) ==> touching.contains(id) && self.pending.contains_key(
                self.assigned[id],
            ) && self.pending[self.assigned[id]].0 == id && self.assigned[id] < self.busy.len()
        &&& forall|id: i64| #[trigger]
            touching.contains(id) ==> (started_in(feeds, id) || done_in(feeds, id)) && (done_in(
                feeds,
                id,
            ) || self.assigned.contains_key(id))
    }

    proof fn lemma_idle_bucket_keeps_waiting(self, ids: Set<i64>, touched: Set<int>, touching: Set<i64>, now: Measure)
        requires
            touched.finite(),
            ids.finite(),
            touching.subset_of(ids),
            touched.len() <= touching.len(),
            ids.len() < self.busy.len() <= usize::MAX,
            forall|w: int|
                0 <= w < self.busy.len() && !touched.contains(w) ==> (#[trigger] self.busy[w]).bits == 0,
            forall|w: usize| #[trigger] self.pending.contains_key(w) ==> touched.contains(w as int),
            !self.checkpoint_time.below(Measure { bits: 0 }),
        ensures
            self.refreshed(now) == self,
    {
        vstd::set_lib::lemma_len_subset(touching, ids);
        let all = vstd::set_lib::set_int_range(0, self.busy.len() as int);
        vstd::set_lib::lemma_int_range(0, self.busy.len() as int);
        if all.subset_of(touched) {
            vstd::set_lib::lemma_len_subset(all, touched);
            assert(false);
        }
        let idle = choose|v: int| #[trigger] all.contains(v) && !touched.contains(v);
        assert(self.busy[idle].bits == 0);
        assert(!self.pending.contains_key(idle as usize));
        assert(!self.checkpoint_time.below(self.busy_until(idle, now)));
    }

    proof fn lemma_feeds_touch_few(self, feeds: Seq<Feed>, ids: Set<i64>) -> (r: (Set<int>, Set<i64>))
        requires
            self.fresh(),
            self.wf(),
            self.n_total < self.busy.len(),
            !self.checkpoint_time.below(Measure { bits: 0 }),
            ids.finite(),
            ids.len() <= self.n_total,
            orderly(feeds, ids),
        ensures
            self.after_feeds(feeds).n_total == self.n_total,
            self.after_feeds(feeds).checkpoint_time == self.checkpoint_time,
            self.after_feeds(feeds).busy.len() == self.busy.len(),
            self.after_feeds(feeds).touches_few(feeds, ids, r.0, r.1),
        decreases feeds.len(),
    {
        if feeds.len() == 0 {
            (Set::empty(), Set::empty())
        } else {
            let before = feeds.drop_last();
            let last = feeds.last();
            let (touched, touching) = self.lemma_feeds_touch_few(before, ids);
            let p = self.after_feeds(before);
            lemma_histories_grow(feeds);
            match last {
                Feed::Start { id, at, rel } => {
                    assert(!touching.contains(id));
                    let t0 = match p.t0 {
                        Some(t) => Some(t),
                        None => Some(at),
                    };
                    let opened = TrackerView { t0, ..p };
                    let c = opened.claimed(id, rel);
                    let w = least_busy(p.busy, p.pending.dom());
                    if exists|v: int| is_least_busy(p.busy, p.pending.dom(), v) {
                        assert(is_least_busy(p.busy, p.pending.dom(), w));
                        let more = touched.insert(w);
                        let ids_more = touching.insert(id);
                        vstd::set_lib::lemma_len_subset(touching, ids);
                        c.lemma_idle_bucket_keeps_waiting(ids, more, ids_more, rel);
                        assert(started_in(feeds, id));
                        (more, ids_more)
                    } else {
                        c.lemma_idle_bucket_keeps_waiting(ids, touched, touching, rel);
                        (touched, touching)
                    }
                },
                Feed::Result { id, runtime, finish, time_sum } => {
                    let c = p.settled(id, runtime, finish, time_sum);
                    lemma_least_busy_exists(p.busy);
                    assert(done_in(feeds, id));
                    if p.assigned.contains_key(id) {
                        let b = p.assigned[id];
                        assert forall|other: i64| #[trigger] c.assigned.contains_key(other) implies c.assigned[other]
                            != b by {
                            assert(p.pending[p.assigned[other]].0 == other);
                            assert(p.pending[b].0 == id);
                        }
                        c.lemma_idle_bucket_keeps_waiting(ids, touched, touching, finish);
                        (touched, touching)
                    } else {
                        assert(!touching.contains(id));
                        let w = p.bucket_for(id);
                        let more = touched.insert(w);
                        let ids_more = touching.insert(id);
                        vstd::set_lib::lemma_len_subset(touching, ids);
                        assert(p.assigned.remove(id) =~= p.assigned);
                        c.lemma_idle_bucket_keeps_waiting(ids, more, ids_more, finish);
                        (more, ids_more)
                    }
                },
                Feed::Clock { now } => {
                    p.lemma_idle_bucket_keeps_waiting(ids, touched, touching, now);
                    (touched, touching)
                },
            }
        }
    }

    proof fn lemma_inert_invariant(self, results: Seq<(i64, Measure, Measure, Measure)>) -> (touched: Set<
        int,
    >)
        requires
            self.fresh(),
            self.wf(),
            self.n_total <= self.busy.len(),
            !self.checkpoint_time.below(Measure { bits: 0 }),
        ensures
            ({
                let s = self.after_results(results);
                &&& !s.ready
                &&& s.n_total == self.n_total
                &&& s.n_seen == results.len()
                &&& s.checkpoint_time == self.checkpoint_time
                &&& s.busy.len() == self.busy.len()
                &&& s.pending == self.pending
                &&& s.assigned == self.assigned
                &&& touched.finite()
                &&& touched.len() <= results.len()
                &&& forall|w: int|
                    0 <= w < s.busy.len() && !touched.contains(w) ==> (#[trigger] s.busy[w]).bits == 0
            }),
        decreases results.len(),
    {
        if results.len() == 0 {
            Set::empty()
        } else {
            let r = results.last();
            let before = self.lemma_inert_invariant(results.drop_last());
            let p = self.after_results(results.drop_last());
            let s = self.after_results(results);
            let w = p.bucket_for(r.0);
            let touched = before.insert(w);
            assert(p.assigned.remove(r.0) =~= p.assigned);
            lemma_least_busy_exists(p.busy);
            if s.n_seen < s.n_total {
                let all = vstd::set_lib::set_int_range(0, s.busy.len() as int);
                vstd::set_lib::lemma_int_range(0, s.busy.len() as int);
                if all.subset_of(touched) {
                    vstd::set_lib::lemma_len_subset(all, touched);
                    assert(false);
                }
                let idle = choose|v: int| #[trigger] all.contains(v) && !touched.contains(v);
                let settled = p.settled(r.0, r.1, r.2, r.3);
                assert(p.busy[idle].bits == 0);
                assert(settled.busy[idle].bits == 0);
                assert(!s.checkpoint_time.below(settled.busy_until(idle, r.2)));
            }
            touched
        }
    }
}

proof fn lemma_least_busy_unique(busy: Seq<Measure>, taken: Set<usize>, w: int)
    requires
        is_least_busy(busy, taken, w),
    ensures
        least_busy(busy, taken) == w,
{
    let c = least_busy(busy, taken);
    assert(is_least_busy(busy, taken, c));
    assert(busy[c].total_rank() <= busy[w].total_rank());
    assert(busy[w].total_rank() <= busy[c].total_rank());
}

proof fn lemma_least_busy_exists(busy: Seq<Measure>)
    ensures
        0 < busy.len() <= usize::MAX ==> is_least_busy(busy, Set::empty(), least_busy(busy, Set::empty())),
    decreases busy.len(),
{
    if 0 < busy.len() <= usize::MAX {
        let shorter = busy.drop_last();
        lemma_least_busy_exists(shorter);
        let last = busy.len() - 1;
        if busy.len() == 1 {
            assert(is_least_busy(busy, Set::empty(), 0));
        } else {
            let w = least_busy(shorter, Set::empty());
            assert(is_least_busy(shorter, Set::empty(), w));
            assert(forall|v: int| 0 <= v < last ==> #[trigger] busy[v] == shorter[v]);
            if busy[last].total_rank() < busy[w].total_rank() {
                assert(is_least_busy(busy, Set::empty(), last));
            } else {
                assert(is_least_busy(busy, Set::empty(), w));
            }
        }
    }
}

impl View for CheckpointTracker {
    type V = TrackerView;

    open spec fn view(&self) -> TrackerView {
        TrackerView {
            n_total: self.n_total as nat,
            checkpoint_time: self.checkpoint_time,
            cutoff_time: self.cutoff_time,
            t0: self.t0,
            busy: self.virtual_busy@,
            pending: self.pending@,
            assigned: self.assigned@,
            solved_count: self.solved_count as nat,
            time_sum: self.time_sum,
            n_counted: self.n_counted as nat,
            n_seen: self.n_seen as nat,
            ready: self.ready,
        }
    }
}

impl CheckpointTracker {
    /// A tracker for `n_total` instances on at least one virtual worker.
    pub fn new(n_virtual: usize, checkpoint_time: Measure, cutoff_time: Measure, n_total: usize) -> (t: Self)
        requires
            n_total < COUNT_LIMIT,
        ensures
            t@.wf(),
            t@.fresh(),
            t@.n_total == n_total,
            t@.checkpoint_time == checkpoint_time,
            t@.cutoff_time == cutoff_time,
            t@.time_sum.bits == 0,
            t@.busy.len() == if n_virtual >= 1 {
                n_virtual as int
            } else {
                1
            },
    {
        let buckets: usize = if n_virtual >= 1 {
            n_virtual
        } else {
            1
        };
        let mut virtual_busy: Vec<Measure> = Vec::new();
        for i in 0..buckets
            invariant
                virtual_busy@.len() == i,
                forall|w: int| 0 <= w < i ==> (#[trigger] virtual_busy@[w]).bits == 0,
        {
            virtual_busy.push(Measure::zero());
        }
        CheckpointTracker {
            n_total,
            checkpoint_time,
            cutoff_time,
            t0: None,
            virtual_busy,
            pending: HashMap::new(),
            assigned: HashMap::new(),
            solved_count: 0,
            time_sum: Measure::zero(),
            n_counted: 0,
            n_seen: 0,
            ready: false,
        }
    }

    /// The first of the least busy buckets; with `free_only`, of those that no
    /// started instance occupies.
    fn least_busy_bucket(&self, free_only: bool) -> (r: Option<usize>)
        requires
            self@.wf(),
        ensures
            ({
                let taken = self@.excluded(free_only);
                match r {
                    Some(w) => is_least_busy(self@.busy, taken, w as int) && least_busy(self@.busy, taken)
                        == w,
                    None => free_only && !exists|w: int| is_least_busy(self@.busy, taken, w),
                }
            }),
    {
        let ghost taken = self@.excluded(free_only);
        let ghost busy = self.virtual_busy@;
        let mut best: Option<usize> = None;
        for v in 0..self.virtual_busy.len()
            invariant
                busy == self.virtual_busy@,
                taken == self@.excluded(free_only),
                match best {
                    Some(w) => w < v && !taken.contains(w) && forall|u: int|
                        0 <= u < v && !taken.contains(u as usize) ==> {
                            ||| busy[w as int].total_rank() < (#[trigger] busy[u]).total_rank()
                            ||| busy[w as int].total_rank() == busy[u].total_rank() && w <= u
                        },
                    None => forall|u: usize| u < v ==> #[trigger] taken.contains(u),
                },
        {
            if !(free_only && self.pending.contains_key(&v)) {
                assert(!taken.contains(v));
                let better = match best {
                    Some(w) => self.virtual_busy[v].precedes(self.virtual_busy[w]),
                    None => true,
                };
                if better {
                    best = Some(v);
                }
            }
        }
        proof {
            if let Some(w) = best {
                assert(is_least_busy(busy, taken, w as int));
                lemma_least_busy_unique(busy, taken, w as int);
            } else {
                if exists|w: int| is_least_busy(busy, taken, w) {
                    let w = choose|w: int| is_least_busy(busy, taken, w);
                    assert(taken.contains(w as usize));
                }
                if !free_only {
                    lemma_least_busy_exists(busy);
                }
            }
        }
        best
    }

    /// A worker has started an instance at `at`, which is `rel` after the first
    /// start. Has no effect once ready. If every bucket is occupied the start
    /// is not tracked.
    pub fn record_dispatch(&mut self, instance_id: i64, at: Measure, rel: Measure)
        requires
            old(self)@.wf(),
        ensures
            final(self)@ == old(self)@.dispatched(instance_id, at, rel),
            final(self)@.wf(),
    {
        proof {
            self@.lemma_steps_keep_wf(instance_id, at, rel, at, at, at);
        }
        if self.ready {
            return;
        }
        if self.t0.is_none() {
            self.t0 = Some(at);
        }
        let ghost opened = self@;
        assert(opened.excluded(true) == opened.pending.dom());
        match self.least_busy_bucket(true) {
            Some(w) => {
                self.pending.insert(w, (instance_id, rel));
                self.assigned.insert(instance_id, w);
            },
            None => {},
        }
        assert(self@ == opened.claimed(instance_id, rel));
        self.refresh(rel);
    }

    /// When the run of an instance whose result arrives began, on its bucket.
    pub fn start_for(&self, instance_id: i64) -> (r: Measure)
        requires
            self@.wf(),
        ensures
            r == self@.start_of(instance_id),
    {
        match self.assigned.get(&instance_id) {
            Some(w) => {
                assert(self@.assigned.contains_key(instance_id));
                match self.pending.get(w) {
                    Some(p) => p.1,
                    None => Measure::zero(),
                }
            },
            None => match self.least_busy_bucket(false) {
                Some(w) => self.virtual_busy[w],
                None => Measure::zero(),
            },
        }
    }

    /// Feed one more result. `finish` is [`start_for`](Self::start_for) the
    /// instance and its runtime, `time_sum` the sum so far and its runtime. Has
    /// no effect once ready.
    pub fn record(&mut self, instance_id: i64, runtime: Measure, finish: Measure, time_sum: Measure)
        requires
            old(self)@.wf(),
            old(self)@.n_seen < usize::MAX,
        ensures
            final(self)@ == old(self)@.recorded(instance_id, runtime, finish, time_sum),
            final(self)@.wf(),
    {
        proof {
            self@.lemma_steps_keep_wf(instance_id, runtime, runtime, runtime, finish, time_sum);
        }
        if self.ready {
            return;
        }
        let ghost start = self@;
        let w: usize = match self.assigned.remove(&instance_id) {
            Some(w) => {
                assert(start.assigned.contains_key(instance_id));
                self.pending.remove(&w);
                w
            },
            None => {
                assert(start.assigned.remove(instance_id) =~= start.assigned);
                match self.least_busy_bucket(false) {
                    Some(w) => w,
                    None => 0,
                }
            },
        };
        assert(w == start.bucket_for(instance_id));
        if finish.le(self.checkpoint_time) {
            self.time_sum = time_sum;
            self.n_counted = self.n_counted + 1;
            if runtime.lt(self.cutoff_time) {
                self.solved_count = self.solved_count + 1;
            }
        }
        self.virtual_busy.set(w, finish);
        self.n_seen = self.n_seen + 1;
        if self.n_seen == self.n_total {
            return;
        }
        self.refresh(finish);
    }

    /// Look at the clock: `now` is the time since the first reported start.
    /// Has no effect before the first reported start.
    pub fn poll(&mut self, now: Measure)
        requires
            old(self)@.wf(),
        ensures
            final(self)@ == if old(self)@.t0 is Some {
                old(self)@.refreshed(now)
            } else {
                old(self)@
            },
            final(self)@.wf(),
    {
        if self.t0.is_some() {
            self.refresh(now);
        }
    }

    fn refresh(&mut self, now: Measure)
        ensures
            final(self)@ == old(self)@.refreshed(now),
    {
        if self.ready || self.n_seen >= self.n_total {
            return;
        }
        let ghost s = self@;
        for w in 0..self.virtual_busy.len()
            invariant
                s == self@,
                s == old(self)@,
                !s.ready,
                forall|v: int|
                    0 <= v < w ==> s.checkpoint_time.below(#[trigger] s.busy_until(v, now)),
        {
            let until = if self.pending.contains_key(&w) {
                now
            } else {
                self.virtual_busy[w]
            };
            assert(until == s.busy_until(w as int, now));
            if !self.checkpoint_time.lt(until) {
                return;
            }
        }
        self.ready = true;
    }

    /// The number of instances not solved by the checkpoint, once that is known
    /// while results are outstanding. Lower is better.
    pub fn score(&self) -> (r: Option<Measure>)
        requires
            self@.wf(),
        ensures
            r == self@.unsolved(),
    {
        if !self.ready || self.n_seen >= self.n_total {
            return None;
        }
        Some(Measure::from_count((self.n_total - self.solved_count) as u64))
    }

    /// The parts of the mean runtime at the checkpoint, once that is known while
    /// results are outstanding: the sum of the runtimes that count, and how many
    /// instances count with the cutoff time instead.
    pub fn par1_parts(&self) -> (r: Option<(Measure, usize)>)
        requires
            self@.wf(),
        ensures
            r == if self@.matured() {
                Some((self@.time_sum, (self@.n_total - self@.n_counted) as usize))
            } else {
                None
            },
            r == self@.par1(),
    {
        if !self.ready || self.n_seen >= self.n_total {
            return None;
        }
        Some((self.time_sum, self.n_total - self.n_counted))
    }
}

impl TrackerView {
    /// The number of instances not solved by the checkpoint, once that is known
    /// while results are outstanding.
    pub open spec fn unsolved(self) -> Option<Measure> {
        if self.matured() {
            Some(Measure::counted((self.n_total - self.solved_count) as nat))
        } else {
            None
        }
    }

    /// A checkpoint read-out is a count of at least one instance and at most all.
    pub proof fn lemma_unsolved_range(self)
        requires
            self.wf(),
        ensures
            self.unsolved() is Some <==> self.matured(),
            self.matured() ==> 0 < self.n_total - self.solved_count <= self.n_total,
    {
    }
}

/// Whether future-telling applies to evaluations on that many instances.
pub open spec fn tells_future(options: IlsOptions, n_instances: int) -> bool {
    options.future_telling && n_instances > options.future_telling_cores
}

/// Whether future-telling should keep a tracker at all. With no more instances
/// than virtual workers it could never be ready before the last result.
pub fn future_telling_active(options: &IlsOptions, n_instances: usize) -> (r: bool)
    ensures
        r == tells_future(*options, n_instances as int),
{
    options.future_telling && n_instances > options.future_telling_cores
}

/// Whether a checkpoint is worse than the incumbent's by more than the margin,
/// where `ceiling` is the incumbent's checkpoint and the margin.
pub open spec fn beyond_ceiling(challenger: Measure, incumbent: Measure, ceiling: Measure) -> bool {
    challenger.finite() && incumbent.finite() && ceiling.below(challenger)
}

/// Whether a configuration is rejected at its checkpoint: its unsolved count
/// exceeds `ceiling`, the incumbent's and the tolerated margin.
pub fn future_telling_rejects(challenger_ckpt: Measure, incumbent_ckpt: Measure, ceiling: Measure) -> (r: bool)
    ensures
        r == beyond_ceiling(challenger_ckpt, incumbent_ckpt, ceiling),
{
    challenger_ckpt.is_finite() && incumbent_ckpt.is_finite() && ceiling.lt(challenger_ckpt)
}

impl TrackerView {
    /// A result that arrives before the checkpoint is known is seen. It counts if
    /// it finished by the checkpoint, and then as solved if it took less than the
    /// cutoff time; the sum of runtimes grows by those that count.
    pub proof fn lemma_results_by_the_checkpoint_count(
        self,
        id: i64,
        runtime: Measure,
        finish: Measure,
        time_sum: Measure,
    )
        requires
            !self.ready,
        ensures
            ({
                let next = self.recorded(id, runtime, finish, time_sum);
                let in_time = finish.at_most(self.checkpoint_time);
                &&& next.n_seen == self.n_seen + 1
                &&& next.n_counted == self.n_counted + if in_time {
                    1int
                } else {
                    0int
                }
                &&& next.solved_count == self.solved_count + if in_time && runtime.below(self.cutoff_time) {
                    1int
                } else {
                    0int
                }
                &&& next.time_sum == if in_time {
                    time_sum
                } else {
                    self.time_sum
                }
                &&& next.n_total == self.n_total
                &&& next.checkpoint_time == self.checkpoint_time
                &&& next.cutoff_time == self.cutoff_time
                &&& next.t0 == self.t0
            }),
    {
    }

    /// A result settles the worker that its instance occupies, which is free from
    /// its finish on; without a reported start it goes to the first of the least
    /// busy workers, after what that one had to do. No other worker is touched.
    pub proof fn lemma_result_settles_one_worker(
        self,
        id: i64,
        runtime: Measure,
        finish: Measure,
        time_sum: Measure,
        v: int,
    )
        requires
            self.wf(),
            !self.ready,
            0 <= v < self.busy.len(),
        ensures
            ({
                let next = self.recorded(id, runtime, finish, time_sum);
                let started = self.assigned.contains_key(id);
                &&& next.busy.len() == self.busy.len()
                &&& !next.assigned.contains_key(id)
                &&& started ==> {
                    let w = self.assigned[id];
                    &&& self.start_of(id) == self.pending[w].1
                    &&& next.busy[w as int] == finish
                    &&& !next.pending.contains_key(w)
                    &&& v != w ==> next.busy[v] == self.busy[v]
                    &&& v != w ==> (next.pending.contains_key(v as usize) <==> self.pending.contains_key(
                        v as usize,
                    ))
                }
                &&& !started ==> {
                    &&& next.pending == self.pending
                    &&& exists|w: int|
                        0 <= w < self.busy.len() && self.start_of(id) == self.busy[w] && (
                        #[trigger] next.busy[w]) == finish && self.busy[w].total_rank()
                            <= self.busy[v].total_rank() && (v < w ==> self.busy[w].total_rank()
                            < self.busy[v].total_rank()) && (v != w ==> next.busy[v] == self.busy[v])
                }
            }),
    {
        let next = self.recorded(id, runtime, finish, time_sum);
        if !self.assigned.contains_key(id) {
            lemma_least_busy_exists(self.busy);
            let w = least_busy(self.busy, Set::empty());
            assert(is_least_busy(self.busy, Set::empty(), w));
            assert(self.busy[v].total_rank() >= self.busy[w].total_rank());
            assert(next.busy[w] == finish);
        }
    }

    /// A reported start fixes the time of the first start if there was none, and
    /// occupies the first of the least busy free workers with the instance; it
    /// changes no count and no worker's time.
    pub proof fn lemma_start_occupies_a_free_worker(self, id: i64, at: Measure, rel: Measure, v: int)
        requires
            self.wf(),
            !self.ready,
            0 <= v < self.busy.len(),
            !self.pending.contains_key(v as usize),
        ensures
            ({
                let next = self.dispatched(id, at, rel);
                &&& next.t0 == Some(
                    match self.t0 {
                        Some(t) => t,
                        None => at,
                    },
                )
                &&& next.busy == self.busy
                &&& next.n_seen == self.n_seen
                &&& next.solved_count == self.solved_count
                &&& next.n_counted == self.n_counted
                &&& next.time_sum == self.time_sum
                &&& next.assigned.contains_key(id)
                &&& ({
                    let w = next.assigned[id];
                    &&& w < self.busy.len()
                    &&& !self.pending.contains_key(w)
                    &&& next.pending == self.pending.insert(w, (id, rel))
                    &&& next.start_of(id) == rel
                    &&& self.busy[w as int].total_rank() <= self.busy[v].total_rank()
                    &&& v < w ==> self.busy[w as int].total_rank() < self.busy[v].total_rank()
                })
            }),
    {
        lemma_free_bucket_exists(self.busy, self.pending.dom(), v);
        let w = least_busy(self.busy, self.pending.dom());
        assert(is_least_busy(self.busy, self.pending.dom(), w));
        assert(self.busy[v].total_rank() >= self.busy[w].total_rank());
    }

    /// A look at the clock makes the checkpoint known exactly if results are
    /// outstanding and every worker is past it.
    pub proof fn lemma_checkpoint_is_known_once_all_are_past_it(self, now: Measure)
        requires
            self.wf(),
            !self.ready,
        ensures
            self.refreshed(now).ready ==> self.n_seen < self.n_total,
            self.refreshed(now).ready ==> forall|w: int|
                0 <= w < self.busy.len() ==> #[trigger] self.is_past(w, now),
            !self.refreshed(now).ready && self.n_seen < self.n_total ==> exists|w: int|
                0 <= w < self.busy.len() && !(#[trigger] self.is_past(w, now)),
            self.refreshed(now) == (TrackerView { ready: self.refreshed(now).ready, ..self }),
    {
        if self.all_past_horizon(now) {
            assert forall|w: int| 0 <= w < self.busy.len() implies #[trigger] self.is_past(w, now) by {
                assert(self.checkpoint_time.below(self.busy_until(w, now)));
            }
        } else {
            let w = choose|w: int|
                0 <= w < self.busy.len() && !self.checkpoint_time.below(#[trigger] self.busy_until(w, now));
            assert(!self.is_past(w, now));
        }
    }

    /// Whether a worker is past the checkpoint: a free one by its own time, an
    /// occupied one because it is now past it.
    pub open spec fn is_past(self, w: int, now: Measure) -> bool {
        if self.pending.contains_key(w as usize) {
            self.checkpoint_time.below(now)
        } else {
            self.checkpoint_time.below(self.busy[w])
        }
    }

    /// The parts of the mean runtime at the checkpoint, once that is known while
    /// results are outstanding.
    pub open spec fn par1(self) -> Option<(Measure, usize)> {
        if self.matured() {
            Some((self.time_sum, (self.n_total - self.n_counted) as usize))
        } else {
            None
        }
    }

    /// The mean runtime at the checkpoint is over all instances: those that count
    /// with the sum of their runtimes, and every other with the cutoff time. It is
    /// known exactly when the number of the unsolved is.
    pub proof fn lemma_mean_at_the_checkpoint_is_over_all(self)
        requires
            self.wf(),
            self.n_total <= usize::MAX,
        ensures
            self.par1() is Some <==> self.unsolved() is Some,
            self.par1() matches Some((sum, others)) ==> sum == self.time_sum && others + self.n_counted
                == self.n_total,
    {
    }

    /// What is read off at the checkpoint is the number of instances that were not
    /// solved by it, and it is read off exactly while results are outstanding.
    pub proof fn lemma_checkpoint_counts_the_unsolved(self)
        ensures
            self.unsolved() is Some <==> self.ready && self.n_seen < self.n_total,
            self.unsolved() matches Some(m) ==> m == Measure::counted(
                (self.n_total - self.solved_count) as nat,
            ),
    {
    }
}

proof fn lemma_free_bucket_exists(busy: Seq<Measure>, taken: Set<usize>, v: int)
    requires
        0 <= v < busy.len() <= usize::MAX,
        !taken.contains(v as usize),
    ensures
        is_least_busy(busy, taken, least_busy(busy, taken)),
    decreases busy.len(),
{
    let last = busy.len() - 1;
    let shorter = busy.drop_last();
    if exists|u: usize| u < last && !(#[trigger] taken.contains(u)) {
        let u = choose|u: usize| u < last && !(#[trigger] taken.contains(u));
        lemma_free_bucket_exists(shorter, taken, u as int);
        let w = least_busy(shorter, taken);
        assert(forall|x: int| 0 <= x < last ==> #[trigger] busy[x] == shorter[x]);
        if !taken.contains(last as usize) && busy[last].total_rank() < busy[w].total_rank() {
            assert(is_least_busy(busy, taken, last));
        } else {
            assert(is_least_busy(busy, taken, w));
        }
    } else {
        assert(!taken.contains(v as usize));
        assert(v == last);
        assert(is_least_busy(busy, taken, last));
    }
}

/// Future-telling applies exactly if it is asked for and there are more instances
/// than virtual workers.
pub proof fn lemma_future_is_told_of_a_surplus(options: IlsOptions, n_instances: int)
    ensures
        !options.future_telling ==> !tells_future(options, n_instances),
        n_instances <= options.future_telling_cores ==> !tells_future(options, n_instances),
        options.future_telling && n_instances > options.future_telling_cores ==> tells_future(
            options,
            n_instances,
        ),
{
}

/// A checkpoint speaks against a configuration exactly if both counts are finite
/// and its own is greater than the ceiling; so a lower count is never rejected
/// where a higher one is not.
pub proof fn lemma_rejected_exactly_beyond_the_ceiling(
    challenger: Measure,
    lower: Measure,
    incumbent: Measure,
    ceiling: Measure,
)
    requires
        lower.at_most(challenger),
        lower.finite(),
        challenger.finite(),
    ensures
        challenger.at_most(ceiling) ==> !beyond_ceiling(challenger, incumbent, ceiling),
        incumbent.finite() && ceiling.below(challenger) ==> beyond_ceiling(challenger, incumbent, ceiling),
        !incumbent.finite() ==> !beyond_ceiling(challenger, incumbent, ceiling),
        beyond_ceiling(lower, incumbent, ceiling) ==> beyond_ceiling(challenger, incumbent, ceiling),
{
}

} // verus!
