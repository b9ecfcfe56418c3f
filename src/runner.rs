use vstd::prelude::*;

verus! {

/// The ids of a sequence of collected outcomes, in the order they were collected.
pub open spec fn ids_of<T>(completed: Seq<(usize, T)>) -> Seq<usize> {
    completed.map_values(|p: (usize, T)| p.0)
}

/// Abstract state of a bounded runner.
///
/// Tasks are numbered `0..total` in submission order. Tasks `0..next` have been
/// admitted; of those, `active` are still running and `completed` holds the
/// outcomes collected so far, in completion order.
pub ghost struct RunnerState<T> {
    pub limit: nat,
    pub total: nat,
    pub next: nat,
    pub active: Seq<usize>,
    pub completed: Seq<(usize, T)>,
}

impl<T> RunnerState<T> {
    pub open spec fn wf(self) -> bool {
        &&& self.limit >= 1
        &&& self.next <= self.total <= usize::MAX
        &&& self.active.len() <= self.limit
        &&& self.active.no_duplicates()
        &&& ids_of(self.completed).no_duplicates()
        &&& forall|i: int| 0 <= i < self.active.len() ==> self.active[i] < self.next
        &&& forall|i: int|
            0 <= i < self.completed.len() ==> (#[trigger] self.completed[i]).0 < self.next
        &&& forall|i: int|
            0 <= i < self.completed.len() ==> !self.active.contains(
                (#[trigger] self.completed[i]).0,
            )
        &&& forall|j: usize|
            j < self.next ==> self.active.contains(j) || #[trigger] ids_of(
                self.completed,
            ).contains(j)
        &&& self.completed.len() + self.active.len() == self.next
    }

    /// Every task has been admitted and every admitted task has completed.
    pub open spec fn finished(self) -> bool {
        self.next == self.total && self.active.len() == 0
    }

    /// The number of tasks that the window admits now: as many as there are free
    /// slots, and no more than remain unstarted.
    pub open spec fn admissible(self) -> nat {
        let free = (self.limit - self.active.len()) as nat;
        let remaining = (self.total - self.next) as nat;
        if free <= remaining {
            free
        } else {
            remaining
        }
    }
}

/// The outcome of a collection whose deadline elapsed before every task completed.
#[derive(Debug, PartialEq, Eq, Structural, Clone, Copy)]
pub struct Timeout;

/// Admission and collection for tasks run with at most `limit` of them in flight.
///
/// The runner does not run anything itself: it says which tasks to start, and is
/// told which ones completed. Admission is greedy and in submission order.
pub struct BoundedRunner<T> {
    limit: usize,
    total: usize,
    next: usize,
    active: Vec<usize>,
    completed: Vec<(usize, T)>,
}

impl<T> View for BoundedRunner<T> {
    type V = RunnerState<T>;

    closed spec fn view(&self) -> RunnerState<T> {
        RunnerState {
            limit: self.limit as nat,
            total: self.total as nat,
            next: self.next as nat,
            active: self.active@,
            completed: self.completed@,
        }
    }
}

impl<T> BoundedRunner<T> {
    pub open spec fn wf(&self) -> bool {
        self@.wf()
    }

    /// A runner for `total` tasks, at most `limit` of them running at once.
    pub fn new(limit: usize, total: usize) -> (r: Self)
        requires
            limit >= 1,
        ensures
            r.wf(),
            r@.limit == limit,
            r@.total == total,
            r@.next == 0,
            r@.active.len() == 0,
            r@.completed.len() == 0,
    {
        let r = BoundedRunner { limit, total, next: 0, active: Vec::new(), completed: Vec::new() };
        assert(ids_of(r@.completed) =~= Seq::<usize>::empty());
        r
    }

    /// Fills the free slots of the window with the next unstarted tasks, and
    /// returns their ids, in submission order.
    pub fn fill_window(&mut self) -> (started: Vec<usize>)
        requires
            old(self).wf(),
        ensures
            final(self).wf(),
            final(self)@.limit == old(self)@.limit,
            final(self)@.total == old(self)@.total,
            final(self)@.completed == old(self)@.completed,
            final(self)@.next == old(self)@.next + old(self)@.admissible(),
            started@.len() == old(self)@.admissible(),
            forall|i: int| 0 <= i < started@.len() ==> started@[i] == old(self)@.next + i,
            final(self)@.active == old(self)@.active + started@,
            final(self)@.active.len() == final(self)@.limit || final(self)@.next
                == final(self)@.total,
    {
        let ghost s0 = self@;
        let mut started: Vec<usize> = Vec::new();
        while self.active.len() < self.limit && self.next < self.total
            invariant
                self.wf(),
                self.limit == s0.limit,
                self.total == s0.total,
                self.completed@ == s0.completed,
                s0.next <= self.next,
                self.next - s0.next <= s0.admissible(),
                started@.len() == self.next - s0.next,
                forall|i: int| 0 <= i < started@.len() ==> started@[i] == s0.next + i,
                self.active@ == s0.active + started@,
            decreases self.total - self.next,
        {
            let id = self.next;
            let ghost a0 = self.active@;
            proof {
                assert(!a0.contains(id));
                assert(!ids_of(self.completed@).contains(id)) by {
                    if ids_of(self.completed@).contains(id) {
                        let k = choose|k: int|
                            0 <= k < ids_of(self.completed@).len() && ids_of(
                                self.completed@,
                            )[k] == id;
                        assert(self.completed@[k].0 == id);
                    }
                }
            }
            self.active.push(id);
            started.push(id);
            self.next = self.next + 1;
            proof {
                assert(self.active@ =~= a0.push(id));
                assert forall|j: usize|
                    j < self.next implies self.active@.contains(j) || #[trigger] ids_of(
                        self.completed@,
                    ).contains(j) by {
                    if j == id {
                        assert(self.active@[a0.len() as int] == id);
                    } else if a0.contains(j) {
                        let k = choose|k: int| 0 <= k < a0.len() && a0[k] == j;
                        assert(self.active@[k] == j);
                    }
                }
                assert forall|i: int|
                    0 <= i < self.completed@.len() implies !self.active@.contains(
                        (#[trigger] self.completed@[i]).0,
                    ) by {
                    let c = self.completed@[i].0;
                    assert(!a0.contains(c));
                    if self.active@.contains(c) {
                        let k = choose|k: int| 0 <= k < self.active@.len() && self.active@[k] == c;
                        if k < a0.len() {
                            assert(a0[k] == c);
                        }
                    }
                }
            }
        }
        proof {
            assert(self@.active =~= s0.active + started@);
        }
        started
    }

    /// Records that the running task `id` completed with `value`.
    pub fn complete(&mut self, id: usize, value: T)
        requires
            old(self).wf(),
            old(self)@.active.contains(id),
        ensures
            final(self).wf(),
            final(self)@.limit == old(self)@.limit,
            final(self)@.total == old(self)@.total,
            final(self)@.next == old(self)@.next,
            final(self)@.completed == old(self)@.completed.push((id, value)),
            final(self)@.active.len() + 1 == old(self)@.active.len(),
            exists|k: int|
                0 <= k < old(self)@.active.len() && old(self)@.active[k] == id
                    && final(self)@.active == old(self)@.active.remove(k),
    {
        let ghost s0 = self@;
        let mut k: usize = 0;
        while self.active[k] != id
            invariant
                self@ == s0,
                s0.wf(),
                s0.active.contains(id),
                k < s0.active.len(),
                forall|m: int| 0 <= m < k ==> s0.active[m] != id,
            decreases s0.active.len() - k,
        {
            k = k + 1;
            proof {
                if k == s0.active.len() {
                    let m = choose|m: int| 0 <= m < s0.active.len() && s0.active[m] == id;
                    assert(s0.active[m] != id);
                }
            }
        }
        self.active.remove(k);
        self.completed.push((id, value));
        proof {
            let a1 = self@.active;
            let c1 = self@.completed;
            assert(ids_of(c1) =~= ids_of(s0.completed).push(id));
            assert(!ids_of(s0.completed).contains(id)) by {
                if ids_of(s0.completed).contains(id) {
                    let m = choose|m: int|
                        0 <= m < ids_of(s0.completed).len() && ids_of(s0.completed)[m] == id;
                    assert(s0.completed[m].0 == id);
                }
            }
            assert forall|i: int|
                0 <= i < a1.len() implies a1[i] < s0.next && a1[i] != id by {
                if i < k {
                    assert(a1[i] == s0.active[i]);
                } else {
                    assert(a1[i] == s0.active[i + 1]);
                }
            }
            assert(!a1.contains(id));
            assert forall|i: int, j: int|
                0 <= i < a1.len() && 0 <= j < a1.len() && i != j implies a1[i] != a1[j] by {
                let oi = if i < k { i } else { i + 1 };
                let oj = if j < k { j } else { j + 1 };
                assert(a1[i] == s0.active[oi]);
                assert(a1[j] == s0.active[oj]);
            }
            assert forall|i: int|
                0 <= i < c1.len() implies !a1.contains((#[trigger] c1[i]).0) by {
                if i < s0.completed.len() {
                    assert(c1[i] == s0.completed[i]);
                    let c = c1[i].0;
                    if a1.contains(c) {
                        let m = choose|m: int| 0 <= m < a1.len() && a1[m] == c;
                        let om = if m < k { m } else { m + 1 };
                        assert(a1[m] == s0.active[om]);
                    }
                }
            }
            assert forall|i: int| 0 <= i < c1.len() implies (#[trigger] c1[i]).0 < s0.next by {
                if i < s0.completed.len() {
                    assert(c1[i] == s0.completed[i]);
                }
            }
            assert forall|j: usize|
                j < s0.next implies a1.contains(j) || #[trigger] ids_of(c1).contains(j) by {
                if j == id {
                    assert(ids_of(c1)[s0.completed.len() as int] == id);
                } else if s0.active.contains(j) {
                    let m = choose|m: int| 0 <= m < s0.active.len() && s0.active[m] == j;
                    if m < k {
                        assert(a1[m] == j);
                    } else {
                        assert(m != k);
                        assert(a1[m - 1] == j);
                    }
                } else {
                    assert(ids_of(s0.completed).contains(j));
                    let m = choose|m: int|
                        0 <= m < ids_of(s0.completed).len() && ids_of(s0.completed)[m] == j;
                    assert(ids_of(c1)[m] == j);
                }
            }
        }
    }

    /// Whether every task has been admitted and has completed.
    pub fn is_finished(&self) -> (r: bool)
        requires
            self.wf(),
        ensures
            r == self@.finished(),
    {
        self.next == self.total && self.active.len() == 0
    }

    /// Ends the collection when its deadline elapses: the outcomes if every task
    /// has completed, and otherwise `Timeout`, with every collected outcome dropped.
    pub fn close_at_deadline(self) -> (r: Result<Vec<(usize, T)>, Timeout>)
        requires
            self.wf(),
        ensures
            self@.finished() <==> r is Ok,
            r matches Ok(v) ==> v@ == self@.completed,
    {
        if self.next == self.total && self.active.len() == 0 {
            Ok(self.completed)
        } else {
            Err(Timeout)
        }
    }

    /// The ids of the running tasks.
    pub fn active(&self) -> (r: &Vec<usize>)
        ensures
            r@ == self@.active,
    {
        &self.active
    }

    /// The outcomes collected so far, in completion order.
    pub fn into_completed(self) -> (r: Vec<(usize, T)>)
        ensures
            r@ == self@.completed,
    {
        self.completed
    }
}

/// Whatever state a runner is in, no more than `limit` of its tasks are running.
pub proof fn lemma_window_within_limit<T>(s: RunnerState<T>)
    requires
        s.wf(),
    ensures
        s.active.len() <= s.limit,
{
}

/// A finished runner holds one outcome for each task and no other: the ids of its
/// outcomes, in completion order, are a permutation of `0..total`.
pub proof fn lemma_finished_collects_each_task_once<T>(s: RunnerState<T>)
    requires
        s.wf(),
        s.finished(),
    ensures
        s.completed.len() == s.total,
        ids_of(s.completed).no_duplicates(),
        forall|i: int| 0 <= i < s.completed.len() ==> (#[trigger] s.completed[i]).0 < s.total,
        forall|j: usize| j < s.total ==> #[trigger] ids_of(s.completed).contains(j),
{
    assert forall|j: usize| j < s.total implies #[trigger] ids_of(s.completed).contains(j) by {
        assert(!s.active.contains(j));
    }
}

/// While some task has not completed, the runner is not finished, so a deadline
/// that elapses then ends the collection with `Timeout` and hands out nothing.
pub proof fn lemma_pending_task_means_timeout<T>(s: RunnerState<T>, j: usize)
    requires
        s.wf(),
        j < s.total,
        !ids_of(s.completed).contains(j),
    ensures
        !s.finished(),
{
    if s.finished() {
        lemma_finished_collects_each_task_once(s);
    }
}

/// A runner given no tasks is finished from the start, with nothing collected.
pub proof fn lemma_no_tasks_finishes_at_once<T>(s: RunnerState<T>)
    requires
        s.wf(),
        s.total == 0,
    ensures
        s.finished(),
        s.completed.len() == 0,
{
}

} // verus!
