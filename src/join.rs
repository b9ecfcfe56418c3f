use vstd::prelude::*;

verus! {

/// The slots of a sequence of `(slot, value)` pairs.
pub open spec fn slots_of<T>(values: Seq<(usize, T)>) -> Seq<usize> {
    values.map_values(|p: (usize, T)| p.0)
}

/// What a fail-fast join yields for outcomes that arrive in the order given:
/// the first error to arrive, or, when none fails, every value with its slot.
pub open spec fn join_result<T, E>(arrivals: Seq<(usize, Result<T, E>)>) -> Result<
    Seq<(usize, T)>,
    E,
>
    decreases arrivals.len(),
{
    if arrivals.len() == 0 {
        Ok(Seq::empty())
    } else {
        let (slot, last) = arrivals.last();
        match join_result(arrivals.drop_last()) {
            Err(e) => Err(e),
            Ok(vs) => match last {
                Ok(v) => Ok(vs.push((slot, v))),
                Err(e) => Err(e),
            },
        }
    }
}

/// The outcomes of tasks `0..n`, each exactly once, in some order of arrival.
pub open spec fn covers_slots<X>(arrivals: Seq<(usize, X)>, n: nat) -> bool {
    &&& arrivals.len() == n
    &&& slots_of(arrivals).no_duplicates()
    &&& forall|i: int| 0 <= i < arrivals.len() ==> (#[trigger] arrivals[i]).0 < n
}

/// Abstract state of a fail-fast join.
pub ghost struct JoinState<T, E> {
    pub arity: nat,
    pub values: Seq<(usize, T)>,
    pub failure: Option<(usize, E)>,
}

impl<T, E> JoinState<T, E> {
    pub open spec fn wf(self) -> bool {
        &&& self.values.len() <= self.arity
        &&& slots_of(self.values).no_duplicates()
        &&& forall|i: int| 0 <= i < self.values.len() ==> (#[trigger] self.values[i]).0 < self.arity
    }

    /// The join has an answer: a task failed, or every task succeeded.
    pub open spec fn settled(self) -> bool {
        self.failure is Some || self.values.len() == self.arity
    }
}

/// A join of a fixed number of tasks that fails with the first error to arrive
/// and otherwise yields every value once all have succeeded.
pub struct FailFastJoin<T, E> {
    arity: usize,
    values: Vec<(usize, T)>,
    failure: Option<(usize, E)>,
}

impl<T, E> View for FailFastJoin<T, E> {
    type V = JoinState<T, E>;

    closed spec fn view(&self) -> JoinState<T, E> {
        JoinState { arity: self.arity as nat, values: self.values@, failure: self.failure }
    }
}

impl<T, E> FailFastJoin<T, E> {
    pub open spec fn wf(&self) -> bool {
        self@.wf()
    }

    /// A join of the tasks `0..arity`, none of which has reported yet.
    pub fn new(arity: usize) -> (r: Self)
        ensures
            r.wf(),
            r@.arity == arity,
            r@.values.len() == 0,
            r@.failure is None,
    {
        let r = FailFastJoin { arity, values: Vec::new(), failure: None };
        assert(slots_of(r@.values) =~= Seq::<usize>::empty());
        r
    }

    /// Whether the join has its answer.
    pub fn is_settled(&self) -> (r: bool)
        ensures
            r == self@.settled(),
    {
        self.failure.is_some() || self.values.len() == self.arity
    }

    /// Records the outcome of task `slot`, which has not reported before.
    pub fn record(&mut self, slot: usize, outcome: Result<T, E>)
        requires
            old(self).wf(),
            !old(self)@.settled(),
            slot < old(self)@.arity,
            !slots_of(old(self)@.values).contains(slot),
        ensures
            final(self).wf(),
            final(self)@.arity == old(self)@.arity,
            match outcome {
                Ok(v) => final(self)@.values == old(self)@.values.push((slot, v))
                    && final(self)@.failure is None,
                Err(e) => final(self)@.values == old(self)@.values && final(self)@.failure
                    == Some((slot, e)),
            },
    {
        let ghost v0 = self.values@;
        match outcome {
            Ok(v) => {
                self.values.push((slot, v));
                proof {
                    assert(slots_of(self.values@) =~= slots_of(v0).push(slot));
                }
            },
            Err(e) => {
                self.failure = Some((slot, e));
            },
        }
    }

    /// The join's answer: the failure, or every value in the order of arrival.
    pub fn into_result(self) -> (r: Result<Vec<(usize, T)>, E>)
        requires
            self@.settled(),
        ensures
            match self@.failure {
                Some((_, e)) => r == Err::<Vec<(usize, T)>, E>(e),
                None => r matches Ok(v) && v@ == self@.values,
            },
    {
        match self.failure {
            Some((_, e)) => Err(e),
            None => Ok(self.values),
        }
    }
}

proof fn lemma_failure_persists<T, E>(arrivals: Seq<(usize, Result<T, E>)>, n: int)
    requires
        0 <= n <= arrivals.len(),
        join_result(arrivals.take(n)) is Err,
    ensures
        join_result(arrivals) == join_result(arrivals.take(n)),
    decreases arrivals.len() - n,
{
    if n < arrivals.len() {
        assert(arrivals.take(n + 1).drop_last() =~= arrivals.take(n));
        lemma_failure_persists(arrivals, n + 1);
    } else {
        assert(arrivals.take(n) =~= arrivals);
    }
}

/// Feeds the outcomes of tasks `0..arrivals.len()`, in their order of arrival,
/// to a fail-fast join, and stops at the first failure.
pub fn try_join_all<T, E>(arrivals: Vec<(usize, Result<T, E>)>) -> (r: Result<
    Vec<(usize, T)>,
    E,
>)
    requires
        covers_slots(arrivals@, arrivals@.len()),
    ensures
        match join_result(arrivals@) {
            Ok(vs) => r matches Ok(v) && v@ == vs,
            Err(e) => r == Err::<Vec<(usize, T)>, E>(e),
        },
{
    let ghost all = arrivals@;
    let n = arrivals.len();
    let mut rest = arrivals;
    let mut join: FailFastJoin<T, E> = FailFastJoin::new(n);
    let mut i: usize = 0;
    proof {
        assert(all.take(0) =~= Seq::<(usize, Result<T, E>)>::empty());
        assert(join@.values =~= Seq::<(usize, T)>::empty());
        assert(slots_of(join@.values) =~= slots_of(all.take(0)));
    }
    while i < n && !join.is_settled()
        invariant
            covers_slots(all, n as nat),
            i <= n,
            rest@ == all.subrange(i as int, n as int),
            join.wf(),
            join@.arity == n,
            join@.failure is None ==> join_result(all.take(i as int)) == Ok::<
                Seq<(usize, T)>,
                E,
            >(join@.values),
            join@.failure matches Some((_, e)) ==> join_result(all.take(i as int)) == Err::<
                Seq<(usize, T)>,
                E,
            >(e),
            join@.failure is None ==> join@.values.len() == i,
            join@.failure is None ==> slots_of(join@.values) =~= slots_of(all.take(i as int)),
        decreases n - i,
    {
        let (slot, outcome) = rest.remove(0);
        proof {
            assert(all[i as int] == (slot, outcome));
            assert(all.take(i + 1).drop_last() =~= all.take(i as int));
            assert(all.take(i + 1).last() == (slot, outcome));
            assert(!slots_of(join@.values).contains(slot)) by {
                if slots_of(join@.values).contains(slot) {
                    let k = choose|k: int|
                        0 <= k < slots_of(join@.values).len() && slots_of(join@.values)[k]
                            == slot;
                    assert(slots_of(all.take(i as int))[k] == slot);
                    assert(slots_of(all)[k] == slots_of(all)[i as int]);
                }
            }
            assert(all[i as int].0 < n);
        }
        let ghost s0 = join@;
        join.record(slot, outcome);
        i = i + 1;
        proof {
            assert(rest@ =~= all.subrange(i as int, n as int));
            if join@.failure is None {
                assert forall|k: int| 0 <= k < i implies slots_of(join@.values)[k] == slots_of(
                    all.take(i as int),
                )[k] by {
                    if k < i - 1 {
                        assert(slots_of(s0.values)[k] == slots_of(all.take(i - 1))[k]);
                        assert(join@.values[k] == s0.values[k]);
                    }
                }
                assert(slots_of(join@.values) =~= slots_of(all.take(i as int)));
            }
        }
    }
    proof {
        if join@.failure is Some {
            lemma_failure_persists(all, i as int);
        } else {
            assert(i == n);
            assert(all.take(n as int) =~= all);
        }
    }
    join.into_result()
}

/// A join that fails yields one of its tasks' errors.
pub proof fn lemma_join_error_comes_from_a_task<T, E>(arrivals: Seq<(usize, Result<T, E>)>)
    ensures
        join_result(arrivals) matches Err(e) ==> exists|i: int|
            0 <= i < arrivals.len() && (#[trigger] arrivals[i]).1 == Err::<T, E>(e),
    decreases arrivals.len(),
{
    if arrivals.len() > 0 {
        let init = arrivals.drop_last();
        lemma_join_error_comes_from_a_task(init);
        match join_result(init) {
            Err(e) => {
                let i = choose|i: int|
                    0 <= i < init.len() && (#[trigger] init[i]).1 == Err::<T, E>(e);
                assert(arrivals[i] == init[i]);
            },
            Ok(_) => {
                assert(arrivals[arrivals.len() - 1] == arrivals.last());
            },
        }
    }
}

/// A join in which every task succeeds yields every value, in the order of arrival.
pub proof fn lemma_join_all_succeed<T, E>(arrivals: Seq<(usize, Result<T, E>)>)
    requires
        forall|i: int| 0 <= i < arrivals.len() ==> (#[trigger] arrivals[i]).1 is Ok,
    ensures
        join_result(arrivals) matches Ok(vs) && vs.len() == arrivals.len() && forall|i: int|
            0 <= i < arrivals.len() ==> Ok::<T, E>((#[trigger] vs[i]).1) == arrivals[i].1
                && vs[i].0 == arrivals[i].0,
    decreases arrivals.len(),
{
    if arrivals.len() > 0 {
        let init = arrivals.drop_last();
        assert forall|i: int| 0 <= i < init.len() implies (#[trigger] init[i]).1 is Ok by {
            assert(init[i] == arrivals[i]);
        }
        lemma_join_all_succeed(init);
        assert(arrivals.last() == arrivals[arrivals.len() - 1]);
    }
}

/// A join in which exactly one task fails yields that task's error.
pub proof fn lemma_join_single_failure<T, E>(arrivals: Seq<(usize, Result<T, E>)>, p: int, e: E)
    requires
        0 <= p < arrivals.len(),
        arrivals[p].1 == Err::<T, E>(e),
        forall|i: int| 0 <= i < arrivals.len() && i != p ==> (#[trigger] arrivals[i]).1 is Ok,
    ensures
        join_result(arrivals) == Err::<Seq<(usize, T)>, E>(e),
{
    let pre = arrivals.take(p);
    assert forall|i: int| 0 <= i < pre.len() implies (#[trigger] pre[i]).1 is Ok by {
        assert(pre[i] == arrivals[i]);
    }
    lemma_join_all_succeed(pre);
    assert(arrivals.take(p + 1).drop_last() =~= pre);
    assert(arrivals.take(p + 1).last() == arrivals[p]);
    lemma_failure_persists(arrivals, p + 1);
}

} // verus!
