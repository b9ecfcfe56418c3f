use vstd::prelude::*;

use crate::runner::{ids_of, RunnerState};

verus! {

/// The sum of a sequence of integers.
pub open spec fn sum_of(s: Seq<i32>) -> int
    decreases s.len(),
{
    if s.len() == 0 {
        0
    } else {
        sum_of(s.drop_last()) + s.last()
    }
}

/// The consecutive groups of `k` elements of `s`, the last one possibly shorter.
pub open spec fn chunks_of<A>(s: Seq<A>, k: nat) -> Seq<Seq<A>>
    decreases s.len(),
{
    if s.len() == 0 || k == 0 {
        Seq::empty()
    } else if s.len() <= k {
        seq![s]
    } else {
        seq![s.take(k as int)] + chunks_of(s.skip(k as int), k)
    }
}

/// The views of a sequence of vectors.
pub open spec fn views_of<A>(vs: Seq<Vec<A>>) -> Seq<Seq<A>> {
    vs.map_values(|v: Vec<A>| v@)
}

/// Groups consecutive elements of `items` into groups of `k`, in order; the last
/// group holds what is left and may be shorter.
pub fn chunk(items: &Vec<i32>, k: usize) -> (groups: Vec<Vec<i32>>)
    requires
        k >= 1,
    ensures
        views_of(groups@) == chunks_of(items@, k as nat),
{
    let n = items.len();
    let mut groups: Vec<Vec<i32>> = Vec::new();
    let mut pos: usize = 0;
    proof {
        assert(items@.skip(0) =~= items@);
        assert(views_of(groups@) =~= Seq::<Seq<i32>>::empty());
    }
    while pos < n
        invariant
            n == items@.len(),
            k >= 1,
            pos <= n,
            views_of(groups@) + chunks_of(items@.skip(pos as int), k as nat) == chunks_of(
                items@,
                k as nat,
            ),
        decreases n - pos,
    {
        let end: usize = if n - pos <= k {
            n
        } else {
            pos + k
        };
        let mut group: Vec<i32> = Vec::new();
        let mut j: usize = pos;
        while j < end
            invariant
                pos <= j <= end <= n,
                n == items@.len(),
                group@ == items@.subrange(pos as int, j as int),
            decreases end - j,
        {
            group.push(items[j]);
            j = j + 1;
            proof {
                assert(group@ =~= items@.subrange(pos as int, j as int));
            }
        }
        let ghost rest = items@.skip(pos as int);
        let ghost g = group@;
        let ghost gv0 = views_of(groups@);
        groups.push(group);
        proof {
            assert(views_of(groups@) =~= gv0.push(g));
            if n - pos <= k {
                assert(g =~= rest);
                assert(chunks_of(rest, k as nat) == seq![rest]);
                assert(items@.skip(end as int) =~= Seq::<i32>::empty());
                assert(chunks_of(items@.skip(end as int), k as nat) =~= Seq::<Seq<i32>>::empty());
            } else {
                assert(g =~= rest.take(k as int));
                assert(rest.skip(k as int) =~= items@.skip(end as int));
            }
            assert(views_of(groups@) + chunks_of(items@.skip(end as int), k as nat)
                =~= gv0 + chunks_of(rest, k as nat));
        }
        pos = end;
    }
    proof {
        assert(items@.skip(n as int) =~= Seq::<i32>::empty());
        assert(views_of(groups@) + Seq::<Seq<i32>>::empty() =~= views_of(groups@));
    }
    groups
}

/// Grouping by `k` keeps every element, in order, and makes `⌈len / k⌉` groups:
/// each of exactly `k` elements but the last, which holds between 1 and `k`.
pub proof fn lemma_chunks_shape<A>(s: Seq<A>, k: nat)
    requires
        k >= 1,
    ensures
        chunks_of(s, k).flatten() == s,
        chunks_of(s, k).len() == (s.len() + k - 1) / (k as int),
        forall|i: int| 0 <= i < chunks_of(s, k).len() - 1 ==> (#[trigger] chunks_of(s, k)[i]).len() == k,
        chunks_of(s, k).len() > 0 ==> 1 <= chunks_of(s, k).last().len() <= k,
    decreases s.len(),
{
    let c = chunks_of(s, k);
    if s.len() == 0 {
        assert(s =~= Seq::<A>::empty());
        vstd::arithmetic::div_mod::lemma_basic_div(k - 1, k as int);
    } else if s.len() <= k {
        assert(c.first() == s);
        assert(c.drop_first() =~= Seq::<Seq<A>>::empty());
        assert(s + Seq::<A>::empty() =~= s);
        assert(c.drop_first().flatten() =~= Seq::<A>::empty());
        assert(c.flatten() == c.first() + c.drop_first().flatten());
        vstd::arithmetic::div_mod::lemma_basic_div(s.len() - 1, k as int);
        vstd::arithmetic::div_mod::lemma_div_plus_one(s.len() - 1, k as int);
    } else {
        let t = s.skip(k as int);
        let rest = chunks_of(t, k);
        lemma_chunks_shape(t, k);
        assert(c.first() == s.take(k as int));
        assert(c.drop_first() =~= rest);
        assert(s.take(k as int) + t =~= s);
        assert(c.flatten() == c.first() + c.drop_first().flatten());
        vstd::arithmetic::div_mod::lemma_div_plus_one(t.len() + k - 1, k as int);
        assert forall|i: int| 0 <= i < c.len() - 1 implies (#[trigger] c[i]).len() == k by {
            if i > 0 {
                assert(c[i] == rest[i - 1]);
            }
        }
        assert(c.last() == rest.last());
    }
}

/// Adds every element of `items` to `init`, in order.
pub fn fold_sum(items: &Vec<i32>, init: i32) -> (r: i64)
    requires
        items@.len() < 0x1_0000_0000,
    ensures
        r == init + sum_of(items@),
{
    let mut acc: i64 = init as i64;
    let mut i: usize = 0;
    while i < items.len()
        invariant
            i <= items@.len() < 0x1_0000_0000,
            acc == init + sum_of(items@.take(i as int)),
            -(i + 1) * 0x8000_0000 <= acc <= (i + 1) * 0x8000_0000,
        decreases items@.len() - i,
    {
        proof {
            assert(items@.take(i + 1).drop_last() =~= items@.take(i as int));
            assert(items@.take(i + 1).last() == items@[i as int]);
        }
        acc = acc + items[i] as i64;
        i = i + 1;
    }
    proof {
        assert(items@.take(i as int) =~= items@);
    }
    acc
}

proof fn lemma_sum_remove(s: Seq<i32>, j: int)
    requires
        0 <= j < s.len(),
    ensures
        sum_of(s) == s[j] + sum_of(s.remove(j)),
    decreases s.len(),
{
    if j == s.len() - 1 {
        assert(s.remove(j) =~= s.drop_last());
    } else {
        lemma_sum_remove(s.drop_last(), j);
        assert(s.remove(j).drop_last() =~= s.drop_last().remove(j));
        assert(s.remove(j).last() == s.last());
    }
}

/// The sum does not depend on the order of the elements: two sequences that hold
/// the same elements, each as often, have the same sum.
pub proof fn lemma_sum_ignores_order(a: Seq<i32>, b: Seq<i32>)
    requires
        a.to_multiset() == b.to_multiset(),
    ensures
        sum_of(a) == sum_of(b),
    decreases a.len(),
{
    broadcast use vstd::seq_lib::group_to_multiset_ensures;

    if a.len() == 0 {
        assert(b.to_multiset().len() == 0);
        assert(b.len() == 0);
    } else {
        let x = a.last();
        let init = a.drop_last();
        assert(a =~= init.push(x));
        assert(a.to_multiset() =~= init.to_multiset().insert(x));
        assert(b.to_multiset().count(x) > 0);
        assert(b.contains(x));
        let j = choose|j: int| 0 <= j < b.len() && b[j] == x;
        assert(b.remove(j).to_multiset() =~= b.to_multiset().remove(x));
        assert(init.to_multiset() =~= init.to_multiset().insert(x).remove(x));
        lemma_sum_ignores_order(init, b.remove(j));
        lemma_sum_remove(b, j);
    }
}

/// The values of a sequence of `(id, value)` outcomes, in order.
pub open spec fn values_of(outcomes: Seq<(usize, i32)>) -> Seq<i32> {
    outcomes.map_values(|p: (usize, i32)| p.1)
}

proof fn lemma_reindex_keeps_elements(ids: Seq<usize>, inputs: Seq<i32>)
    requires
        ids.len() == inputs.len() <= usize::MAX,
        ids.no_duplicates(),
        forall|i: int| 0 <= i < ids.len() ==> ids[i] < inputs.len(),
        forall|j: usize| j < inputs.len() ==> #[trigger] ids.contains(j),
    ensures
        ids.map_values(|j: usize| inputs[j as int]).to_multiset() == inputs.to_multiset(),
    decreases inputs.len(),
{
    broadcast use vstd::seq_lib::group_to_multiset_ensures;

    let n = inputs.len();
    let picked = ids.map_values(|j: usize| inputs[j as int]);
    if n == 0 {
        assert(picked =~= Seq::<i32>::empty());
        assert(inputs =~= Seq::<i32>::empty());
    } else {
        let top = (n - 1) as usize;
        assert(ids.contains(top));
        let p = choose|p: int| 0 <= p < ids.len() && ids[p] == top;
        let ids2 = ids.remove(p);
        let inputs2 = inputs.drop_last();
        assert forall|i: int| 0 <= i < ids2.len() implies ids2[i] < inputs2.len() by {
            let o = if i < p { i } else { i + 1 };
            assert(ids2[i] == ids[o]);
        }
        assert forall|i: int, k: int|
            0 <= i < ids2.len() && 0 <= k < ids2.len() && i != k implies ids2[i] != ids2[k] by {
            let oi = if i < p { i } else { i + 1 };
            let ok = if k < p { k } else { k + 1 };
            assert(ids2[i] == ids[oi]);
            assert(ids2[k] == ids[ok]);
        }
        assert forall|j: usize| j < inputs2.len() implies #[trigger] ids2.contains(j) by {
            assert(ids.contains(j));
            let q = choose|q: int| 0 <= q < ids.len() && ids[q] == j;
            assert(q != p);
            if q < p {
                assert(ids2[q] == j);
            } else {
                assert(ids2[q - 1] == j);
            }
        }
        lemma_reindex_keeps_elements(ids2, inputs2);
        let picked2 = ids2.map_values(|j: usize| inputs2[j as int]);
        assert(picked.remove(p) =~= picked2);
        assert(picked.remove(p).to_multiset() =~= picked.to_multiset().remove(picked[p]));
        assert(picked[p] == inputs[n - 1]);
        assert(inputs =~= inputs2.push(inputs[n - 1]));
        assert(inputs.to_multiset() =~= inputs2.to_multiset().insert(inputs[n - 1]));
        assert(picked.to_multiset().count(inputs[n - 1]) > 0) by {
            assert(picked.contains(picked[p]));
        }
        assert(picked.to_multiset() =~= picked.to_multiset().remove(inputs[n - 1]).insert(
            inputs[n - 1],
        ));
    }
}

/// Folding the outcomes of a finished bounded run, in the order they completed,
/// gives the same sum as folding the task inputs in submission order, when each
/// task's outcome is its own input.
pub proof fn lemma_fold_after_bounded_map(s: RunnerState<i32>, inputs: Seq<i32>)
    requires
        s.wf(),
        s.finished(),
        inputs.len() == s.total,
        forall|i: int|
            0 <= i < s.completed.len() ==> (#[trigger] s.completed[i]).1 == inputs[s.completed[i].0 as int],
    ensures
        sum_of(values_of(s.completed)) == sum_of(inputs),
{
    crate::runner::lemma_finished_collects_each_task_once(s);
    let ids = ids_of(s.completed);
    assert forall|i: int| 0 <= i < ids.len() implies ids[i] < inputs.len() by {
        assert(ids[i] == s.completed[i].0);
    }
    lemma_reindex_keeps_elements(ids, inputs);
    assert(ids.map_values(|j: usize| inputs[j as int]) =~= values_of(s.completed));
    lemma_sum_ignores_order(values_of(s.completed), inputs);
}

/// The square of every element, in order.
pub fn squares(items: &Vec<i32>) -> (r: Vec<i64>)
    ensures
        r@.len() == items@.len(),
        forall|i: int| 0 <= i < items@.len() ==> r@[i] == items@[i] * items@[i],
{
    let mut r: Vec<i64> = Vec::new();
    let mut i: usize = 0;
    while i < items.len()
        invariant
            i <= items@.len(),
            r@.len() == i,
            forall|m: int| 0 <= m < i ==> r@[m] == items@[m] * items@[m],
        decreases items@.len() - i,
    {
        let x = items[i] as i64;
        proof {
            assert(-0x8000_0000 <= x <= 0x7fff_ffff);
            assert(x * x <= 0x4000_0000_0000_0000) by (nonlinear_arith)
                requires
                    -0x8000_0000 <= x <= 0x7fff_ffff,
            ;
            assert(x * x >= 0) by (nonlinear_arith);
        }
        r.push(x * x);
        i = i + 1;
    }
    r
}

/// Whether an integer is even.
pub open spec fn is_even(x: i64) -> bool {
    x % 2 == 0
}

/// The even elements of `items`, in order.
pub fn keep_even(items: &Vec<i64>) -> (r: Vec<i64>)
    ensures
        r@ == items@.filter(|x: i64| is_even(x)),
{
    let mut r: Vec<i64> = Vec::new();
    let mut i: usize = 0;
    proof {
        assert(items@.take(0) =~= Seq::<i64>::empty());
        reveal(Seq::filter);
    }
    while i < items.len()
        invariant
            i <= items@.len(),
            r@ == items@.take(i as int).filter(|x: i64| is_even(x)),
        decreases items@.len() - i,
    {
        proof {
            assert(items@.take(i + 1).drop_last() =~= items@.take(i as int));
            assert(items@.take(i + 1).last() == items@[i as int]);
            reveal(Seq::filter);
        }
        if items[i] % 2 == 0 {
            r.push(items[i]);
        }
        i = i + 1;
    }
    proof {
        assert(items@.take(i as int) =~= items@);
    }
    r
}

} // verus!
