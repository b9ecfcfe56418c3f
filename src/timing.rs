use vstd::prelude::*;

verus! {

/// Of tasks that take `durations[i]` each and start together, the one that
/// completes first: the shortest, and of equal ones the earliest submitted.
pub fn first_to_finish(durations: &Vec<u64>) -> (r: Option<usize>)
    ensures
        r is None <==> durations@.len() == 0,
        r matches Some(w) ==> {
            &&& w < durations@.len()
            &&& forall|j: int| 0 <= j < durations@.len() ==> durations@[w as int] <= durations@[j]
            &&& forall|j: int| 0 <= j < w ==> durations@[j] > durations@[w as int]
        },
{
    if durations.len() == 0 {
        return None;
    }
    let mut best: usize = 0;
    let mut i: usize = 1;
    while i < durations.len()
        invariant
            1 <= i <= durations@.len(),
            best < i,
            forall|j: int| 0 <= j < i ==> durations@[best as int] <= durations@[j],
            forall|j: int| 0 <= j < best ==> durations@[j] > durations@[best as int],
        decreases durations@.len() - i,
    {
        if durations[i] < durations[best] {
            best = i;
        }
        i = i + 1;
    }
    Some(best)
}

/// The delay of task `i` in a staggered workload: 100 ms, 150 ms or 200 ms by
/// the remainder of `i` divided by three.
pub fn staggered_delay_ms(i: u32) -> (r: u64)
    ensures
        r == 100 + (i % 3) * 50,
{
    100 + (i % 3) as u64 * 50
}

/// The delay of task `i` in a workload that grows by 100 ms per task.
pub fn stepped_delay_ms(i: u32) -> (r: u64)
    ensures
        r == i * 100,
{
    i as u64 * 100
}

} // verus!
