//! Cutting a sample sequence into steps.
//!
//! A step is a maximal run of consecutive samples that share one key, the
//! pair of cycle index and step index. Steps are found by contiguous
//! repetition alone: a key that comes back later in the file opens a new step.
//! Steps are numbered from 1 in the order in which they occur.

use vstd::prelude::*;
use crate::counter::{
    as_ints, deltas, lemma_deltas_telescope, previous, representable, span_sum,
};
use crate::error::Error;

verus! {

/// The pair of cycle index and step index that a sample carries.
pub type Key = (i64, i64);

/// Where a sample stands among the steps.
#[derive(Debug, Clone, Copy, PartialEq, Eq, Structural)]
pub struct Membership {
    /// The number of the sample's step, counted from 1.
    pub step_number: u64,
    /// The index of the first sample of that step.
    pub first: usize,
    /// The index of the last sample of that step.
    pub last: usize,
}

/// Whether sample `i` is the first of a step.
pub open spec fn starts_step(keys: Seq<Key>, i: int) -> bool {
    i <= 0 || keys[i] != keys[i - 1]
}

/// Whether sample `i` is the last of a step.
pub open spec fn ends_step(keys: Seq<Key>, i: int) -> bool {
    i + 1 >= keys.len() || keys[i + 1] != keys[i]
}

/// The index of the first sample of the step that holds sample `i`.
pub open spec fn step_start(keys: Seq<Key>, i: int) -> int
    decreases i,
{
    if starts_step(keys, i) {
        i
    } else {
        step_start(keys, i - 1)
    }
}

/// The index of the last sample of the step that holds sample `i`.
pub open spec fn step_end(keys: Seq<Key>, i: int) -> int
    decreases keys.len() - i,
{
    if ends_step(keys, i) {
        i
    } else {
        step_end(keys, i + 1)
    }
}

/// The number of the step that holds sample `i`: one more than the number of
/// steps that were opened after the first sample, up to and including `i`.
pub open spec fn step_number(keys: Seq<Key>, i: int) -> int
    decreases i,
{
    if i <= 0 {
        1
    } else if starts_step(keys, i) {
        step_number(keys, i - 1) + 1
    } else {
        step_number(keys, i - 1)
    }
}

/// How many steps the sequence holds.
pub open spec fn step_count(keys: Seq<Key>) -> int {
    if keys.len() == 0 {
        0
    } else {
        step_number(keys, keys.len() - 1)
    }
}

/// The running total of `values` within the step of sample `i`, up to and
/// including sample `i` itself.
pub open spec fn step_total(keys: Seq<Key>, values: Seq<int>, i: int) -> int {
    span_sum(values, step_start(keys, i), i + 1)
}

/// Whether `m` says where sample `i` stands.
pub open spec fn is_membership(m: Membership, keys: Seq<Key>, i: int) -> bool {
    &&& m.step_number == step_number(keys, i)
    &&& m.first == step_start(keys, i)
    &&& m.last == step_end(keys, i)
}

/// A step's number never exceeds the count of samples seen so far.
proof fn lemma_step_number_bounds(keys: Seq<Key>, i: int)
    requires
        0 <= i,
    ensures
        1 <= step_number(keys, i) <= i + 1,
    decreases i,
{
    if i > 0 {
        lemma_step_number_bounds(keys, i - 1);
    }
}

/// A step starts at or before each of its samples.
proof fn lemma_step_start_bounds(keys: Seq<Key>, i: int)
    requires
        0 <= i,
    ensures
        0 <= step_start(keys, i) <= i,
    decreases i,
{
    if !starts_step(keys, i) {
        lemma_step_start_bounds(keys, i - 1);
    }
}

/// Finds, for every sample, the step it belongs to.
///
/// The result has one entry per sample, in sample order.
pub fn segment(keys: &Vec<Key>) -> (members: Vec<Membership>)
    ensures
        members@.len() == keys@.len(),
        forall|i: int| 0 <= i < keys@.len() ==> is_membership(#[trigger] members@[i], keys@, i),
{
    let n: usize = keys.len();
    let mut members: Vec<Membership> = Vec::new();
    let mut number: u64 = 0;
    let mut first: usize = 0;
    let mut i: usize = 0;
    while i < n
        invariant
            n == keys@.len(),
            i <= n,
            members@.len() == i,
            i > 0 ==> number == step_number(keys@, i - 1),
            i > 0 ==> first == step_start(keys@, i - 1),
            i == 0 ==> number == 0,
            forall|j: int|
                0 <= j < i ==> {
                    &&& (#[trigger] members@[j]).step_number == step_number(keys@, j)
                    &&& members@[j].first == step_start(keys@, j)
                },
        decreases n - i,
    {
        let opens: bool = i == 0 || keys[i].0 != keys[i - 1].0 || keys[i].1 != keys[i - 1].1;
        assert(opens == starts_step(keys@, i as int));
        if opens {
            proof {
                lemma_step_number_bounds(keys@, i as int);
            }
            number = number + 1;
            first = i;
        }
        members.push(Membership { step_number: number, first, last: i });
        i += 1;
    }
    let mut last: usize = 0;
    let mut k: usize = n;
    while k > 0
        invariant
            n == keys@.len(),
            k <= n,
            members@.len() == n,
            k < n ==> last == step_end(keys@, k as int),
            forall|j: int|
                0 <= j < n ==> {
                    &&& (#[trigger] members@[j]).step_number == step_number(keys@, j)
                    &&& members@[j].first == step_start(keys@, j)
                },
            forall|j: int| k <= j < n ==> (#[trigger] members@[j]).last == step_end(keys@, j),
        decreases k,
    {
        k -= 1;
        let closes: bool = k + 1 == n || keys[k + 1].0 != keys[k].0 || keys[k + 1].1 != keys[k].1;
        assert(closes == ends_step(keys@, k as int));
        if closes {
            last = k;
        }
        let m: Membership = members[k];
        members.set(k, Membership { step_number: m.step_number, first: m.first, last });
    }
    members
}

/// Adds up `values` step by step: each sample gets the sum of the values of
/// its step up to and including its own, so the sum starts afresh with every
/// step.
///
/// Fails if and only if one of these running totals is not representable.
pub fn step_totals(keys: &Vec<Key>, values: &Vec<i64>) -> (totals: Result<Vec<i64>, Error>)
    requires
        values@.len() == keys@.len(),
    ensures
        match totals {
            Ok(t) => {
                &&& t@.len() == keys@.len()
                &&& forall|i: int|
                    0 <= i < keys@.len() ==> #[trigger] t@[i] == step_total(
                        keys@,
                        as_ints(values@),
                        i,
                    )
            },
            Err(e) => {
                &&& e == Error::MalformedCounterSequence
                &&& exists|i: int|
                    0 <= i < keys@.len() && !representable(
                        #[trigger] step_total(keys@, as_ints(values@), i),
                    )
            },
        },
{
    let n: usize = keys.len();
    let mut totals: Vec<i64> = Vec::new();
    let mut running: i64 = 0;
    let mut i: usize = 0;
    while i < n
        invariant
            n == keys@.len(),
            n == values@.len(),
            i <= n,
            totals@.len() == i,
            i > 0 ==> running == step_total(keys@, as_ints(values@), i - 1),
            forall|j: int|
                0 <= j < i ==> #[trigger] totals@[j] == step_total(keys@, as_ints(values@), j),
        decreases n - i,
    {
        let opens: bool = i == 0 || keys[i].0 != keys[i - 1].0 || keys[i].1 != keys[i - 1].1;
        assert(opens == starts_step(keys@, i as int));
        if opens {
            running = 0;
        }
        proof {
            let v = as_ints(values@);
            let a = step_start(keys@, i as int);
            lemma_step_start_bounds(keys@, i as int);
            assert(span_sum(v, a, i + 1) == span_sum(v, a, i as int) + v[i as int]);
            if opens {
                assert(span_sum(v, a, i as int) == 0);
            }
        }
        match running.checked_add(values[i]) {
            Some(sum) => {
                running = sum;
            },
            None => {
                assert(!representable(step_total(keys@, as_ints(values@), i as int)));
                return Err(Error::MalformedCounterSequence);
            },
        }
        totals.push(running);
        i += 1;
    }
    Ok(totals)
}

/// A step ends at or after each of its samples, within the sequence.
proof fn lemma_step_end_bounds(keys: Seq<Key>, i: int)
    requires
        0 <= i < keys.len(),
    ensures
        i <= step_end(keys, i) < keys.len(),
    decreases keys.len() - i,
{
    if !ends_step(keys, i) {
        lemma_step_end_bounds(keys, i + 1);
    }
}

/// Between the start of a step and one of its samples no other step starts,
/// and all samples there carry one key and have that same start.
proof fn lemma_back_to_start(keys: Seq<Key>, i: int, j: int)
    requires
        0 <= i,
        step_start(keys, i) <= j <= i,
    ensures
        keys[j] == keys[i],
        step_start(keys, j) == step_start(keys, i),
        step_start(keys, i) < j ==> !starts_step(keys, j),
    decreases i,
{
    if !starts_step(keys, i) && j < i {
        lemma_back_to_start(keys, i - 1, j);
    }
}

/// Between a sample and the end of its step all samples carry one key and
/// have that same end and the same start.
proof fn lemma_on_to_end(keys: Seq<Key>, i: int, j: int)
    requires
        0 <= i <= j <= step_end(keys, i),
        i < keys.len(),
    ensures
        keys[j] == keys[i],
        step_end(keys, j) == step_end(keys, i),
        step_start(keys, j) == step_start(keys, i),
        step_number(keys, j) == step_number(keys, i),
    decreases keys.len() - i,
{
    if !ends_step(keys, i) && i < j {
        lemma_on_to_end(keys, i + 1, j);
    }
}

/// Step numbers never fall from one sample to a later one, and rise by no
/// more than the distance between the two.
proof fn lemma_numbers_rise_slowly(keys: Seq<Key>, i: int, j: int)
    requires
        0 <= i <= j,
    ensures
        step_number(keys, i) <= step_number(keys, j) <= step_number(keys, i) + (j - i),
    decreases j - i,
{
    if i < j {
        lemma_numbers_rise_slowly(keys, i, j - 1);
    }
}

/// Every sample of a step lies between the step's first and last sample, the
/// first opens the step and the last closes it, and all samples between the
/// two carry the key of the step: a step is never empty, and it is a
/// maximal run of one key.
pub proof fn lemma_step_is_maximal_run(keys: Seq<Key>, i: int)
    requires
        0 <= i < keys.len(),
    ensures
        0 <= step_start(keys, i) <= i <= step_end(keys, i) < keys.len(),
        starts_step(keys, step_start(keys, i)),
        ends_step(keys, step_end(keys, i)),
        forall|j: int|
            step_start(keys, i) <= j <= step_end(keys, i) ==> {
                &&& #[trigger] keys[j] == keys[i]
                &&& step_start(keys, j) == step_start(keys, i)
                &&& step_end(keys, j) == step_end(keys, i)
                &&& step_number(keys, j) == step_number(keys, i)
            },
{
    lemma_step_start_bounds(keys, i);
    lemma_step_end_bounds(keys, i);
    let a = step_start(keys, i);
    let b = step_end(keys, i);
    lemma_starts_at_start(keys, i);
    lemma_ends_at_end(keys, i);
    assert forall|j: int| a <= j <= b implies {
        &&& #[trigger] keys[j] == keys[i]
        &&& step_start(keys, j) == a
        &&& step_end(keys, j) == b
        &&& step_number(keys, j) == step_number(keys, i)
    } by {
        if j <= i {
            lemma_back_to_start(keys, i, j);
            lemma_reaches_end(keys, j, i);
            lemma_on_to_end(keys, j, i);
        } else {
            lemma_on_to_end(keys, i, j);
        }
    }
}

/// The first sample of a step opens it.
proof fn lemma_starts_at_start(keys: Seq<Key>, i: int)
    requires
        0 <= i,
    ensures
        starts_step(keys, step_start(keys, i)),
    decreases i,
{
    if !starts_step(keys, i) {
        lemma_starts_at_start(keys, i - 1);
    }
}

/// The last sample of a step closes it.
proof fn lemma_ends_at_end(keys: Seq<Key>, i: int)
    requires
        0 <= i < keys.len(),
    ensures
        ends_step(keys, step_end(keys, i)),
    decreases keys.len() - i,
{
    if !ends_step(keys, i) {
        lemma_ends_at_end(keys, i + 1);
    }
}

/// Step numbers follow the order of the samples: the first sample has number
/// 1, no number exceeds the step count, a later sample never has a smaller
/// number, and two samples have the same number exactly when they lie in the
/// same step. So a key that returns after another step gets a new number.
pub proof fn lemma_step_numbers_ordered(keys: Seq<Key>, i: int, j: int)
    requires
        0 <= i <= j < keys.len(),
    ensures
        step_number(keys, 0) == 1,
        1 <= step_number(keys, i) <= step_number(keys, j) <= step_count(keys),
        step_number(keys, i) == step_number(keys, j) <==> step_start(keys, i) == step_start(
            keys,
            j,
        ),
{
    lemma_step_number_bounds(keys, i);
    lemma_numbers_rise_slowly(keys, i, j);
    lemma_numbers_rise_slowly(keys, j, keys.len() - 1);
    lemma_step_start_bounds(keys, j);
    let a = step_start(keys, j);
    if a <= i {
        lemma_back_to_start(keys, j, i);
        lemma_step_end_bounds(keys, i);
        lemma_reaches_end(keys, i, j);
        lemma_on_to_end(keys, i, j);
    } else {
        lemma_step_start_bounds(keys, i);
        lemma_starts_at_start(keys, j);
        lemma_numbers_rise_slowly(keys, i, a - 1);
        lemma_numbers_rise_slowly(keys, a, j);
    }
}

/// A step reaches at least as far as any sample that it starts before or at.
proof fn lemma_reaches_end(keys: Seq<Key>, i: int, j: int)
    requires
        0 <= i <= j < keys.len(),
        step_start(keys, j) <= i,
    ensures
        j <= step_end(keys, i),
    decreases j - i,
{
    if i < j {
        lemma_back_to_start(keys, j, i + 1);
        lemma_reaches_end(keys, i + 1, j);
    } else {
        lemma_step_end_bounds(keys, i);
    }
}

/// Step numbers leave no gap: every number from 1 to the step count is the
/// number of some sample, namely of one that opens a step.
pub proof fn lemma_step_numbers_dense(keys: Seq<Key>, number: int) -> (i: int)
    requires
        1 <= number <= step_count(keys),
    ensures
        0 <= i < keys.len(),
        starts_step(keys, i),
        step_number(keys, i) == number,
{
    lemma_number_reached(keys, keys.len() - 1, number)
}

/// Every number up to that of sample `j` is reached at or before `j`.
proof fn lemma_number_reached(keys: Seq<Key>, j: int, number: int) -> (i: int)
    requires
        0 <= j,
        1 <= number <= step_number(keys, j),
    ensures
        0 <= i <= j,
        starts_step(keys, i),
        step_number(keys, i) == number,
    decreases j,
{
    if starts_step(keys, j) && step_number(keys, j) == number {
        j
    } else {
        lemma_number_reached(keys, j - 1, number)
    }
}

/// The indices below `n` at which a step starts.
pub open spec fn starts_below(keys: Seq<Key>, n: int) -> Set<int> {
    Set::new(|i: int| 0 <= i < n && starts_step(keys, i))
}

/// The step count is the number of samples that open a step, that is the
/// number of maximal runs of one key.
pub proof fn lemma_step_count_is_number_of_runs(keys: Seq<Key>)
    ensures
        starts_below(keys, keys.len() as int).finite(),
        starts_below(keys, keys.len() as int).len() == step_count(keys),
{
    lemma_starts_counted(keys, keys.len() as int);
}

/// The steps opened below `n` are as many as the number of sample `n - 1`.
proof fn lemma_starts_counted(keys: Seq<Key>, n: int)
    requires
        0 <= n,
    ensures
        starts_below(keys, n).finite(),
        starts_below(keys, n).len() == if n == 0 {
            0
        } else {
            step_number(keys, n - 1)
        },
    decreases n,
{
    if n == 0 {
        assert(starts_below(keys, n) =~= Set::<int>::empty());
    } else {
        lemma_starts_counted(keys, n - 1);
        let before = starts_below(keys, n - 1);
        if starts_step(keys, n - 1) {
            assert(starts_below(keys, n) =~= before.insert(n - 1));
        } else {
            assert(starts_below(keys, n) =~= before);
        }
    }
}

/// A running total starts afresh with every step: at the first sample of a
/// step it is that sample's own value, whatever came before.
pub proof fn lemma_step_total_restarts(keys: Seq<Key>, values: Seq<int>, i: int)
    requires
        0 <= i < keys.len(),
        starts_step(keys, i),
    ensures
        step_total(keys, values, i) == values[i],
{
    assert(span_sum(values, i, i + 1) == span_sum(values, i, i) + values[i]);
}

/// Within a step a running total grows by each sample's own value.
pub proof fn lemma_step_total_grows(keys: Seq<Key>, values: Seq<int>, i: int)
    requires
        0 < i < keys.len(),
        !starts_step(keys, i),
    ensures
        step_total(keys, values, i) == step_total(keys, values, i - 1) + values[i],
{
    lemma_step_start_bounds(keys, i);
}


/// Nothing leaks from one step into the next: the running total of a
/// counter's deltas within a step is what the counter has risen by since
/// the last sample before the step, however the counter ran before that.
pub proof fn lemma_step_total_is_rise_within_step(keys: Seq<Key>, counter: Seq<i64>, i: int)
    requires
        0 <= i < keys.len(),
        counter.len() == keys.len(),
    ensures
        step_total(keys, deltas(counter), i) == counter[i] - previous(
            counter,
            step_start(keys, i),
        ),
{
    lemma_step_start_bounds(keys, i);
    lemma_deltas_telescope(counter, step_start(keys, i), i + 1);
}

/// While a counter does not fall within a step, its running total within
/// the step does not fall either.
pub proof fn lemma_step_total_is_monotonic(keys: Seq<Key>, counter: Seq<i64>, i: int)
    requires
        0 < i < keys.len(),
        counter.len() == keys.len(),
        !starts_step(keys, i),
        counter[i - 1] <= counter[i],
    ensures
        step_total(keys, deltas(counter), i - 1) <= step_total(keys, deltas(counter), i),
{
    lemma_step_total_grows(keys, deltas(counter), i);
}

} // verus!
