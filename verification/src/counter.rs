//! Recovering per-sample deltas from a cumulative counter.
//!
//! A cycler reports charge and energy as running totals. The delta of a
//! sample is what its total has gained over the sample before it; the first
//! sample is measured against zero. A counter that falls (the cycler has
//! reset it) gives a negative delta, which is kept as it is.

use vstd::prelude::*;
use crate::error::Error;

verus! {

/// Whether `x` can be held in the 64 signed bits that a quantity is given.
pub open spec fn representable(x: int) -> bool {
    i64::MIN <= x <= i64::MAX
}

/// The counter's value just before sample `i`: zero before the first sample.
pub open spec fn previous(counter: Seq<i64>, i: int) -> int {
    if i <= 0 {
        0
    } else {
        counter[i - 1] as int
    }
}

/// What the counter gained at sample `i`.
pub open spec fn delta(counter: Seq<i64>, i: int) -> int {
    counter[i] - previous(counter, i)
}

/// The deltas of all samples of a counter.
pub open spec fn deltas(counter: Seq<i64>) -> Seq<int> {
    Seq::new(counter.len(), |i: int| delta(counter, i))
}

/// The values of a column as mathematical integers.
pub open spec fn as_ints(column: Seq<i64>) -> Seq<int> {
    Seq::new(column.len(), |i: int| column[i] as int)
}

/// Whether every delta of the counter is representable.
pub open spec fn decodable(counter: Seq<i64>) -> bool {
    forall|i: int| 0 <= i < counter.len() ==> representable(#[trigger] delta(counter, i))
}

/// The sum of `values[from]`, ..., `values[to - 1]`.
pub open spec fn span_sum(values: Seq<int>, from: int, to: int) -> int
    decreases to - from,
{
    if to <= from {
        0
    } else {
        span_sum(values, from, to - 1) + values[to - 1]
    }
}

/// Decodes a cumulative counter into its deltas.
///
/// Fails if and only if some delta is not representable.
pub fn decode(counter: &Vec<i64>) -> (decoded: Result<Vec<i64>, Error>)
    ensures
        match decoded {
            Ok(d) => {
                &&& decodable(counter@)
                &&& d@.len() == counter@.len()
                &&& forall|i: int| 0 <= i < d@.len() ==> #[trigger] d@[i] == delta(counter@, i)
            },
            Err(e) => !decodable(counter@) && e == Error::MalformedCounterSequence,
        },
{
    let mut d: Vec<i64> = Vec::new();
    let mut before: i64 = 0;
    let mut i: usize = 0;
    while i < counter.len()
        invariant
            i <= counter.len(),
            d.len() == i,
            before == previous(counter@, i as int),
            forall|j: int| 0 <= j < i ==> d@[j] == #[trigger] delta(counter@, j),
        decreases counter.len() - i,
    {
        match counter[i].checked_sub(before) {
            Some(gain) => {
                d.push(gain);
            },
            None => {
                assert(!representable(delta(counter@, i as int)));
                return Err(Error::MalformedCounterSequence);
            },
        }
        before = counter[i];
        i += 1;
    }
    Ok(d)
}

/// The deltas over any stretch of samples add up to what the counter rose by
/// over that stretch, for every stretch and whether or not the counter is
/// monotonic.
///
/// With `from == 1` this is `c[to - 1] - c[0]` for the deltas after the
/// first; with `from == 0` the deltas up to a sample add up to the counter's
/// value at it.
pub proof fn lemma_deltas_telescope(counter: Seq<i64>, from: int, to: int)
    requires
        0 <= from <= to <= counter.len(),
    ensures
        span_sum(deltas(counter), from, to) == previous(counter, to) - previous(counter, from),
    decreases to - from,
{
    if from < to {
        lemma_deltas_telescope(counter, from, to - 1);
    }
}

} // verus!
