//! The log of a Keyence displacement sensor, resampled to one row per second.
//!
//! The sensor logs at its own, irregular rate. Its readings are first
//! brought down to whole seconds; where several fall into one second, the
//! first of them in the order of the log stands for that second. The result
//! has a row for every second from the earliest to the latest reading. A
//! second without a reading takes the value of the next second that has one:
//! the gaps are filled backward in time, from the later reading.

use vstd::prelude::*;
use crate::clock::{second_of, whole_seconds};
use crate::error::{Error, Stream};

verus! {

/// One reading of the sensor.
#[derive(Debug, Clone, Copy, PartialEq, Eq, Structural)]
pub struct Reading {
    /// Milliseconds since the epoch, in UTC.
    pub timestamp_millis: i64,
    pub distance: i64,
}

/// One row of the resampled log.
#[derive(Debug, Clone, Copy, PartialEq, Eq, Structural)]
pub struct SensorRow {
    /// Seconds since the epoch, in UTC.
    pub timestamp: i64,
    pub distance: i64,
}

/// The second into which reading `i` falls.
pub open spec fn second_at(readings: Seq<Reading>, i: int) -> int {
    second_of(readings[i].timestamp_millis as int)
}

/// The earliest second among the first `n` readings, for `n >= 1`.
pub open spec fn earliest_among(readings: Seq<Reading>, n: int) -> int
    decreases n,
{
    if n <= 1 {
        second_at(readings, 0)
    } else if second_at(readings, n - 1) < earliest_among(readings, n - 1) {
        second_at(readings, n - 1)
    } else {
        earliest_among(readings, n - 1)
    }
}

/// The latest second among the first `n` readings, for `n >= 1`.
pub open spec fn latest_among(readings: Seq<Reading>, n: int) -> int
    decreases n,
{
    if n <= 1 {
        second_at(readings, 0)
    } else if second_at(readings, n - 1) > latest_among(readings, n - 1) {
        second_at(readings, n - 1)
    } else {
        latest_among(readings, n - 1)
    }
}

/// The earliest second of the log, which must not be empty.
pub open spec fn earliest(readings: Seq<Reading>) -> int {
    earliest_among(readings, readings.len() as int)
}

/// The latest second of the log, which must not be empty.
pub open spec fn latest(readings: Seq<Reading>) -> int {
    latest_among(readings, readings.len() as int)
}

/// Whether the log spans a range: it holds at least two distinct seconds.
pub open spec fn has_range(readings: Seq<Reading>) -> bool {
    readings.len() > 0 && earliest(readings) < latest(readings)
}

/// The index of the first among the first `n` readings that falls into
/// second `t`, if there is one.
pub open spec fn first_among(readings: Seq<Reading>, t: int, n: int) -> Option<int>
    decreases n,
{
    if n <= 0 {
        None
    } else {
        match first_among(readings, t, n - 1) {
            Some(i) => Some(i),
            None => if second_at(readings, n - 1) == t {
                Some(n - 1)
            } else {
                None
            },
        }
    }
}

/// The value that stands for second `t`, if a reading falls into it: that of
/// the first such reading.
pub open spec fn observed(readings: Seq<Reading>, t: int) -> Option<i64> {
    match first_among(readings, t, readings.len() as int) {
        Some(i) => Some(readings[i].distance),
        None => None,
    }
}

/// The value of second `t` after the gaps are filled: its own if a reading
/// falls into it, else that of the next second into which one falls.
pub open spec fn filled(readings: Seq<Reading>, t: int) -> i64
    decreases latest(readings) - t,
{
    match observed(readings, t) {
        Some(distance) => distance,
        None => if t < latest(readings) {
            filled(readings, t + 1)
        } else {
            0
        },
    }
}

/// Whether `rows` is the log resampled: a row for second `earliest`, one for
/// the next second, and so on up to `latest`, each with the filled value of
/// its second.
pub open spec fn is_resampled(rows: Seq<SensorRow>, readings: Seq<Reading>) -> bool {
    &&& rows.len() == latest(readings) - earliest(readings) + 1
    &&& forall|k: int|
        0 <= k < rows.len() ==> {
            &&& (#[trigger] rows[k]).timestamp == earliest(readings) + k
            &&& rows[k].distance == filled(readings, earliest(readings) + k)
        }
}

/// The log resampled, as a function of the readings.
pub open spec fn resampled(readings: Seq<Reading>) -> Seq<SensorRow> {
    Seq::new(
        (latest(readings) - earliest(readings) + 1) as nat,
        |k: int|
            SensorRow {
                timestamp: (earliest(readings) + k) as i64,
                distance: filled(readings, earliest(readings) + k),
            },
    )
}

/// The earliest and latest seconds bound the seconds of all readings.
proof fn lemma_extremes_bound(readings: Seq<Reading>, n: int, i: int)
    requires
        0 <= i < n,
    ensures
        earliest_among(readings, n) <= second_at(readings, i) <= latest_among(readings, n),
    decreases n,
{
    if n > 1 && i < n - 1 {
        lemma_extremes_bound(readings, n - 1, i);
    }
}

/// A reading falls into the earliest second, and one into the latest.
proof fn lemma_extremes_attained(readings: Seq<Reading>, n: int) -> (at: (int, int))
    requires
        1 <= n,
    ensures
        0 <= at.0 < n,
        0 <= at.1 < n,
        second_at(readings, at.0) == earliest_among(readings, n),
        second_at(readings, at.1) == latest_among(readings, n),
    decreases n,
{
    if n <= 1 {
        (0, 0)
    } else {
        let before = lemma_extremes_attained(readings, n - 1);
        let low = if second_at(readings, n - 1) < earliest_among(readings, n - 1) {
            n - 1
        } else {
            before.0
        };
        let high = if second_at(readings, n - 1) > latest_among(readings, n - 1) {
            n - 1
        } else {
            before.1
        };
        (low, high)
    }
}

/// `first_among` finds the least index below `n` whose reading falls into
/// second `t`, and finds none only if there is none.
proof fn lemma_first_among(readings: Seq<Reading>, t: int, n: int)
    requires
        0 <= n,
    ensures
        match first_among(readings, t, n) {
            Some(i) => {
                &&& 0 <= i < n
                &&& second_at(readings, i) == t
                &&& forall|j: int| 0 <= j < i ==> second_at(readings, j) != t
            },
            None => forall|j: int| 0 <= j < n ==> second_at(readings, j) != t,
        },
    decreases n,
{
    if n > 0 {
        lemma_first_among(readings, t, n - 1);
    }
}

/// Resamples the log to one row per second, from the second of its earliest
/// reading to that of its latest, filling the gaps backward.
///
/// Fails if and only if the log holds fewer than two distinct seconds.
pub fn parse(readings: &Vec<Reading>) -> (rows: Result<Vec<SensorRow>, Error>)
    ensures
        match rows {
            Ok(r) => has_range(readings@) && is_resampled(r@, readings@),
            Err(e) => !has_range(readings@) && e == Error::ResampleRangeEmpty(Stream::Sensor),
        },
{
    let n: usize = readings.len();
    if n == 0 {
        return Err(Error::ResampleRangeEmpty(Stream::Sensor));
    }
    let mut low: i64 = whole_seconds(readings[0].timestamp_millis);
    let mut high: i64 = low;
    let mut i: usize = 1;
    while i < n
        invariant
            n == readings@.len(),
            1 <= i <= n,
            low == earliest_among(readings@, i as int),
            high == latest_among(readings@, i as int),
        decreases n - i,
    {
        let second: i64 = whole_seconds(readings[i].timestamp_millis);
        if second < low {
            low = second;
        }
        if second > high {
            high = second;
        }
        i += 1;
    }
    if low == high {
        return Err(Error::ResampleRangeEmpty(Stream::Sensor));
    }
    let mut seen: Vec<Option<i64>> = Vec::new();
    let mut rows: Vec<SensorRow> = Vec::new();
    let mut second: i64 = low;
    while second < high
        invariant
            low <= second <= high,
            seen@.len() == second - low,
            rows@.len() == second - low,
            forall|j: int| 0 <= j < seen@.len() ==> #[trigger] seen@[j] == None::<i64>,
            forall|j: int| 0 <= j < rows@.len() ==> (#[trigger] rows@[j]).timestamp == low + j,
        decreases high - second,
    {
        seen.push(None);
        rows.push(SensorRow { timestamp: second, distance: 0 });
        second = second + 1;
    }
    seen.push(None);
    rows.push(SensorRow { timestamp: high, distance: 0 });
    let count: usize = rows.len();
    let mut i: usize = 0;
    while i < n
        invariant
            n == readings@.len(),
            i <= n,
            low == earliest(readings@),
            high == latest(readings@),
            count == high - low + 1,
            seen@.len() == count,
            forall|j: int|
                0 <= j < count ==> #[trigger] seen@[j] == match first_among(
                    readings@,
                    low + j,
                    i as int,
                ) {
                    Some(at) => Some(readings@[at].distance),
                    None => None,
                },
        decreases n - i,
    {
        let second: i64 = whole_seconds(readings[i].timestamp_millis);
        proof {
            lemma_extremes_bound(readings@, n as int, i as int);
        }
        let slot: usize = ((second as i128) - (low as i128)) as usize;
        if seen[slot].is_none() {
            seen.set(slot, Some(readings[i].distance));
        }
        i += 1;
    }
    proof {
        lemma_extremes_attained(readings@, n as int);
        lemma_first_among(readings@, high as int, n as int);
    }
    let mut carried: i64 = 0;
    let mut k: usize = count;
    while k > 0
        invariant
            n == readings@.len(),
            low == earliest(readings@),
            high == latest(readings@),
            count == high - low + 1,
            k <= count,
            seen@.len() == count,
            rows@.len() == count,
            observed(readings@, high as int) is Some,
            forall|j: int| 0 <= j < count ==> #[trigger] seen@[j] == observed(readings@, low + j),
            forall|j: int| 0 <= j < count ==> (#[trigger] rows@[j]).timestamp == low + j,
            forall|j: int|
                k <= j < count ==> (#[trigger] rows@[j]).distance == filled(readings@, low + j),
            k < count ==> carried == filled(readings@, low + k),
        decreases k,
    {
        k -= 1;
        match seen[k] {
            Some(distance) => {
                carried = distance;
            },
            None => {},
        }
        let timestamp: i64 = rows[k].timestamp;
        rows.set(k, SensorRow { timestamp, distance: carried });
    }
    Ok(rows)
}

/// The range of the log is that of its readings: every reading falls
/// between the earliest and the latest second, and a reading falls into each
/// of the two. The indices of two such readings are returned.
pub proof fn lemma_range_is_tight(readings: Seq<Reading>) -> (at: (int, int))
    requires
        readings.len() > 0,
    ensures
        forall|i: int|
            0 <= i < readings.len() ==> earliest(readings) <= #[trigger] second_at(readings, i)
                <= latest(readings),
        0 <= at.0 < readings.len(),
        0 <= at.1 < readings.len(),
        second_at(readings, at.0) == earliest(readings),
        second_at(readings, at.1) == latest(readings),
{
    assert forall|i: int| 0 <= i < readings.len() implies earliest(readings) <= #[trigger] second_at(
        readings,
        i,
    ) <= latest(readings) by {
        lemma_extremes_bound(readings, readings.len() as int, i);
    }
    lemma_extremes_attained(readings, readings.len() as int)
}

/// The value that stands for a second is that of the first reading, in the
/// order of the log, that falls into it; a second has none only if no
/// reading falls into it.
pub proof fn lemma_observed_is_first_reading(readings: Seq<Reading>, t: int)
    ensures
        match first_among(readings, t, readings.len() as int) {
            Some(i) => {
                &&& 0 <= i < readings.len()
                &&& second_at(readings, i) == t
                &&& forall|j: int| 0 <= j < i ==> second_at(readings, j) != t
                &&& observed(readings, t) == Some(readings[i].distance)
            },
            None => {
                &&& forall|j: int| 0 <= j < readings.len() ==> second_at(readings, j) != t
                &&& observed(readings, t) is None
            },
        },
{
    lemma_first_among(readings, t, readings.len() as int);
}

/// Gaps are filled backward: the filled value of a second is the value that
/// stands for the next second, from that second on, into which a reading
/// falls. That second is returned.
pub proof fn lemma_filled_from_next_reading(readings: Seq<Reading>, t: int) -> (next: int)
    requires
        readings.len() > 0,
        t <= latest(readings),
    ensures
        t <= next <= latest(readings),
        observed(readings, next) == Some(filled(readings, t)),
        forall|s: int| t <= s < next ==> observed(readings, s) is None,
    decreases latest(readings) - t,
{
    if observed(readings, t) is Some {
        t
    } else if t < latest(readings) {
        lemma_filled_from_next_reading(readings, t + 1)
    } else {
        lemma_extremes_attained(readings, readings.len() as int);
        lemma_first_among(readings, t, readings.len() as int);
        t
    }
}

/// The resampled log has exactly one row for every second from the earliest
/// to the latest, in rising order, and no row for any other second.
pub proof fn lemma_one_row_per_second(rows: Seq<SensorRow>, readings: Seq<Reading>)
    requires
        readings.len() > 0,
        is_resampled(rows, readings),
    ensures
        forall|t: int|
            earliest(readings) <= t <= latest(readings) ==> (#[trigger] rows[t - earliest(
                readings,
            )]).timestamp == t,
        forall|k: int|
            0 <= k < rows.len() ==> earliest(readings) <= (#[trigger] rows[k]).timestamp <= latest(
                readings,
            ),
        forall|k: int, l: int|
            0 <= k < rows.len() && 0 <= l < rows.len() && (#[trigger] rows[k]).timestamp == (
            #[trigger] rows[l]).timestamp ==> k == l,
{
}

/// The readings determine the resampled log: any two results of resampling
/// the same readings are equal, row for row.
pub proof fn lemma_resampled_is_unique(rows: Seq<SensorRow>, readings: Seq<Reading>)
    requires
        readings.len() > 0,
        is_resampled(rows, readings),
    ensures
        rows == resampled(readings),
{
    lemma_range_is_tight(readings);
    assert(rows =~= resampled(readings));
}

} // verus!
