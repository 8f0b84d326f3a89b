//! Joining the cycler's rows with the resampled sensor log on the timestamp.
//!
//! The join is an inner join on equal timestamps: a cycler row appears once
//! for every sensor row of its second, and not at all if there is none; a
//! sensor row whose second no cycler row has is dropped. The output follows
//! the order of the cycler rows and, for one cycler row, that of the sensor
//! rows.

use vstd::prelude::*;
use crate::arbin::{canonical, lemma_canonical_is_unique, well_formed, Row, Sample};
use crate::error::{Error, Stream};
use crate::keyence::{
    has_range, is_resampled, lemma_resampled_is_unique, resampled, Reading, SensorRow,
};

verus! {

/// A canonical row together with the sensor's distance at its second.
#[derive(Debug, Clone, Copy, PartialEq, Eq, Structural)]
pub struct AlignedRow {
    pub row: Row,
    pub distance: i64,
}

/// The aligned row made of a cycler row and a sensor row.
pub open spec fn paired(row: Row, sensor_row: SensorRow) -> AlignedRow {
    AlignedRow { row, distance: sensor_row.distance }
}

/// The aligned rows that `row` gives with the first `m` sensor rows.
pub open spec fn matches_among(row: Row, sensor: Seq<SensorRow>, m: int) -> Seq<AlignedRow>
    decreases m,
{
    if m <= 0 {
        Seq::empty()
    } else if sensor[m - 1].timestamp == row.timestamp {
        matches_among(row, sensor, m - 1).push(paired(row, sensor[m - 1]))
    } else {
        matches_among(row, sensor, m - 1)
    }
}

/// The aligned rows that the first `n` cycler rows give with the sensor rows.
pub open spec fn aligned_among(cycler: Seq<Row>, sensor: Seq<SensorRow>, n: int) -> Seq<
    AlignedRow,
>
    decreases n,
{
    if n <= 0 {
        Seq::empty()
    } else {
        aligned_among(cycler, sensor, n - 1) + matches_among(
            cycler[n - 1],
            sensor,
            sensor.len() as int,
        )
    }
}

/// The inner join of the cycler rows and the sensor rows on the timestamp.
pub open spec fn aligned(cycler: Seq<Row>, sensor: Seq<SensorRow>) -> Seq<AlignedRow> {
    aligned_among(cycler, sensor, cycler.len() as int)
}

/// Whether the sensor rows stand one second apart, in rising order, as in a
/// resampled log.
pub open spec fn by_the_second(sensor: Seq<SensorRow>) -> bool {
    forall|j: int|
        0 <= j < sensor.len() ==> (#[trigger] sensor[j]).timestamp == sensor[0].timestamp + j
}

/// Among rows that stand one second apart, a cycler row finds its match by
/// its distance in seconds from the first of them.
proof fn lemma_match_by_offset(row: Row, sensor: Seq<SensorRow>, m: int)
    requires
        0 <= m <= sensor.len(),
        by_the_second(sensor),
    ensures
        matches_among(row, sensor, m) == if 0 <= row.timestamp - sensor[0].timestamp < m {
            seq![paired(row, sensor[row.timestamp - sensor[0].timestamp])]
        } else {
            Seq::<AlignedRow>::empty()
        },
    decreases m,
{
    if m > 0 {
        lemma_match_by_offset(row, sensor, m - 1);
        let offset = row.timestamp - sensor[0].timestamp;
        assert(sensor[m - 1].timestamp == sensor[0].timestamp + (m - 1));
        if offset == m - 1 {
            assert(matches_among(row, sensor, m) =~= seq![paired(row, sensor[offset])]);
        }
    }
}

/// Tells whether the sensor rows stand one second apart, in rising order.
fn stands_by_the_second(sensor: &Vec<SensorRow>) -> (regular: bool)
    ensures
        regular == by_the_second(sensor@),
{
    let mut j: usize = 1;
    while j < sensor.len()
        invariant
            1 <= j,
            forall|k: int|
                0 <= k < j && k < sensor@.len() ==> (#[trigger] sensor@[k]).timestamp
                    == sensor@[0].timestamp + k,
        decreases sensor.len() - j,
    {
        let expected: i128 = (sensor[0].timestamp as i128) + (j as i128);
        if (sensor[j].timestamp as i128) != expected {
            return false;
        }
        j += 1;
    }
    true
}

/// Joins with sensor rows that stand one second apart: each cycler row looks
/// its second up directly.
fn align_by_offset(cycler: &Vec<Row>, sensor: &Vec<SensorRow>) -> (out: Vec<AlignedRow>)
    requires
        sensor@.len() > 0,
        by_the_second(sensor@),
    ensures
        out@ == aligned(cycler@, sensor@),
{
    let first: i64 = sensor[0].timestamp;
    let mut out: Vec<AlignedRow> = Vec::new();
    let mut i: usize = 0;
    while i < cycler.len()
        invariant
            i <= cycler@.len(),
            sensor@.len() > 0,
            by_the_second(sensor@),
            first == sensor@[0].timestamp,
            out@ == aligned_among(cycler@, sensor@, i as int),
        decreases cycler.len() - i,
    {
        let row: Row = cycler[i];
        let offset: i128 = (row.timestamp as i128) - (first as i128);
        proof {
            lemma_match_by_offset(row, sensor@, sensor@.len() as int);
        }
        if 0 <= offset && offset < (sensor.len() as i128) {
            out.push(AlignedRow { row, distance: sensor[offset as usize].distance });
        }
        i += 1;
    }
    out
}

/// Joins with sensor rows in any order, by comparing every pair.
fn align_by_comparison(cycler: &Vec<Row>, sensor: &Vec<SensorRow>) -> (out: Vec<AlignedRow>)
    ensures
        out@ == aligned(cycler@, sensor@),
{
    let mut out: Vec<AlignedRow> = Vec::new();
    let mut i: usize = 0;
    while i < cycler.len()
        invariant
            i <= cycler@.len(),
            out@ == aligned_among(cycler@, sensor@, i as int),
        decreases cycler.len() - i,
    {
        let row: Row = cycler[i];
        let mut j: usize = 0;
        while j < sensor.len()
            invariant
                i < cycler@.len(),
                row == cycler@[i as int],
                j <= sensor@.len(),
                out@ == aligned_among(cycler@, sensor@, i as int) + matches_among(
                    row,
                    sensor@,
                    j as int,
                ),
            decreases sensor.len() - j,
        {
            if sensor[j].timestamp == row.timestamp {
                out.push(AlignedRow { row, distance: sensor[j].distance });
            }
            j += 1;
        }
        i += 1;
    }
    out
}

/// Joins the cycler rows with the sensor rows on equal timestamps.
///
/// An empty result is no failure: the two streams then share no second.
/// Sensor rows that stand one second apart, as resampling leaves them, are
/// joined in one pass over the cycler rows.
pub fn align(cycler: &Vec<Row>, sensor: &Vec<SensorRow>) -> (out: Vec<AlignedRow>)
    ensures
        out@ == aligned(cycler@, sensor@),
{
    if sensor.len() > 0 && stands_by_the_second(sensor) {
        align_by_offset(cycler, sensor)
    } else {
        align_by_comparison(cycler, sensor)
    }
}

/// What a run on the two streams gives, as a function of the streams and the
/// channel: the failure of the sensor log if it has no range, else that of
/// the cycler's counters if they are malformed, else the join of the
/// canonical rows with the resampled log.
pub open spec fn stitched(readings: Seq<Reading>, samples: Seq<Sample>, channel: u32) -> Result<
    Seq<AlignedRow>,
    Error,
> {
    if !has_range(readings) {
        Err(Error::ResampleRangeEmpty(Stream::Sensor))
    } else if !well_formed(samples) {
        Err(Error::MalformedCounterSequence)
    } else {
        Ok(aligned(canonical(samples, channel), resampled(readings)))
    }
}

/// The outcome of a run with its rows as a sequence.
pub open spec fn outcome(out: Result<Vec<AlignedRow>, Error>) -> Result<Seq<AlignedRow>, Error> {
    match out {
        Ok(rows) => Ok(rows@),
        Err(e) => Err(e),
    }
}

/// Runs the whole pipeline: resamples the sensor log, turns the cycler's
/// samples into canonical rows and joins the two on the timestamp.
///
/// The outcome depends on the arguments alone.
pub fn arbin_keyence(readings: &Vec<Reading>, samples: &Vec<Sample>, channel: u32) -> (out: Result<
    Vec<AlignedRow>,
    Error,
>)
    ensures
        outcome(out) == stitched(readings@, samples@, channel),
{
    let sensor: Vec<SensorRow> = match crate::keyence::parse(readings) {
        Ok(rows) => rows,
        Err(e) => {
            return Err(e);
        },
    };
    let cycler: Vec<Row> = match crate::arbin::parse(samples, channel) {
        Ok(rows) => rows,
        Err(e) => {
            return Err(e);
        },
    };
    proof {
        lemma_resampled_is_unique(sensor@, readings@);
        lemma_canonical_is_unique(cycler@, samples@, channel);
    }
    Ok(align(&cycler, &sensor))
}

/// Every aligned row that one cycler row gives comes from a sensor row of
/// the same second. The index of that sensor row is returned.
proof fn lemma_match_has_source(row: Row, sensor: Seq<SensorRow>, m: int, k: int) -> (j: int)
    requires
        0 <= m <= sensor.len(),
        0 <= k < matches_among(row, sensor, m).len(),
    ensures
        0 <= j < m,
        sensor[j].timestamp == row.timestamp,
        matches_among(row, sensor, m)[k] == paired(row, sensor[j]),
    decreases m,
{
    if sensor[m - 1].timestamp == row.timestamp && k == matches_among(row, sensor, m - 1).len() {
        m - 1
    } else {
        lemma_match_has_source(row, sensor, m - 1, k)
    }
}

/// Every sensor row of a cycler row's second gives an aligned row. Its index
/// among the matches is returned.
proof fn lemma_source_has_match(row: Row, sensor: Seq<SensorRow>, m: int, j: int) -> (k: int)
    requires
        0 <= j < m <= sensor.len(),
        sensor[j].timestamp == row.timestamp,
    ensures
        0 <= k < matches_among(row, sensor, m).len(),
        matches_among(row, sensor, m)[k] == paired(row, sensor[j]),
    decreases m,
{
    if j == m - 1 {
        matches_among(row, sensor, m - 1).len() as int
    } else {
        lemma_source_has_match(row, sensor, m - 1, j)
    }
}

/// Whether rows `i` and `j` of the two streams share their second.
pub open spec fn same_second(cycler: Seq<Row>, sensor: Seq<SensorRow>, i: int, j: int) -> bool {
    &&& 0 <= i < cycler.len()
    &&& 0 <= j < sensor.len()
    &&& cycler[i].timestamp == sensor[j].timestamp
}

/// Nothing survives the join but pairs of equal timestamps: every aligned
/// row is made of a cycler row and a sensor row that share their second.
/// The indices of the two are returned.
pub proof fn lemma_aligned_rows_match(cycler: Seq<Row>, sensor: Seq<SensorRow>, k: int) -> (at: (
    int,
    int,
))
    requires
        0 <= k < aligned(cycler, sensor).len(),
    ensures
        same_second(cycler, sensor, at.0, at.1),
        aligned(cycler, sensor)[k] == paired(cycler[at.0], sensor[at.1]),
{
    lemma_aligned_source(cycler, sensor, cycler.len() as int, k)
}

/// As `lemma_aligned_rows_match`, for the first `n` cycler rows.
proof fn lemma_aligned_source(cycler: Seq<Row>, sensor: Seq<SensorRow>, n: int, k: int) -> (at: (
    int,
    int,
))
    requires
        0 <= n <= cycler.len(),
        0 <= k < aligned_among(cycler, sensor, n).len(),
    ensures
        0 <= at.0 < n,
        same_second(cycler, sensor, at.0, at.1),
        aligned_among(cycler, sensor, n)[k] == paired(cycler[at.0], sensor[at.1]),
    decreases n,
{
    let before = aligned_among(cycler, sensor, n - 1);
    if k < before.len() {
        lemma_aligned_source(cycler, sensor, n - 1, k)
    } else {
        let j = lemma_match_has_source(
            cycler[n - 1],
            sensor,
            sensor.len() as int,
            k - before.len(),
        );
        (n - 1, j)
    }
}

/// Every pair of equal timestamps survives the join: a cycler row and a
/// sensor row that share their second give an aligned row, so a cycler row
/// is repeated for each sensor row of its second and several cycler rows of
/// one second all appear. The index of the aligned row is returned.
pub proof fn lemma_matching_rows_are_aligned(
    cycler: Seq<Row>,
    sensor: Seq<SensorRow>,
    i: int,
    j: int,
) -> (k: int)
    requires
        same_second(cycler, sensor, i, j),
    ensures
        0 <= k < aligned(cycler, sensor).len(),
        aligned(cycler, sensor)[k] == paired(cycler[i], sensor[j]),
{
    lemma_aligned_target(cycler, sensor, cycler.len() as int, i, j)
}

/// As `lemma_matching_rows_are_aligned`, for the first `n` cycler rows.
proof fn lemma_aligned_target(
    cycler: Seq<Row>,
    sensor: Seq<SensorRow>,
    n: int,
    i: int,
    j: int,
) -> (k: int)
    requires
        0 <= i < n <= cycler.len(),
        same_second(cycler, sensor, i, j),
    ensures
        0 <= k < aligned_among(cycler, sensor, n).len(),
        aligned_among(cycler, sensor, n)[k] == paired(cycler[i], sensor[j]),
    decreases n,
{
    let before = aligned_among(cycler, sensor, n - 1);
    if i == n - 1 {
        let k = lemma_source_has_match(cycler[i], sensor, sensor.len() as int, j);
        before.len() + k
    } else {
        lemma_aligned_target(cycler, sensor, n - 1, i, j)
    }
}

/// Whether no two sensor rows share a timestamp, as in a resampled log.
pub open spec fn one_row_per_second(sensor: Seq<SensorRow>) -> bool {
    forall|j: int, l: int|
        0 <= j < sensor.len() && 0 <= l < sensor.len() && (#[trigger] sensor[j]).timestamp == (
        #[trigger] sensor[l]).timestamp ==> j == l
}

/// Whether some sensor row has the timestamp `t`.
pub open spec fn has_second(sensor: Seq<SensorRow>, t: int) -> bool {
    exists|j: int| 0 <= j < sensor.len() && (#[trigger] sensor[j]).timestamp == t
}

/// How many of the first `n` cycler rows have a second that the sensor rows
/// have too.
pub open spec fn covered_among(cycler: Seq<Row>, sensor: Seq<SensorRow>, n: int) -> int
    decreases n,
{
    if n <= 0 {
        0
    } else if has_second(sensor, cycler[n - 1].timestamp as int) {
        covered_among(cycler, sensor, n - 1) + 1
    } else {
        covered_among(cycler, sensor, n - 1)
    }
}

/// With one sensor row per second, a cycler row gives one aligned row if
/// the sensor has its second, and none otherwise.
proof fn lemma_at_most_one_match(row: Row, sensor: Seq<SensorRow>, m: int)
    requires
        0 <= m <= sensor.len(),
        one_row_per_second(sensor),
    ensures
        matches_among(row, sensor, m).len() == if exists|j: int|
            0 <= j < m && (#[trigger] sensor[j]).timestamp == row.timestamp {
            1int
        } else {
            0int
        },
    decreases m,
{
    if m > 0 {
        lemma_at_most_one_match(row, sensor, m - 1);
        if sensor[m - 1].timestamp == row.timestamp {
            assert(forall|j: int| 0 <= j < m - 1 ==> (#[trigger] sensor[j]).timestamp != row.timestamp);
        } else if exists|j: int| 0 <= j < m && (#[trigger] sensor[j]).timestamp == row.timestamp {
            let j = choose|j: int| 0 <= j < m && (#[trigger] sensor[j]).timestamp == row.timestamp;
            assert(0 <= j < m - 1 && sensor[j].timestamp == row.timestamp);
        }
    }
}

/// With one sensor row per second, as resampling gives, the join has exactly
/// one row for each cycler row whose second the sensor has, however many
/// cycler rows share a second.
pub proof fn lemma_aligned_cardinality(cycler: Seq<Row>, sensor: Seq<SensorRow>)
    requires
        one_row_per_second(sensor),
    ensures
        aligned(cycler, sensor).len() == covered_among(cycler, sensor, cycler.len() as int),
{
    lemma_aligned_counted(cycler, sensor, cycler.len() as int);
}

/// As `lemma_aligned_cardinality`, for the first `n` cycler rows.
proof fn lemma_aligned_counted(cycler: Seq<Row>, sensor: Seq<SensorRow>, n: int)
    requires
        0 <= n <= cycler.len(),
        one_row_per_second(sensor),
    ensures
        aligned_among(cycler, sensor, n).len() == covered_among(cycler, sensor, n),
    decreases n,
{
    if n > 0 {
        lemma_aligned_counted(cycler, sensor, n - 1);
        lemma_at_most_one_match(cycler[n - 1], sensor, sensor.len() as int);
    }
}

/// A resampled log stands by the second and has one row per second, so that
/// each cycler row finds at most one sensor row in it.
pub proof fn lemma_resampled_has_one_row_per_second(
    rows: Seq<SensorRow>,
    readings: Seq<Reading>,
)
    requires
        readings.len() > 0,
        is_resampled(rows, readings),
    ensures
        by_the_second(rows),
        one_row_per_second(rows),
{
}

/// Running the pipeline again on the same streams gives the same outcome:
/// two outcomes that both meet the contract of `arbin_keyence` for the same
/// arguments are equal, row for row or failure for failure.
pub proof fn lemma_rerun_is_identical(
    first: Result<Vec<AlignedRow>, Error>,
    second: Result<Vec<AlignedRow>, Error>,
    readings: Seq<Reading>,
    samples: Seq<Sample>,
    channel: u32,
)
    requires
        outcome(first) == stitched(readings, samples, channel),
        outcome(second) == stitched(readings, samples, channel),
    ensures
        outcome(first) == outcome(second),
{
}

} // verus!
