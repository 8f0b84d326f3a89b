//! The telemetry of an Arbin cycler, from decoded samples to canonical rows.

use vstd::prelude::*;
use crate::clock::{second_of, whole_seconds};
use crate::counter::{as_ints, decode, deltas, decodable, representable};
use crate::error::Error;
use crate::segment::{
    is_membership, segment, step_end, step_number, step_start, step_total, step_totals, Key,
    Membership,
};
use crate::step_type::{classify, step_type_of, StepType};

verus! {

/// How many seconds the cycler's clock runs ahead of UTC.
pub const CLOCK_OFFSET_SECONDS: i64 = 7200;

/// One reading of the cycler.
///
/// Within a file the sequence number alone orders the samples: the timestamp
/// may be coarser than the sampling rate.
#[derive(Debug, Clone, Copy, PartialEq, Eq, Structural)]
pub struct Sample {
    /// The position of the sample in its file.
    pub sequence_number: i64,
    /// Seconds since the epoch, in UTC.
    pub timestamp: i64,
    /// Milliseconds since the test began.
    pub total_time_millis: i64,
    /// Milliseconds since the step began.
    pub step_time_millis: i64,
    pub voltage: i64,
    /// Positive while charging, negative while discharging.
    pub current: i64,
    /// The cycler's running total of charged capacity.
    pub charge_capacity: i64,
    /// The cycler's running total of discharged capacity.
    pub discharge_capacity: i64,
    /// The cycler's running total of charged energy.
    pub charge_energy: i64,
    /// The cycler's running total of discharged energy.
    pub discharge_energy: i64,
    pub cycle_index: i64,
    pub step_index: i64,
}

/// The four cumulative counters of a sample.
#[derive(Debug, Clone, Copy, PartialEq, Eq, Structural)]
pub enum Counter {
    ChargeCapacity,
    DischargeCapacity,
    ChargeEnergy,
    DischargeEnergy,
}

/// The make of cycler that a row comes from.
#[derive(Debug, Clone, Copy, PartialEq, Eq, Structural)]
pub enum CyclerType {
    Arbin,
}

/// What the segmentation adds to a sample.
#[derive(Debug, Clone, Copy, PartialEq, Eq, Structural)]
pub struct Annotation {
    /// Voltage times current, in the product of their units.
    pub power: i128,
    pub step_number: u64,
    pub step_type: StepType,
    pub step_charged_amp_hours: i64,
    pub step_discharged_amp_hours: i64,
    pub step_charged_watt_hours: i64,
    pub step_discharged_watt_hours: i64,
    /// Charged plus discharged capacity of the step so far.
    pub step_amp_hours: i64,
    /// Charged plus discharged energy of the step so far.
    pub step_watt_hours: i64,
}

/// One row of the canonical output.
#[derive(Debug, Clone, Copy, PartialEq, Eq, Structural)]
pub struct Row {
    pub sequence_number: i64,
    pub total_time_millis: i64,
    pub step_time_millis: i64,
    pub voltage: i64,
    pub current: i64,
    pub power: i128,
    pub step_amp_hours: i64,
    pub step_charged_amp_hours: i64,
    pub step_discharged_amp_hours: i64,
    pub step_watt_hours: i64,
    pub step_charged_watt_hours: i64,
    pub step_discharged_watt_hours: i64,
    pub total_cycle: i64,
    pub step_number: u64,
    pub step_type: StepType,
    pub step_id: i64,
    pub channel_number: u32,
    pub cycler_type: CyclerType,
    pub timestamp: i64,
}

impl Sample {
    /// The raw value of one of the sample's counters.
    pub open spec fn counter(self, which: Counter) -> i64 {
        match which {
            Counter::ChargeCapacity => self.charge_capacity,
            Counter::DischargeCapacity => self.discharge_capacity,
            Counter::ChargeEnergy => self.charge_energy,
            Counter::DischargeEnergy => self.discharge_energy,
        }
    }

    /// The key by which samples are grouped into steps.
    pub open spec fn key(self) -> Key {
        (self.cycle_index, self.step_index)
    }

    /// Reads one of the sample's counters.
    pub fn read(&self, which: Counter) -> (value: i64)
        ensures
            value == self.counter(which),
    {
        match which {
            Counter::ChargeCapacity => self.charge_capacity,
            Counter::DischargeCapacity => self.discharge_capacity,
            Counter::ChargeEnergy => self.charge_energy,
            Counter::DischargeEnergy => self.discharge_energy,
        }
    }
}

impl Row {
    /// The part of the row that the segmentation computed.
    pub open spec fn annotation(self) -> Annotation {
        Annotation {
            power: self.power,
            step_number: self.step_number,
            step_type: self.step_type,
            step_charged_amp_hours: self.step_charged_amp_hours,
            step_discharged_amp_hours: self.step_discharged_amp_hours,
            step_charged_watt_hours: self.step_charged_watt_hours,
            step_discharged_watt_hours: self.step_discharged_watt_hours,
            step_amp_hours: self.step_amp_hours,
            step_watt_hours: self.step_watt_hours,
        }
    }
}

impl CyclerType {
    /// The name under which the make is written out.
    pub open spec fn name_spec(self) -> Seq<char> {
        match self {
            CyclerType::Arbin => "arbin"@,
        }
    }

    /// The name under which the make is written out.
    pub fn name(&self) -> (s: &'static str)
        ensures
            s@ == self.name_spec(),
    {
        match self {
            CyclerType::Arbin => "arbin",
        }
    }
}

/// The keys of the samples, in order.
pub open spec fn keys_of(samples: Seq<Sample>) -> Seq<Key> {
    Seq::new(samples.len(), |i: int| samples[i].key())
}

/// One counter of the samples, in order.
pub open spec fn column(samples: Seq<Sample>, which: Counter) -> Seq<i64> {
    Seq::new(samples.len(), |i: int| samples[i].counter(which))
}

/// The running total, within the step of sample `i`, of what one counter
/// gained.
pub open spec fn counter_step_total(samples: Seq<Sample>, which: Counter, i: int) -> int {
    step_total(keys_of(samples), deltas(column(samples, which)), i)
}

/// Whether one counter can be decoded and added up step by step.
pub open spec fn counter_well_formed(samples: Seq<Sample>, which: Counter) -> bool {
    &&& decodable(column(samples, which))
    &&& forall|i: int|
        0 <= i < samples.len() ==> representable(#[trigger] counter_step_total(samples, which, i))
}

/// Capacity moved in the step of sample `i` so far, in either direction.
pub open spec fn amp_hours(samples: Seq<Sample>, i: int) -> int {
    counter_step_total(samples, Counter::ChargeCapacity, i) + counter_step_total(
        samples,
        Counter::DischargeCapacity,
        i,
    )
}

/// Energy moved in the step of sample `i` so far, in either direction.
pub open spec fn watt_hours(samples: Seq<Sample>, i: int) -> int {
    counter_step_total(samples, Counter::ChargeEnergy, i) + counter_step_total(
        samples,
        Counter::DischargeEnergy,
        i,
    )
}

/// Whether every delta, every running total and every sum of two running
/// totals of the samples is representable.
pub open spec fn well_formed(samples: Seq<Sample>) -> bool {
    &&& counter_well_formed(samples, Counter::ChargeCapacity)
    &&& counter_well_formed(samples, Counter::DischargeCapacity)
    &&& counter_well_formed(samples, Counter::ChargeEnergy)
    &&& counter_well_formed(samples, Counter::DischargeEnergy)
    &&& forall|i: int| 0 <= i < samples.len() ==> representable(#[trigger] amp_hours(samples, i))
    &&& forall|i: int| 0 <= i < samples.len() ==> representable(#[trigger] watt_hours(samples, i))
}

/// Whether `a` is what the segmentation adds to sample `i`.
pub open spec fn annotates(a: Annotation, samples: Seq<Sample>, i: int) -> bool {
    let keys = keys_of(samples);
    &&& a.power == samples[i].voltage * samples[i].current
    &&& a.step_number == step_number(keys, i)
    &&& a.step_type == step_type_of(
        samples[step_start(keys, i)].current as int,
        samples[step_end(keys, i)].current as int,
    )
    &&& a.step_charged_amp_hours == counter_step_total(samples, Counter::ChargeCapacity, i)
    &&& a.step_discharged_amp_hours == counter_step_total(samples, Counter::DischargeCapacity, i)
    &&& a.step_charged_watt_hours == counter_step_total(samples, Counter::ChargeEnergy, i)
    &&& a.step_discharged_watt_hours == counter_step_total(samples, Counter::DischargeEnergy, i)
    &&& a.step_amp_hours == amp_hours(samples, i)
    &&& a.step_watt_hours == watt_hours(samples, i)
}

/// Whether `annotations` holds, in order, what the segmentation adds to each
/// of the samples.
pub open spec fn annotate_all(annotations: Seq<Annotation>, samples: Seq<Sample>) -> bool {
    &&& annotations.len() == samples.len()
    &&& forall|i: int| 0 <= i < samples.len() ==> annotates(#[trigger] annotations[i], samples, i)
}

/// The canonical row of a sample.
pub open spec fn canonical_row(sample: Sample, a: Annotation, channel: u32) -> Row {
    Row {
        sequence_number: sample.sequence_number,
        total_time_millis: sample.total_time_millis,
        step_time_millis: sample.step_time_millis,
        voltage: sample.voltage,
        current: sample.current,
        power: a.power,
        step_amp_hours: a.step_amp_hours,
        step_charged_amp_hours: a.step_charged_amp_hours,
        step_discharged_amp_hours: a.step_discharged_amp_hours,
        step_watt_hours: a.step_watt_hours,
        step_charged_watt_hours: a.step_charged_watt_hours,
        step_discharged_watt_hours: a.step_discharged_watt_hours,
        total_cycle: sample.cycle_index,
        step_number: a.step_number,
        step_type: a.step_type,
        step_id: sample.step_index,
        channel_number: channel,
        cycler_type: CyclerType::Arbin,
        timestamp: sample.timestamp,
    }
}

/// Whether `rows` is the canonical output for the samples: one row per sample
/// and in the same order, each made of its sample and of what the
/// segmentation adds to it.
pub open spec fn is_canonical(rows: Seq<Row>, samples: Seq<Sample>, channel: u32) -> bool {
    &&& rows.len() == samples.len()
    &&& forall|i: int|
        0 <= i < samples.len() ==> {
            &&& annotates((#[trigger] rows[i]).annotation(), samples, i)
            &&& rows[i] == canonical_row(samples[i], rows[i].annotation(), channel)
        }
}

/// What the segmentation adds to sample `i`, as a function of the samples.
pub open spec fn annotation_of(samples: Seq<Sample>, i: int) -> Annotation {
    let keys = keys_of(samples);
    Annotation {
        power: (samples[i].voltage * samples[i].current) as i128,
        step_number: step_number(keys, i) as u64,
        step_type: step_type_of(
            samples[step_start(keys, i)].current as int,
            samples[step_end(keys, i)].current as int,
        ),
        step_charged_amp_hours: counter_step_total(samples, Counter::ChargeCapacity, i) as i64,
        step_discharged_amp_hours: counter_step_total(
            samples,
            Counter::DischargeCapacity,
            i,
        ) as i64,
        step_charged_watt_hours: counter_step_total(samples, Counter::ChargeEnergy, i) as i64,
        step_discharged_watt_hours: counter_step_total(
            samples,
            Counter::DischargeEnergy,
            i,
        ) as i64,
        step_amp_hours: amp_hours(samples, i) as i64,
        step_watt_hours: watt_hours(samples, i) as i64,
    }
}

/// The canonical output, as a function of the samples and the channel.
pub open spec fn canonical(samples: Seq<Sample>, channel: u32) -> Seq<Row> {
    Seq::new(
        samples.len(),
        |i: int| canonical_row(samples[i], annotation_of(samples, i), channel),
    )
}

/// The samples and the channel determine the canonical output: any two
/// results for the same samples are equal, row for row.
pub proof fn lemma_canonical_is_unique(rows: Seq<Row>, samples: Seq<Sample>, channel: u32)
    requires
        is_canonical(rows, samples, channel),
    ensures
        rows == canonical(samples, channel),
{
    assert forall|i: int| 0 <= i < samples.len() implies #[trigger] rows[i] == canonical(
        samples,
        channel,
    )[i] by {
        assert(annotates(rows[i].annotation(), samples, i));
        assert(rows[i].annotation() == annotation_of(samples, i));
    }
    assert(rows =~= canonical(samples, channel));
}

/// The UTC timestamp, in seconds, of an instant that the cycler's clock
/// gives in milliseconds: whole seconds, rounded down, less the offset of
/// the clock.
pub open spec fn utc_seconds(clock_millis: int) -> int {
    second_of(clock_millis) - CLOCK_OFFSET_SECONDS
}

/// Turns an instant read off the cycler's clock, in milliseconds, into a UTC
/// timestamp in seconds.
pub fn timestamp_of(clock_millis: i64) -> (timestamp: i64)
    ensures
        timestamp == utc_seconds(clock_millis as int),
{
    whole_seconds(clock_millis) - CLOCK_OFFSET_SECONDS
}

/// Collects the keys of the samples.
fn collect_keys(samples: &Vec<Sample>) -> (keys: Vec<Key>)
    ensures
        keys@ == keys_of(samples@),
{
    let mut keys: Vec<Key> = Vec::new();
    let mut i: usize = 0;
    while i < samples.len()
        invariant
            i <= samples.len(),
            keys@.len() == i,
            forall|j: int| 0 <= j < i ==> #[trigger] keys@[j] == samples@[j].key(),
        decreases samples.len() - i,
    {
        keys.push((samples[i].cycle_index, samples[i].step_index));
        i += 1;
    }
    assert(keys@ =~= keys_of(samples@));
    keys
}

/// Collects one counter of the samples.
fn collect_column(samples: &Vec<Sample>, which: Counter) -> (values: Vec<i64>)
    ensures
        values@ == column(samples@, which),
{
    let mut values: Vec<i64> = Vec::new();
    let mut i: usize = 0;
    while i < samples.len()
        invariant
            i <= samples.len(),
            values@.len() == i,
            forall|j: int| 0 <= j < i ==> #[trigger] values@[j] == samples@[j].counter(which),
        decreases samples.len() - i,
    {
        values.push(samples[i].read(which));
        i += 1;
    }
    assert(values@ =~= column(samples@, which));
    values
}

/// Decodes one counter and adds its deltas up step by step.
fn counter_step_totals(samples: &Vec<Sample>, keys: &Vec<Key>, which: Counter) -> (totals: Result<
    Vec<i64>,
    Error,
>)
    requires
        keys@ == keys_of(samples@),
    ensures
        match totals {
            Ok(t) => {
                &&& counter_well_formed(samples@, which)
                &&& t@.len() == samples@.len()
                &&& forall|i: int|
                    0 <= i < samples@.len() ==> #[trigger] t@[i] == counter_step_total(
                        samples@,
                        which,
                        i,
                    )
            },
            Err(e) => !counter_well_formed(samples@, which) && e == Error::MalformedCounterSequence,
        },
{
    let raw: Vec<i64> = collect_column(samples, which);
    match decode(&raw) {
        Ok(gains) => {
            assert(as_ints(gains@) =~= deltas(raw@));
            match step_totals(keys, &gains) {
                Ok(t) => {
                    assert forall|i: int| 0 <= i < samples@.len() implies representable(
                        #[trigger] counter_step_total(samples@, which, i),
                    ) by {
                        assert(t@[i] == counter_step_total(samples@, which, i));
                    }
                    Ok(t)
                },
                Err(e) => {
                    proof {
                        let i = choose|i: int|
                            0 <= i < keys@.len() && !representable(
                                #[trigger] step_total(keys@, as_ints(gains@), i),
                            );
                        assert(!representable(counter_step_total(samples@, which, i)));
                    }
                    Err(e)
                },
            }
        },
        Err(e) => Err(e),
    }
}

/// Voltage times current, which always fits.
fn power_of(voltage: i64, current: i64) -> (power: i128)
    ensures
        power == voltage * current,
{
    assert(-0x4000_0000_0000_0000_0000_0000_0000_0000 <= voltage * current
        <= 0x4000_0000_0000_0000_0000_0000_0000_0000) by (nonlinear_arith)
        requires
            -0x8000_0000_0000_0000 <= voltage <= 0x8000_0000_0000_0000,
            -0x8000_0000_0000_0000 <= current <= 0x8000_0000_0000_0000,
    ;
    (voltage as i128) * (current as i128)
}

/// Segments the samples into steps and computes, for every sample, its
/// power, the number and the type of its step, and the running totals of
/// capacity and energy within the step.
///
/// The samples are taken in the order given, which is that of their sequence
/// numbers. Fails if and only if a delta or a running total is not
/// representable.
pub fn calculate_step_capacities_and_types(samples: &Vec<Sample>) -> (annotations: Result<
    Vec<Annotation>,
    Error,
>)
    ensures
        match annotations {
            Ok(a) => well_formed(samples@) && annotate_all(a@, samples@),
            Err(e) => !well_formed(samples@) && e == Error::MalformedCounterSequence,
        },
{
    let keys: Vec<Key> = collect_keys(samples);
    let members: Vec<Membership> = segment(&keys);
    let charged_ah: Vec<i64> = match counter_step_totals(samples, &keys, Counter::ChargeCapacity) {
        Ok(t) => t,
        Err(e) => {
            return Err(e);
        },
    };
    let discharged_ah: Vec<i64> = match counter_step_totals(
        samples,
        &keys,
        Counter::DischargeCapacity,
    ) {
        Ok(t) => t,
        Err(e) => {
            return Err(e);
        },
    };
    let charged_wh: Vec<i64> = match counter_step_totals(samples, &keys, Counter::ChargeEnergy) {
        Ok(t) => t,
        Err(e) => {
            return Err(e);
        },
    };
    let discharged_wh: Vec<i64> = match counter_step_totals(
        samples,
        &keys,
        Counter::DischargeEnergy,
    ) {
        Ok(t) => t,
        Err(e) => {
            return Err(e);
        },
    };
    let n: usize = samples.len();
    let mut annotations: Vec<Annotation> = Vec::new();
    let mut i: usize = 0;
    while i < n
        invariant
            n == samples@.len(),
            i <= n,
            keys@ == keys_of(samples@),
            members@.len() == n,
            forall|j: int| 0 <= j < n ==> is_membership(#[trigger] members@[j], keys@, j),
            charged_ah@.len() == n,
            discharged_ah@.len() == n,
            charged_wh@.len() == n,
            discharged_wh@.len() == n,
            forall|j: int|
                0 <= j < n ==> #[trigger] charged_ah@[j] == counter_step_total(
                    samples@,
                    Counter::ChargeCapacity,
                    j,
                ),
            forall|j: int|
                0 <= j < n ==> #[trigger] discharged_ah@[j] == counter_step_total(
                    samples@,
                    Counter::DischargeCapacity,
                    j,
                ),
            forall|j: int|
                0 <= j < n ==> #[trigger] charged_wh@[j] == counter_step_total(
                    samples@,
                    Counter::ChargeEnergy,
                    j,
                ),
            forall|j: int|
                0 <= j < n ==> #[trigger] discharged_wh@[j] == counter_step_total(
                    samples@,
                    Counter::DischargeEnergy,
                    j,
                ),
            annotations@.len() == i,
            forall|j: int| 0 <= j < i ==> annotates(#[trigger] annotations@[j], samples@, j),
        decreases n - i,
    {
        let member: Membership = members[i];
        proof {
            crate::segment::lemma_step_is_maximal_run(keys@, i as int);
        }
        let step_amp_hours: i64 = match charged_ah[i].checked_add(discharged_ah[i]) {
            Some(sum) => sum,
            None => {
                assert(!representable(amp_hours(samples@, i as int)));
                return Err(Error::MalformedCounterSequence);
            },
        };
        let step_watt_hours: i64 = match charged_wh[i].checked_add(discharged_wh[i]) {
            Some(sum) => sum,
            None => {
                assert(!representable(watt_hours(samples@, i as int)));
                return Err(Error::MalformedCounterSequence);
            },
        };
        annotations.push(
            Annotation {
                power: power_of(samples[i].voltage, samples[i].current),
                step_number: member.step_number,
                step_type: classify(samples[member.first].current, samples[member.last].current),
                step_charged_amp_hours: charged_ah[i],
                step_discharged_amp_hours: discharged_ah[i],
                step_charged_watt_hours: charged_wh[i],
                step_discharged_watt_hours: discharged_wh[i],
                step_amp_hours,
                step_watt_hours,
            },
        );
        i += 1;
    }
    proof {
        assert forall|j: int| 0 <= j < samples@.len() implies representable(
            #[trigger] amp_hours(samples@, j),
        ) by {
            assert(annotates(annotations@[j], samples@, j));
        }
        assert forall|j: int| 0 <= j < samples@.len() implies representable(
            #[trigger] watt_hours(samples@, j),
        ) by {
            assert(annotates(annotations@[j], samples@, j));
        }
    }
    Ok(annotations)
}

/// Turns the samples of one channel into canonical rows: one row per sample,
/// in the order of the samples, each with the number and the type of its
/// step and with its running totals within the step.
///
/// Fails if and only if a delta or a running total is not representable.
pub fn parse(samples: &Vec<Sample>, channel: u32) -> (rows: Result<Vec<Row>, Error>)
    ensures
        match rows {
            Ok(r) => well_formed(samples@) && is_canonical(r@, samples@, channel),
            Err(e) => !well_formed(samples@) && e == Error::MalformedCounterSequence,
        },
{
    let annotations: Vec<Annotation> = match calculate_step_capacities_and_types(samples) {
        Ok(a) => a,
        Err(e) => {
            return Err(e);
        },
    };
    let n: usize = samples.len();
    let mut rows: Vec<Row> = Vec::new();
    let mut i: usize = 0;
    while i < n
        invariant
            n == samples@.len(),
            i <= n,
            annotate_all(annotations@, samples@),
            rows@.len() == i,
            forall|j: int|
                0 <= j < i ==> #[trigger] rows@[j] == canonical_row(
                    samples@[j],
                    annotations@[j],
                    channel,
                ),
        decreases n - i,
    {
        let sample: Sample = samples[i];
        let a: Annotation = annotations[i];
        rows.push(
            Row {
                sequence_number: sample.sequence_number,
                total_time_millis: sample.total_time_millis,
                step_time_millis: sample.step_time_millis,
                voltage: sample.voltage,
                current: sample.current,
                power: a.power,
                step_amp_hours: a.step_amp_hours,
                step_charged_amp_hours: a.step_charged_amp_hours,
                step_discharged_amp_hours: a.step_discharged_amp_hours,
                step_watt_hours: a.step_watt_hours,
                step_charged_watt_hours: a.step_charged_watt_hours,
                step_discharged_watt_hours: a.step_discharged_watt_hours,
                total_cycle: sample.cycle_index,
                step_number: a.step_number,
                step_type: a.step_type,
                step_id: sample.step_index,
                channel_number: channel,
                cycler_type: CyclerType::Arbin,
                timestamp: sample.timestamp,
            },
        );
        i += 1;
    }
    proof {
        assert forall|j: int| 0 <= j < samples@.len() implies {
            &&& annotates((#[trigger] rows@[j]).annotation(), samples@, j)
            &&& rows@[j] == canonical_row(samples@[j], rows@[j].annotation(), channel)
        } by {
            assert(annotates(annotations@[j], samples@, j));
            assert(rows@[j].annotation() == annotations@[j]);
        }
    }
    Ok(rows)
}

} // verus!
