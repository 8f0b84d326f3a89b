use data_playground::arbin::{
    calculate_step_capacities_and_types, parse, timestamp_of, Annotation, Counter, CyclerType,
    Row, Sample,
};
use data_playground::counter::decode;
use data_playground::error::Error;
use data_playground::segment::{segment, step_totals, Membership};
use data_playground::step_type::{classify, StepType};

fn sample(sequence_number: i64, cycle_index: i64, step_index: i64, current: i64) -> Sample {
    Sample {
        sequence_number,
        timestamp: 1_000 + sequence_number,
        total_time_millis: 500 * sequence_number,
        step_time_millis: 250 * sequence_number,
        voltage: 4,
        current,
        charge_capacity: 0,
        discharge_capacity: 0,
        charge_energy: 0,
        discharge_energy: 0,
        cycle_index,
        step_index,
    }
}

fn with_counters(base: Sample, counters: [i64; 4]) -> Sample {
    Sample {
        charge_capacity: counters[0],
        discharge_capacity: counters[1],
        charge_energy: counters[2],
        discharge_energy: counters[3],
        ..base
    }
}

#[test]
fn decode_gives_successive_differences() {
    let counter: Vec<i64> = vec![5, 7, 7, 12, 20];
    assert_eq!(decode(&counter), Ok(vec![5, 2, 0, 5, 8]));
}

#[test]
fn decode_of_nothing_is_nothing() {
    let counter: Vec<i64> = Vec::new();
    assert_eq!(decode(&counter), Ok(Vec::new()));
}

#[test]
fn decoded_deltas_sum_back_to_the_counter() {
    let counter: Vec<i64> = vec![3, 4, 9, 9, 15, 40];
    let deltas: Vec<i64> = decode(&counter).unwrap();
    for last in 0..counter.len() {
        let after_first: i64 = deltas[1..=last].iter().sum();
        assert_eq!(after_first, counter[last] - counter[0]);
        let all: i64 = deltas[..=last].iter().sum();
        assert_eq!(all, counter[last]);
    }
}

#[test]
fn decode_keeps_a_reset_as_a_negative_delta() {
    let counter: Vec<i64> = vec![10, 20, 3, 8];
    assert_eq!(decode(&counter), Ok(vec![10, 10, -17, 5]));
}

#[test]
fn decode_rejects_a_delta_out_of_range() {
    let counter: Vec<i64> = vec![i64::MAX, i64::MIN];
    assert_eq!(decode(&counter), Err(Error::MalformedCounterSequence));
    let counter: Vec<i64> = vec![-2, i64::MAX];
    assert_eq!(decode(&counter), Err(Error::MalformedCounterSequence));
}

#[test]
fn decode_accepts_the_extremes() {
    let counter: Vec<i64> = vec![i64::MIN, -1, i64::MAX - 1];
    assert_eq!(decode(&counter), Ok(vec![i64::MIN, i64::MAX, i64::MAX]));
    let counter: Vec<i64> = vec![i64::MIN, 0];
    assert_eq!(decode(&counter), Err(Error::MalformedCounterSequence));
}

#[test]
fn classifier_labels_the_stated_cases() {
    assert_eq!(classify(-10, -1), StepType::CccvDChg);
    assert_eq!(classify(-100, -96), StepType::CcDChg);
    assert_eq!(classify(50, 5), StepType::CccvChg);
    assert_eq!(classify(0, 0), StepType::Rest);
    assert_eq!(classify(0, 17), StepType::Rest);
    assert_eq!(classify(0, -17), StepType::Rest);
}

#[test]
fn classifier_treats_the_threshold_as_flat() {
    assert_eq!(classify(-100, -95), StepType::CcDChg);
    assert_eq!(classify(-100, -94), StepType::CccvDChg);
    assert_eq!(classify(100, 95), StepType::CcChg);
    assert_eq!(classify(100, 94), StepType::CccvChg);
    assert_eq!(classify(100, 100), StepType::CcChg);
    assert_eq!(classify(-100, -100), StepType::CcDChg);
}

#[test]
fn classifier_does_not_overflow_at_the_extremes() {
    assert_eq!(classify(i64::MIN, i64::MIN), StepType::CcDChg);
    assert_eq!(classify(i64::MIN, i64::MAX), StepType::CccvDChg);
    assert_eq!(classify(i64::MAX, i64::MAX), StepType::CcChg);
    assert_eq!(classify(i64::MAX, i64::MIN), StepType::CccvChg);
}

#[test]
fn segment_numbers_steps_densely_from_one() {
    let keys: Vec<(i64, i64)> = vec![(1, 1), (1, 1), (1, 2), (1, 2), (1, 2), (2, 1), (1, 1)];
    let members: Vec<Membership> = segment(&keys);
    let numbers: Vec<u64> = members.iter().map(|m| m.step_number).collect();
    assert_eq!(numbers, vec![1, 1, 2, 2, 2, 3, 4]);
    let firsts: Vec<usize> = members.iter().map(|m| m.first).collect();
    assert_eq!(firsts, vec![0, 0, 2, 2, 2, 5, 6]);
    let lasts: Vec<usize> = members.iter().map(|m| m.last).collect();
    assert_eq!(lasts, vec![1, 1, 4, 4, 4, 5, 6]);
}

#[test]
fn segment_does_not_merge_a_key_that_returns() {
    let keys: Vec<(i64, i64)> = vec![(1, 1), (1, 2), (1, 1)];
    let members: Vec<Membership> = segment(&keys);
    assert_eq!(
        members,
        vec![
            Membership { step_number: 1, first: 0, last: 0 },
            Membership { step_number: 2, first: 1, last: 1 },
            Membership { step_number: 3, first: 2, last: 2 },
        ]
    );
}

#[test]
fn segment_tells_keys_apart_by_either_index() {
    let keys: Vec<(i64, i64)> = vec![(1, 1), (2, 1), (2, 2), (2, 2)];
    let numbers: Vec<u64> = segment(&keys).iter().map(|m| m.step_number).collect();
    assert_eq!(numbers, vec![1, 2, 3, 3]);
}

#[test]
fn segment_of_nothing_is_nothing() {
    let keys: Vec<(i64, i64)> = Vec::new();
    assert_eq!(segment(&keys), Vec::new());
}

#[test]
fn step_totals_restart_with_every_step() {
    let keys: Vec<(i64, i64)> = vec![(1, 1), (1, 1), (1, 1), (1, 2), (1, 2), (1, 1)];
    let values: Vec<i64> = vec![1, 2, 3, 10, 20, 100];
    assert_eq!(step_totals(&keys, &values), Ok(vec![1, 3, 6, 10, 30, 100]));
}

#[test]
fn step_totals_reject_a_total_out_of_range() {
    let keys: Vec<(i64, i64)> = vec![(1, 1), (1, 1)];
    let values: Vec<i64> = vec![i64::MAX, 1];
    assert_eq!(step_totals(&keys, &values), Err(Error::MalformedCounterSequence));
    let keys: Vec<(i64, i64)> = vec![(1, 1), (1, 2)];
    assert_eq!(step_totals(&keys, &values), Ok(vec![i64::MAX, 1]));
}

#[test]
fn annotations_follow_the_samples() {
    let samples: Vec<Sample> = vec![
        with_counters(sample(1, 1, 1, 0), [0, 0, 0, 0]),
        with_counters(sample(2, 1, 1, 0), [0, 0, 0, 0]),
        with_counters(sample(3, 1, 2, 100), [10, 0, 40, 0]),
        with_counters(sample(4, 1, 2, 100), [25, 0, 100, 0]),
        with_counters(sample(5, 1, 2, 50), [30, 0, 120, 0]),
        with_counters(sample(6, 1, 3, -100), [30, 7, 120, 28]),
        with_counters(sample(7, 1, 3, -100), [30, 15, 120, 60]),
    ];
    let annotations: Vec<Annotation> = calculate_step_capacities_and_types(&samples).unwrap();
    assert_eq!(annotations.len(), 7);
    let numbers: Vec<u64> = annotations.iter().map(|a| a.step_number).collect();
    assert_eq!(numbers, vec![1, 1, 2, 2, 2, 3, 3]);
    let types: Vec<StepType> = annotations.iter().map(|a| a.step_type).collect();
    assert_eq!(
        types,
        vec![
            StepType::Rest,
            StepType::Rest,
            StepType::CccvChg,
            StepType::CccvChg,
            StepType::CccvChg,
            StepType::CcDChg,
            StepType::CcDChg,
        ]
    );
    let charged: Vec<i64> = annotations.iter().map(|a| a.step_charged_amp_hours).collect();
    assert_eq!(charged, vec![0, 0, 10, 25, 30, 0, 0]);
    let discharged: Vec<i64> = annotations.iter().map(|a| a.step_discharged_amp_hours).collect();
    assert_eq!(discharged, vec![0, 0, 0, 0, 0, 7, 15]);
    let charged_wh: Vec<i64> = annotations.iter().map(|a| a.step_charged_watt_hours).collect();
    assert_eq!(charged_wh, vec![0, 0, 40, 100, 120, 0, 0]);
    let discharged_wh: Vec<i64> =
        annotations.iter().map(|a| a.step_discharged_watt_hours).collect();
    assert_eq!(discharged_wh, vec![0, 0, 0, 0, 0, 28, 60]);
    let amp_hours: Vec<i64> = annotations.iter().map(|a| a.step_amp_hours).collect();
    assert_eq!(amp_hours, vec![0, 0, 10, 25, 30, 7, 15]);
    let watt_hours: Vec<i64> = annotations.iter().map(|a| a.step_watt_hours).collect();
    assert_eq!(watt_hours, vec![0, 0, 40, 100, 120, 28, 60]);
    let power: Vec<i128> = annotations.iter().map(|a| a.power).collect();
    assert_eq!(power, vec![0, 0, 400, 400, 200, -400, -400]);
}

#[test]
fn first_sample_of_a_step_carries_its_own_delta() {
    let samples: Vec<Sample> = vec![
        with_counters(sample(1, 1, 1, 10), [5, 1, 50, 10]),
        with_counters(sample(2, 1, 1, 10), [9, 2, 90, 20]),
        with_counters(sample(3, 1, 2, 10), [12, 4, 120, 40]),
    ];
    let annotations: Vec<Annotation> = calculate_step_capacities_and_types(&samples).unwrap();
    assert_eq!(annotations[0].step_charged_amp_hours, 5);
    assert_eq!(annotations[1].step_charged_amp_hours, 9);
    assert_eq!(annotations[2].step_charged_amp_hours, 3);
    assert_eq!(annotations[2].step_discharged_amp_hours, 2);
    assert_eq!(annotations[2].step_charged_watt_hours, 30);
    assert_eq!(annotations[2].step_discharged_watt_hours, 20);
    assert_eq!(annotations[2].step_amp_hours, 5);
    assert_eq!(annotations[2].step_watt_hours, 50);
}

#[test]
fn a_counter_reset_shows_in_the_step_total() {
    let samples: Vec<Sample> = vec![
        with_counters(sample(1, 1, 1, 10), [10, 0, 0, 0]),
        with_counters(sample(2, 1, 1, 10), [4, 0, 0, 0]),
        with_counters(sample(3, 1, 1, 10), [6, 0, 0, 0]),
    ];
    let annotations: Vec<Annotation> = calculate_step_capacities_and_types(&samples).unwrap();
    let charged: Vec<i64> = annotations.iter().map(|a| a.step_charged_amp_hours).collect();
    assert_eq!(charged, vec![10, 4, 6]);
}

#[test]
fn step_type_looks_at_first_and_last_current_only() {
    let samples: Vec<Sample> = vec![
        sample(1, 1, 1, -1000),
        sample(2, 1, 1, -5),
        sample(3, 1, 1, 700),
        sample(4, 1, 1, -990),
    ];
    let annotations: Vec<Annotation> = calculate_step_capacities_and_types(&samples).unwrap();
    for a in annotations.iter() {
        assert_eq!(a.step_type, StepType::CcDChg);
        assert_eq!(a.step_number, 1);
    }
}

#[test]
fn power_may_exceed_sixty_four_bits() {
    let mut big: Sample = sample(1, 1, 1, i64::MIN);
    big.voltage = i64::MIN;
    let annotations: Vec<Annotation> = calculate_step_capacities_and_types(&vec![big]).unwrap();
    assert_eq!(annotations[0].power, 1i128 << 126);
}

#[test]
fn malformed_counters_abort_the_run() {
    let delta_too_large: Vec<Sample> = vec![
        with_counters(sample(1, 1, 1, 1), [0, 0, i64::MIN, 0]),
        with_counters(sample(2, 1, 1, 1), [0, 0, i64::MAX, 0]),
    ];
    assert_eq!(
        calculate_step_capacities_and_types(&delta_too_large),
        Err(Error::MalformedCounterSequence)
    );
    let sum_too_large: Vec<Sample> = vec![with_counters(sample(1, 1, 1, 1), [i64::MAX, 1, 0, 0])];
    assert_eq!(
        calculate_step_capacities_and_types(&sum_too_large),
        Err(Error::MalformedCounterSequence)
    );
    assert_eq!(parse(&sum_too_large, 3), Err(Error::MalformedCounterSequence));
    let energy_too_small: Vec<Sample> =
        vec![with_counters(sample(1, 1, 1, 1), [0, 0, i64::MIN, -1])];
    assert_eq!(parse(&energy_too_small, 3), Err(Error::MalformedCounterSequence));
}

#[test]
fn parse_builds_canonical_rows() {
    let samples: Vec<Sample> = vec![
        with_counters(sample(11, 3, 7, 200), [10, 0, 41, 0]),
        with_counters(sample(12, 3, 7, 100), [15, 1, 61, 4]),
    ];
    let rows: Vec<Row> = parse(&samples, 9).unwrap();
    assert_eq!(
        rows,
        vec![
            Row {
                sequence_number: 11,
                total_time_millis: 5_500,
                step_time_millis: 2_750,
                voltage: 4,
                current: 200,
                power: 800,
                step_amp_hours: 10,
                step_charged_amp_hours: 10,
                step_discharged_amp_hours: 0,
                step_watt_hours: 41,
                step_charged_watt_hours: 41,
                step_discharged_watt_hours: 0,
                total_cycle: 3,
                step_number: 1,
                step_type: StepType::CccvChg,
                step_id: 7,
                channel_number: 9,
                cycler_type: CyclerType::Arbin,
                timestamp: 1_011,
            },
            Row {
                sequence_number: 12,
                total_time_millis: 6_000,
                step_time_millis: 3_000,
                voltage: 4,
                current: 100,
                power: 400,
                step_amp_hours: 16,
                step_charged_amp_hours: 15,
                step_discharged_amp_hours: 1,
                step_watt_hours: 65,
                step_charged_watt_hours: 61,
                step_discharged_watt_hours: 4,
                total_cycle: 3,
                step_number: 1,
                step_type: StepType::CccvChg,
                step_id: 7,
                channel_number: 9,
                cycler_type: CyclerType::Arbin,
                timestamp: 1_012,
            },
        ]
    );
}

#[test]
fn parse_of_nothing_is_nothing() {
    let samples: Vec<Sample> = Vec::new();
    assert_eq!(parse(&samples, 1), Ok(Vec::new()));
}

#[test]
fn parse_twice_gives_the_same_rows() {
    let samples: Vec<Sample> = vec![
        with_counters(sample(1, 1, 1, -10), [0, 3, 0, 12]),
        with_counters(sample(2, 1, 1, -1), [0, 5, 0, 20]),
        with_counters(sample(3, 1, 2, 0), [0, 5, 0, 20]),
    ];
    assert_eq!(parse(&samples, 2), parse(&samples, 2));
}

#[test]
fn sample_reads_each_counter() {
    let s: Sample = with_counters(sample(1, 1, 1, 0), [1, 2, 3, 4]);
    assert_eq!(s.read(Counter::ChargeCapacity), 1);
    assert_eq!(s.read(Counter::DischargeCapacity), 2);
    assert_eq!(s.read(Counter::ChargeEnergy), 3);
    assert_eq!(s.read(Counter::DischargeEnergy), 4);
}

#[test]
fn timestamp_is_whole_seconds_less_the_clock_offset() {
    assert_eq!(timestamp_of(1_660_000_000_999), 1_659_992_800);
    assert_eq!(timestamp_of(7_200_000), 0);
    assert_eq!(timestamp_of(0), -7_200);
    assert_eq!(timestamp_of(-1), -7_201);
    assert_eq!(timestamp_of(i64::MIN), -9_223_372_036_854_776 - 7_200);
    assert_eq!(timestamp_of(i64::MAX), 9_223_372_036_854_775 - 7_200);
}

#[test]
fn cycler_type_has_its_name() {
    assert_eq!(CyclerType::Arbin.name(), "arbin");
}

#[test]
fn step_types_have_their_labels() {
    assert_eq!(StepType::Rest.label(), "Rest");
    assert_eq!(StepType::CcDChg.label(), "CC_DChg");
    assert_eq!(StepType::CccvDChg.label(), "CCCV_DChg");
    assert_eq!(StepType::CcChg.label(), "CC_Chg");
    assert_eq!(StepType::CccvChg.label(), "CCCV_Chg");
}

#[test]
fn a_long_file_keeps_its_order_and_its_steps() {
    let mut samples: Vec<Sample> = Vec::new();
    for i in 0..1_000i64 {
        let step: i64 = i / 10;
        samples.push(with_counters(sample(i + 1, step / 7, step % 7, 1), [i + 1, 0, 2 * (i + 1), 0]));
    }
    let rows: Vec<Row> = parse(&samples, 1).unwrap();
    assert_eq!(rows.len(), 1_000);
    for (i, row) in rows.iter().enumerate() {
        let i: i64 = i as i64;
        assert_eq!(row.sequence_number, i + 1);
        assert_eq!(row.step_number, (i / 10) as u64 + 1);
        assert_eq!(row.step_charged_amp_hours, i % 10 + 1);
        assert_eq!(row.step_watt_hours, 2 * (i % 10 + 1));
    }
}
