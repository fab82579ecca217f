use dash::mileage::{
    distance_to_miles, get_mileage, get_workout_step_mileage, length_unit_to_miles, mileage,
    time_to_seconds, time_unit_to_miles, MileageError,
};
use dash::models::{
    Alert, Decimal, Goal, HeartRateZone, IntervalBlock, IntervalStep, LengthUnit, Mileage, Pace,
    PaceMap, PaceRange, TimeUnit, Workout, WorkoutStep,
};

fn dec(mantissa: u64, scale: u8) -> Decimal {
    Decimal::new(mantissa, scale).unwrap()
}

fn whole(n: u32) -> Decimal {
    Decimal::from_integer(n)
}

fn per_mile(seconds: u32) -> Pace {
    Pace { time: whole(seconds), unit: LengthUnit::Miles }
}

fn band(min_seconds: u32, max_seconds: u32) -> PaceRange {
    PaceRange { min: per_mile(min_seconds), max: per_mile(max_seconds) }
}

fn pace_map() -> PaceMap {
    let mut map = PaceMap::new(HeartRateZone::Z1);
    map.insert(HeartRateZone::Z1, band(20 * 60, 10 * 60));
    map.insert(HeartRateZone::Z2, band(10 * 60, 9 * 60));
    map.insert(HeartRateZone::Z3, band(9 * 60, 7 * 60));
    map.insert(HeartRateZone::Z4, band(7 * 60, 6 * 60));
    map.insert(HeartRateZone::Z5, band(6 * 60, 5 * 60));
    map
}

fn miles(nano: u64) -> f64 {
    nano as f64 / 1e9
}

fn minutes(n: u32, alert: Option<Alert>) -> WorkoutStep {
    WorkoutStep { goal: Goal::Duration { value: whole(n), unit: TimeUnit::Minutes }, alert }
}

#[test]
fn test_empty_workout() {
    let workout = Workout { warmup: None, intervals: vec![], cooldown: None };
    let mileage = mileage(&pace_map(), &workout).unwrap();
    assert_eq!(miles(mileage.min), 0.0);
    assert_eq!(miles(mileage.max), 0.0);
}

#[test]
fn test_empty_workout_needs_no_zone() {
    let workout = Workout { warmup: None, intervals: vec![], cooldown: None };
    let empty = PaceMap::new(HeartRateZone::Z3);
    assert_eq!(mileage(&empty, &workout), Ok(Mileage { min: 0, max: 0 }));
}

#[test]
fn test_workout_with_warmup_and_cooldown() {
    let workout = Workout {
        warmup: Some(minutes(10, Some(Alert::HeartRate(HeartRateZone::Z2)))),
        intervals: vec![],
        cooldown: Some(minutes(5, Some(Alert::HeartRate(HeartRateZone::Z1)))),
    };
    let mileage = mileage(&pace_map(), &workout).unwrap();
    assert!(miles(mileage.min) >= 1.25 && miles(mileage.min) <= 1.3);
    assert!(miles(mileage.max) >= 1.61 && miles(mileage.max) <= 1.62);
    assert_eq!(mileage.min, 1_000_000_000 + 250_000_000);
    assert_eq!(mileage.max, 1_111_111_111 + 500_000_000);
}

#[test]
fn test_workout_with_intervals() {
    let workout = Workout {
        warmup: None,
        intervals: vec![IntervalBlock {
            repeats: Some(3),
            steps: vec![
                IntervalStep {
                    step: minutes(1, Some(Alert::HeartRate(HeartRateZone::Z5))),
                    has_recovery: false,
                },
                IntervalStep {
                    step: minutes(2, Some(Alert::HeartRate(HeartRateZone::Z1))),
                    has_recovery: true,
                },
            ],
        }],
        cooldown: None,
    };
    let mileage = mileage(&pace_map(), &workout).unwrap();
    assert!(miles(mileage.min) >= 0.8 && miles(mileage.min) <= 0.9);
    assert!(miles(mileage.max) >= 1.2 && miles(mileage.max) <= 1.3);
    assert_eq!(mileage.min, 3 * (166_666_667 + 100_000_000));
    assert_eq!(mileage.max, 3 * (200_000_000 + 200_000_000));
}

#[test]
fn test_length_unit_conversions() {
    assert_eq!(miles(length_unit_to_miles(LengthUnit::Miles)), 1.0);
    assert_eq!(miles(length_unit_to_miles(LengthUnit::Kilometers)), 0.621371);
    assert_eq!(miles(length_unit_to_miles(LengthUnit::Meters)), 0.000621371);
    assert_eq!(miles(length_unit_to_miles(LengthUnit::Yards)), 0.000568182);
    assert_eq!(miles(length_unit_to_miles(LengthUnit::Feet)), 0.000189394);
}

#[test]
fn test_time_unit_conversions() {
    let pace_range = band(10 * 60, 8 * 60);

    let seconds = time_unit_to_miles(&pace_range, whole(10 * 60), TimeUnit::Seconds).unwrap();
    assert_eq!(miles(seconds.min), 1.0);
    assert_eq!(miles(seconds.max), 1.25);

    let minutes = time_unit_to_miles(&pace_range, whole(10), TimeUnit::Minutes).unwrap();
    assert_eq!(miles(minutes.min), 1.0);
    assert_eq!(miles(minutes.max), 1.25);

    let hours = time_unit_to_miles(&pace_range, whole(1), TimeUnit::Hours).unwrap();
    assert_eq!(miles(hours.min), 6.0);
    assert_eq!(miles(hours.max), 7.5);
}

#[test]
fn test_time_to_seconds() {
    assert_eq!(time_to_seconds(whole(90), TimeUnit::Seconds), 90);
    assert_eq!(time_to_seconds(whole(30), TimeUnit::Minutes), 1800);
    assert_eq!(time_to_seconds(whole(2), TimeUnit::Hours), 7200);
    // 1.5 minutes are 90 seconds: 900 tenths of a second.
    assert_eq!(time_to_seconds(dec(15, 1), TimeUnit::Minutes), 900);
}

#[test]
fn test_workout_step_mileage() {
    let map = pace_map();

    let distance_step = WorkoutStep {
        goal: Goal::Distance { value: whole(5), unit: LengthUnit::Miles },
        alert: None,
    };
    let distance_mileage = get_workout_step_mileage(&map, &distance_step).unwrap();
    assert_eq!(miles(distance_mileage.min), 5.0);
    assert_eq!(miles(distance_mileage.max), 5.0);

    let pace_step = minutes(30, Some(Alert::PaceThreshold(per_mile(10 * 60))));
    let pace_mileage = get_workout_step_mileage(&map, &pace_step).unwrap();
    assert_eq!(miles(pace_mileage.min), 3.0);
    assert_eq!(miles(pace_mileage.max), 3.0);

    let hr_step = minutes(60, Some(Alert::HeartRate(HeartRateZone::Z3)));
    let hr_mileage = get_workout_step_mileage(&map, &hr_step).unwrap();
    assert!(miles(hr_mileage.min) >= 6.6 && miles(hr_mileage.min) <= 6.7);
    assert!(miles(hr_mileage.max) >= 8.5 && miles(hr_mileage.max) <= 8.6);
    assert_eq!(hr_mileage, Mileage { min: 6_666_666_667, max: 8_571_428_571 });

    let pace_range_step = minutes(
        30,
        Some(Alert::PaceRange { min: per_mile(10 * 60), max: per_mile(8 * 60) }),
    );
    let pace_range_mileage = get_workout_step_mileage(&map, &pace_range_step).unwrap();
    assert_eq!(miles(pace_range_mileage.min), 3.0);
    assert_eq!(miles(pace_range_mileage.max), 3.75);

    let default_step = minutes(20, None);
    let default_mileage = get_workout_step_mileage(&map, &default_step).unwrap();
    assert_eq!(miles(default_mileage.min), 1.0);
    assert_eq!(miles(default_mileage.max), 2.0);
}

#[test]
fn test_distance_goal_in_every_unit() {
    let map = PaceMap::new(HeartRateZone::Z1);
    let cases = [
        (whole(1), LengthUnit::Miles, 1_000_000_000u64),
        (whole(1000), LengthUnit::Meters, 621_371_000),
        (whole(1), LengthUnit::Kilometers, 621_371_000),
        (whole(100), LengthUnit::Yards, 56_818_200),
        (whole(1000), LengthUnit::Feet, 189_394_000),
        (dec(5, 1), LengthUnit::Miles, 500_000_000),
        (dec(262188, 4), LengthUnit::Miles, 26_218_800_000),
    ];
    for (value, unit, expected) in cases {
        assert_eq!(distance_to_miles(value, unit), expected as u128);
        for alert in [None, Some(Alert::HeartRate(HeartRateZone::Z4))] {
            let step = WorkoutStep { goal: Goal::Distance { value, unit }, alert };
            assert_eq!(
                get_workout_step_mileage(&map, &step),
                Ok(Mileage { min: expected, max: expected })
            );
        }
    }
    assert_eq!(miles(56_818_200), 0.0568182);
    assert_eq!(miles(621_371_000), 0.621371);
}

#[test]
fn test_distance_is_rounded_to_the_nearest() {
    // 0.000000001 feet are 0.000189394 billionths of a mile.
    assert_eq!(distance_to_miles(dec(1, 9), LengthUnit::Feet), 0);
    // 1.5 yards are 852273 billionths of a mile.
    assert_eq!(distance_to_miles(dec(15, 1), LengthUnit::Yards), 852_273);
    // 0.000005 yards are 2.84091 billionths of a mile.
    assert_eq!(distance_to_miles(dec(5, 6), LengthUnit::Yards), 3);
    // 0.000002 yards are 1.136364 billionths of a mile.
    assert_eq!(distance_to_miles(dec(2, 6), LengthUnit::Yards), 1);
    // 0.0005 kilometers are 310685.5 billionths of a mile: a half goes up.
    assert_eq!(distance_to_miles(dec(5, 4), LengthUnit::Kilometers), 310_686);
    // One second at 3 seconds per mile is a third of a mile; two are two thirds.
    let pace = PaceRange { min: per_mile(3), max: per_mile(3) };
    assert_eq!(
        time_unit_to_miles(&pace, whole(1), TimeUnit::Seconds),
        Ok(Mileage { min: 333_333_333, max: 333_333_333 })
    );
    assert_eq!(
        time_unit_to_miles(&pace, whole(2), TimeUnit::Seconds),
        Ok(Mileage { min: 666_666_667, max: 666_666_667 })
    );
}

#[test]
fn test_pace_range_inversion() {
    let mut map = PaceMap::new(HeartRateZone::Z2);
    map.insert(HeartRateZone::Z2, band(600, 480));
    let step = minutes(30, None);
    let mileage = get_workout_step_mileage(&map, &step).unwrap();
    assert_eq!(miles(mileage.min), 3.0);
    assert_eq!(miles(mileage.max), 3.75);

    let workout = Workout { warmup: Some(step), intervals: vec![], cooldown: None };
    assert_eq!(
        dash::mileage::mileage(&map, &workout),
        Ok(Mileage { min: 3_000_000_000, max: 3_750_000_000 })
    );
}

#[test]
fn test_pace_in_other_units() {
    // 5:00 per kilometer for 50 minutes: 10 km.
    let pace = Pace { time: whole(300), unit: LengthUnit::Kilometers };
    let step = minutes(50, Some(Alert::PaceThreshold(pace)));
    let mileage = get_workout_step_mileage(&pace_map(), &step).unwrap();
    assert_eq!(mileage, Mileage { min: 6_213_710_000, max: 6_213_710_000 });

    // 0.25 seconds per meter for 12.5 seconds: 50 meters.
    let pace = Pace { time: dec(25, 2), unit: LengthUnit::Meters };
    let step = WorkoutStep {
        goal: Goal::Duration { value: dec(125, 1), unit: TimeUnit::Seconds },
        alert: Some(Alert::PaceThreshold(pace)),
    };
    let mileage = get_workout_step_mileage(&pace_map(), &step).unwrap();
    assert_eq!(mileage, Mileage { min: 31_068_550, max: 31_068_550 });
}

#[test]
fn test_repeats_scale_linearly() {
    let steps = vec![
        IntervalStep {
            step: minutes(1, Some(Alert::HeartRate(HeartRateZone::Z5))),
            has_recovery: false,
        },
        IntervalStep {
            step: WorkoutStep {
                goal: Goal::Distance { value: dec(5, 1), unit: LengthUnit::Kilometers },
                alert: None,
            },
            has_recovery: true,
        },
    ];
    let map = pace_map();
    let with = |repeats: Option<u32>| {
        let workout = Workout {
            warmup: None,
            intervals: vec![IntervalBlock { repeats, steps: steps.clone() }],
            cooldown: None,
        };
        mileage(&map, &workout).unwrap()
    };
    let once = with(None);
    assert_eq!(once, Mileage { min: 166_666_667 + 310_685_500, max: 200_000_000 + 310_685_500 });
    assert_eq!(with(Some(1)), once);
    assert_eq!(with(Some(0)), Mileage { min: 0, max: 0 });
    for n in [1u32, 2, 3, 7, 50] {
        let single = with(Some(n));
        let double = with(Some(2 * n));
        assert_eq!(single.min, once.min * n as u64);
        assert_eq!(double.min, 2 * single.min);
        assert_eq!(double.max, 2 * single.max);
    }
}

#[test]
fn test_missing_zone_is_an_error() {
    let mut map = PaceMap::new(HeartRateZone::Z1);
    map.insert(HeartRateZone::Z2, band(600, 540));

    let by_zone = minutes(10, Some(Alert::HeartRate(HeartRateZone::Z4)));
    assert_eq!(
        get_workout_step_mileage(&map, &by_zone),
        Err(MileageError::MissingZone(HeartRateZone::Z4))
    );
    let by_default = minutes(10, None);
    assert_eq!(
        get_workout_step_mileage(&map, &by_default),
        Err(MileageError::MissingZone(HeartRateZone::Z1))
    );
    let present = minutes(10, Some(Alert::HeartRate(HeartRateZone::Z2)));
    assert!(get_workout_step_mileage(&map, &present).is_ok());

    let workout = Workout {
        warmup: Some(present),
        intervals: vec![IntervalBlock {
            repeats: Some(0),
            steps: vec![
                IntervalStep { step: present, has_recovery: false },
                IntervalStep { step: by_zone, has_recovery: false },
            ],
        }],
        cooldown: Some(by_default),
    };
    assert_eq!(mileage(&map, &workout), Err(MileageError::MissingZone(HeartRateZone::Z4)));
    assert_eq!(mileage(&map, &workout), Err(MileageError::MissingZone(HeartRateZone::Z4)));
}

#[test]
fn test_zero_pace_is_an_error() {
    let step = minutes(10, Some(Alert::PaceThreshold(per_mile(0))));
    assert_eq!(get_workout_step_mileage(&pace_map(), &step), Err(MileageError::ZeroPace));
    let range = PaceRange { min: per_mile(600), max: per_mile(0) };
    assert_eq!(time_unit_to_miles(&range, whole(1), TimeUnit::Hours), Err(MileageError::ZeroPace));
}

#[test]
fn test_overflow_is_an_error() {
    // A billion miles, four billion times over, twice.
    let far = IntervalStep {
        step: WorkoutStep {
            goal: Goal::Distance { value: whole(1_000_000_000), unit: LengthUnit::Miles },
            alert: None,
        },
        has_recovery: false,
    };
    let block = IntervalBlock { repeats: Some(4_000_000_000), steps: vec![far] };
    let workout = Workout { warmup: None, intervals: vec![block.clone()], cooldown: None };
    assert_eq!(mileage(&pace_map(), &workout), Err(MileageError::Overflow));

    let fits = IntervalBlock { repeats: Some(18), steps: vec![far] };
    let workout = Workout { warmup: None, intervals: vec![fits.clone()], cooldown: None };
    assert_eq!(
        mileage(&pace_map(), &workout),
        Ok(Mileage { min: 18_000_000_000_000_000_000, max: 18_000_000_000_000_000_000 })
    );
    let workout = Workout { warmup: None, intervals: vec![fits.clone(), fits], cooldown: None };
    assert_eq!(mileage(&pace_map(), &workout), Err(MileageError::Overflow));

    // A missing zone later in the workout still comes first.
    let workout = Workout {
        warmup: None,
        intervals: vec![block],
        cooldown: Some(minutes(1, Some(Alert::HeartRate(HeartRateZone::Z3)))),
    };
    let map = PaceMap::new(HeartRateZone::Z1);
    assert_eq!(mileage(&map, &workout), Err(MileageError::MissingZone(HeartRateZone::Z3)));
}

#[test]
fn test_pace_map() {
    let mut map = PaceMap::new(HeartRateZone::Z2);
    assert_eq!(map.default_zone(), HeartRateZone::Z2);
    assert!(!map.has_default());
    assert_eq!(map.get(HeartRateZone::Z2), None);
    assert_eq!(map.insert(HeartRateZone::Z2, band(600, 540)), None);
    assert!(map.has_default());
    assert_eq!(map.get(HeartRateZone::Z2), Some(band(600, 540)));
    assert_eq!(map.insert(HeartRateZone::Z2, band(500, 400)), Some(band(600, 540)));
    assert_eq!(map.get(HeartRateZone::Z2), Some(band(500, 400)));
    assert_eq!(map.get(HeartRateZone::Z3), None);
}

#[test]
fn test_decimal() {
    let d = dec(262188, 4);
    assert_eq!(d.mantissa(), 262188);
    assert_eq!(d.scale(), 4);
    assert_eq!(Decimal::new(9_007_199_254_740_991, 9).map(|d| d.mantissa()), Some(9_007_199_254_740_991));
    assert_eq!(Decimal::new(9_007_199_254_740_992, 0), None);
    assert_eq!(Decimal::new(1, 10), None);
    assert_eq!(whole(7), dec(7, 0));
    for n in 1u8..=5 {
        assert_eq!(HeartRateZone::from_number(n).map(|z| z.number()), Some(n));
    }
    assert_eq!(HeartRateZone::from_number(0), None);
    assert_eq!(HeartRateZone::from_number(6), None);
}

#[test]
fn test_mileage_error_messages() {
    assert_eq!(
        MileageError::MissingZone(HeartRateZone::Z4).message(),
        "the pace map has no pace for zone z4"
    );
    assert_eq!(MileageError::ZeroPace.message(), "a pace of zero seconds per unit of distance");
    assert_eq!(MileageError::Overflow.message(), "the distance is too large to be told");
    let zones = [
        HeartRateZone::Z1,
        HeartRateZone::Z2,
        HeartRateZone::Z3,
        HeartRateZone::Z4,
        HeartRateZone::Z5,
    ];
    for (n, zone) in zones.iter().enumerate() {
        assert_eq!(
            MileageError::MissingZone(*zone).message(),
            format!("the pace map has no pace for zone z{}", n + 1)
        );
    }
}

#[test]
fn test_get_mileage_is_the_estimate() {
    let workout = Workout {
        warmup: Some(minutes(10, Some(Alert::HeartRate(HeartRateZone::Z2)))),
        intervals: vec![IntervalBlock {
            repeats: Some(2),
            steps: vec![IntervalStep { step: minutes(9, None), has_recovery: false }],
        }],
        cooldown: None,
    };
    let estimate = get_mileage(&pace_map(), &workout);
    assert_eq!(estimate, mileage(&pace_map(), &workout));
    assert_eq!(estimate, Ok(Mileage { min: 1_000_000_000 + 900_000_000, max: 1_111_111_111 + 1_800_000_000 }));
    let empty = PaceMap::new(HeartRateZone::Z1);
    assert_eq!(get_mileage(&empty, &workout), Err(MileageError::MissingZone(HeartRateZone::Z2)));
}

#[test]
fn test_complete_pace_map() {
    assert!(pace_map().is_complete());
    let mut map = PaceMap::new(HeartRateZone::Z2);
    assert!(!map.is_complete());
    map.insert(HeartRateZone::Z1, band(600, 540));
    map.insert(HeartRateZone::Z2, band(600, 540));
    map.insert(HeartRateZone::Z3, band(600, 540));
    map.insert(HeartRateZone::Z4, band(600, 540));
    assert!(!map.is_complete());
    assert!(map.has_default());
    map.insert(HeartRateZone::Z5, band(600, 540));
    assert!(map.is_complete());
}

#[test]
fn test_paces_in_order_give_distances_in_order() {
    let workout = Workout {
        warmup: Some(minutes(10, None)),
        intervals: vec![IntervalBlock {
            repeats: Some(4),
            steps: vec![
                IntervalStep {
                    step: minutes(3, Some(Alert::HeartRate(HeartRateZone::Z4))),
                    has_recovery: false,
                },
                IntervalStep {
                    step: minutes(2, Some(Alert::PaceRange { min: per_mile(660), max: per_mile(600) })),
                    has_recovery: true,
                },
            ],
        }],
        cooldown: Some(minutes(5, Some(Alert::PaceThreshold(per_mile(600))))),
    };
    let estimate = mileage(&pace_map(), &workout).unwrap();
    assert!(estimate.min <= estimate.max);
    assert_eq!(estimate.min, 500_000_000 + 4 * (428_571_429 + 181_818_182) + 500_000_000);
    assert_eq!(estimate.max, 1_000_000_000 + 4 * (500_000_000 + 200_000_000) + 500_000_000);

    let mut backwards = PaceMap::new(HeartRateZone::Z1);
    backwards.insert(HeartRateZone::Z1, band(480, 600));
    let step = minutes(30, None);
    let estimate = get_workout_step_mileage(&backwards, &step).unwrap();
    assert_eq!(estimate, Mileage { min: 3_750_000_000, max: 3_000_000_000 });
}
