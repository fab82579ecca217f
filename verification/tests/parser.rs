use dash::models::{
    Alert, Decimal, Goal, HeartRateZone, IntervalBlock, IntervalStep, LengthUnit, Pace, TimeUnit,
    Workout, WorkoutStep,
};
use dash::parser::error::{ParseError, Rule, RuleSet};
use dash::parser::lexer::{
    parse_heart_rate_zone, parse_length_unit, parse_time_unit, tokenize, Token, TokenKind,
};
use dash::parser::message::{get_workout, number_text, UniffiError};
use dash::parser::{parse_time_str, parse_workout, DashParser};

fn value(d: Decimal) -> f64 {
    d.mantissa() as f64 / 10f64.powi(d.scale() as i32)
}

fn dec(mantissa: u64, scale: u8) -> Decimal {
    Decimal::new(mantissa, scale).unwrap()
}

fn distance(mantissa: u64, scale: u8, unit: LengthUnit) -> Goal {
    Goal::Distance { value: dec(mantissa, scale), unit }
}

fn syntax(position: usize, rules: &[Rule]) -> ParseError {
    let mut expected = RuleSet::empty();
    for rule in rules {
        expected = expected.with(*rule);
    }
    ParseError::Syntax { position, expected }
}

#[test]
fn test_parse_workout() {
    let input = "1 mile warmup + 3 x (0.5 miles @z3 + 1 mile recovery) + 0.5 miles cooldown";
    let result = parse_workout(input);
    assert!(result.is_ok());

    let workout = result.unwrap();
    assert!(workout.warmup.is_some());
    assert_eq!(workout.intervals.len(), 1);
    assert!(workout.cooldown.is_some());

    let interval = &workout.intervals[0];
    assert_eq!(interval.repeats, Some(3));
    assert_eq!(interval.steps.len(), 2);

    if let Some(Alert::HeartRate(zone)) = &interval.steps[0].step.alert {
        assert!(matches!(zone, HeartRateZone::Z3));
    }
    assert!(interval.steps[1].has_recovery);

    let expected = Workout {
        warmup: Some(WorkoutStep { goal: distance(1, 0, LengthUnit::Miles), alert: None }),
        intervals: vec![IntervalBlock {
            repeats: Some(3),
            steps: vec![
                IntervalStep {
                    step: WorkoutStep {
                        goal: distance(5, 1, LengthUnit::Miles),
                        alert: Some(Alert::HeartRate(HeartRateZone::Z3)),
                    },
                    has_recovery: false,
                },
                IntervalStep {
                    step: WorkoutStep { goal: distance(1, 0, LengthUnit::Miles), alert: None },
                    has_recovery: true,
                },
            ],
        }],
        cooldown: Some(WorkoutStep { goal: distance(5, 1, LengthUnit::Miles), alert: None }),
    };
    assert_eq!(workout, expected);
}

#[test]
fn test_parse_workout_without_warmup_cooldown() {
    let input = "3 x (0.5 miles @z3 + 1 mile recovery)";
    let result = parse_workout(input);
    assert!(result.is_ok());

    let workout = result.unwrap();
    assert!(workout.warmup.is_none());
    assert_eq!(workout.intervals.len(), 1);
    assert_eq!(workout.intervals[0].repeats, Some(3));
    assert!(workout.cooldown.is_none());
}

#[test]
fn test_parse_workout_with_duration_goal() {
    let input =
        "30 minutes warmup + 3 x (5 minutes @z4 + 2 minutes recovery) + 15 minutes cooldown";
    let result = parse_workout(input);
    assert!(result.is_ok());

    let workout = result.unwrap();
    let warmup = workout.warmup.unwrap();
    match warmup.goal {
        Goal::Duration { value: v, unit } => {
            assert_eq!(value(v), 30.0);
            assert!(matches!(unit, TimeUnit::Minutes));
        }
        _ => unreachable!(),
    }
    match workout.cooldown.unwrap().goal {
        Goal::Duration { value: v, unit } => {
            assert_eq!(value(v), 15.0);
            assert_eq!(unit, TimeUnit::Minutes);
        }
        _ => unreachable!(),
    }
}

#[test]
fn test_parse_workout_with_pace_threshold() {
    let input = "1 mile @7:30/mile";
    let result = parse_workout(input);
    assert!(result.is_ok());

    let workout = result.unwrap();
    let step = &workout.intervals[0].steps[0].step;
    match &step.alert {
        Some(Alert::PaceThreshold(pace)) => {
            assert_eq!(value(pace.time), 450.0);
            assert!(matches!(pace.unit, LengthUnit::Miles));
        }
        _ => unreachable!(),
    }
}

#[test]
fn test_parse_workout_with_pace_range() {
    let input = "1 mile @7:30-8:00/mile";
    let result = parse_workout(input);
    assert!(result.is_ok());

    let workout = result.unwrap();
    let step = &workout.intervals[0].steps[0].step;
    match &step.alert {
        Some(Alert::PaceRange { min, max }) => {
            assert_eq!(value(min.time), 450.0);
            assert_eq!(value(max.time), 480.0);
            assert!(matches!(min.unit, LengthUnit::Miles));
            assert!(matches!(max.unit, LengthUnit::Miles));
        }
        _ => unreachable!(),
    }
}

#[test]
fn test_parse_workout_with_all_heart_rate_zones() {
    let input = "1 mile @z1 + 1 mile @z2 + 1 mile @z3 + 1 mile @z4 + 1 mile @z5";
    let result = parse_workout(input);
    assert!(result.is_ok());

    let workout = result.unwrap();
    assert_eq!(workout.intervals.len(), 5);

    let expected_zones = [
        HeartRateZone::Z1,
        HeartRateZone::Z2,
        HeartRateZone::Z3,
        HeartRateZone::Z4,
        HeartRateZone::Z5,
    ];

    for (interval, expected_zone) in workout.intervals.iter().zip(expected_zones.iter()) {
        assert_eq!(interval.repeats, None);
        match &interval.steps[0].step.alert {
            Some(Alert::HeartRate(zone)) => assert_eq!(zone, expected_zone),
            _ => unreachable!(),
        }
    }
}

#[test]
fn test_parse_workout_with_different_length_units() {
    let input = "1 mile + 1000 meters + 100 yards + 1000 feet + 1 kilometer";
    let result = parse_workout(input);
    assert!(result.is_ok());

    let workout = result.unwrap();
    assert_eq!(workout.intervals.len(), 5);

    let expected_units = [
        LengthUnit::Miles,
        LengthUnit::Meters,
        LengthUnit::Yards,
        LengthUnit::Feet,
        LengthUnit::Kilometers,
    ];

    for (interval, expected_unit) in workout.intervals.iter().zip(expected_units.iter()) {
        match &interval.steps[0].step.goal {
            Goal::Distance { unit, .. } => assert_eq!(unit, expected_unit),
            _ => unreachable!(),
        }
    }
}

#[test]
fn test_parse_workout_with_different_time_units() {
    let input = "30 seconds + 5 minutes + 1 hour";
    let result = parse_workout(input);
    assert!(result.is_ok());

    let workout = result.unwrap();
    assert_eq!(workout.intervals.len(), 3);

    let expected_units = [TimeUnit::Seconds, TimeUnit::Minutes, TimeUnit::Hours];

    for (interval, expected_unit) in workout.intervals.iter().zip(expected_units.iter()) {
        match &interval.steps[0].step.goal {
            Goal::Duration { unit, .. } => assert_eq!(unit, expected_unit),
            _ => unreachable!(),
        }
    }
}

#[test]
fn test_parse_workout_with_multiple_intervals() {
    let input = "1 mile warmup + 3 x (0.5 miles @z3 + 1 mile recovery) + 2 x (1 mile @z4) + 0.5 miles cooldown";
    let result = parse_workout(input);
    assert!(result.is_ok());

    let workout = result.unwrap();
    assert_eq!(workout.intervals.len(), 2);

    let first_interval = &workout.intervals[0];
    assert_eq!(first_interval.repeats, Some(3));
    assert_eq!(first_interval.steps.len(), 2);
    match &first_interval.steps[0].step.alert {
        Some(Alert::HeartRate(zone)) => assert!(matches!(zone, HeartRateZone::Z3)),
        _ => unreachable!(),
    }

    let second_interval = &workout.intervals[1];
    assert_eq!(second_interval.repeats, Some(2));
    assert_eq!(second_interval.steps.len(), 1);
    match &second_interval.steps[0].step.alert {
        Some(Alert::HeartRate(zone)) => assert!(matches!(zone, HeartRateZone::Z4)),
        _ => unreachable!(),
    }
}

#[test]
fn test_parse_workout_with_invalid_input() {
    let invalid_inputs = [
        "",
        "invalid",
        "1 mile @invalid",
        "1 @z3",
        "1 mile @7:invalid/mile",
        "1 mile @7:30-8:invalid/mile",
    ];

    for input in invalid_inputs {
        let result = parse_workout(input);
        assert!(result.is_err(), "Expected error for input: {}", input);
        assert!(matches!(result, Err(ParseError::Syntax { .. })), "input: {}", input);
    }
}

#[test]
fn test_syntax_errors_name_place_and_rules() {
    assert_eq!(parse_workout(""), Err(syntax(0, &[Rule::Number])));
    assert_eq!(parse_workout("   "), Err(syntax(3, &[Rule::Number])));
    assert_eq!(parse_workout("invalid"), Err(syntax(0, &[Rule::Number])));
    assert_eq!(parse_workout("1 mile @invalid"), Err(syntax(8, &[Rule::Zone, Rule::Time])));
    assert_eq!(parse_workout("1 @z3"), Err(syntax(2, &[Rule::LengthUnit, Rule::TimeUnit])));
    assert_eq!(
        parse_workout("1 mile @7:invalid/mile"),
        Err(syntax(8, &[Rule::Zone, Rule::Time]))
    );
    assert_eq!(parse_workout("1 mile @7:30-8:invalid/mile"), Err(syntax(13, &[Rule::Time])));
    assert_eq!(parse_workout("1 mile @7:30"), Err(syntax(12, &[Rule::Dash, Rule::Slash])));
    assert_eq!(parse_workout("1 mile @7:30/"), Err(syntax(13, &[Rule::LengthUnit])));
    assert_eq!(parse_workout("1 mile @7:30/minute"), Err(syntax(13, &[Rule::LengthUnit])));
    assert_eq!(parse_workout("1 mile @7:30-8:00"), Err(syntax(17, &[Rule::Slash])));
    assert_eq!(parse_workout("3 x 1 mile"), Err(syntax(4, &[Rule::Open])));
    assert_eq!(parse_workout("3 x (1 mile"), Err(syntax(11, &[Rule::Plus, Rule::Close])));
    assert_eq!(parse_workout("3 x ()"), Err(syntax(5, &[Rule::Number])));
    assert_eq!(parse_workout("1 mile +"), Err(syntax(8, &[Rule::Number])));
    assert_eq!(parse_workout("1 mile 2 miles"), Err(syntax(14, &[Rule::Cooldown])));
    assert_eq!(parse_workout("1 mile 2 miles @z9"), Err(syntax(16, &[Rule::Zone, Rule::Time])));
    assert_eq!(parse_workout("1 mile 2"), Err(syntax(8, &[Rule::LengthUnit, Rule::TimeUnit])));
    assert_eq!(parse_workout("1 mile + 2 miles cooldown 3"), Err(syntax(26, &[Rule::End])));
    assert_eq!(parse_workout("1 mile @z1 @z2"), Err(syntax(11, &[Rule::Plus, Rule::End])));
    assert_eq!(parse_workout("1 mile ?"), Err(syntax(7, &[Rule::Plus, Rule::End])));
    assert_eq!(parse_workout("1.5 x (1 mile)"), Err(syntax(4, &[Rule::LengthUnit, Rule::TimeUnit])));
    assert_eq!(parse_workout("1 Mile"), Err(syntax(2, &[Rule::LengthUnit, Rule::TimeUnit])));
    let e = parse_workout("1 mile @invalid").unwrap_err();
    assert_eq!(e.position(), 8);
}

#[test]
fn test_recovery_marks_the_step_before() {
    assert_eq!(parse_workout("recovery"), Err(syntax(0, &[Rule::Number])));
    assert_eq!(parse_workout("3 x (recovery)"), Err(syntax(5, &[Rule::Number])));
    assert_eq!(
        parse_workout("3 x (1 mile recovery recovery)"),
        Err(syntax(21, &[Rule::Plus, Rule::Close]))
    );
    let workout = parse_workout("2 x (1 mile recovery + 1 mile + 2 minutes recovery)").unwrap();
    let marks: Vec<bool> = workout.intervals[0].steps.iter().map(|s| s.has_recovery).collect();
    assert_eq!(marks, vec![true, false, true]);
    let workout = parse_workout("1 mile recovery").unwrap();
    assert_eq!(workout.intervals[0].repeats, None);
    assert!(workout.intervals[0].steps[0].has_recovery);
}

#[test]
fn test_warmup_and_cooldown_need_a_block() {
    assert_eq!(parse_workout("1 mile warmup"), Err(syntax(13, &[Rule::Number])));
    assert_eq!(parse_workout("1 mile warmup +"), Err(syntax(15, &[Rule::Number])));
    assert_eq!(parse_workout("1 mile cooldown"), Err(syntax(7, &[Rule::Plus, Rule::End])));
    assert_eq!(
        parse_workout("1 mile warmup + 1 mile cooldown"),
        Err(syntax(23, &[Rule::Plus, Rule::End]))
    );
    assert_eq!(
        parse_workout("1 mile + 1 mile warmup"),
        Err(syntax(16, &[Rule::Plus, Rule::End]))
    );
    assert_eq!(
        parse_workout("1 mile + 1 mile cooldown + 1 mile"),
        Err(syntax(25, &[Rule::End]))
    );
}

#[test]
fn test_plus_is_free_after_warmup_and_before_cooldown() {
    let with = parse_workout("10 minutes warmup + 2 x (1 mile) + 5 minutes cooldown").unwrap();
    let without = parse_workout("10 minutes warmup 2 x (1 mile) 5 minutes cooldown").unwrap();
    assert_eq!(with, without);
    assert!(with.warmup.is_some() && with.cooldown.is_some());
    assert_eq!(with.intervals.len(), 1);
    assert_eq!(
        parse_workout("1 mile 2 x (1 mile)"),
        Err(syntax(9, &[Rule::LengthUnit, Rule::TimeUnit]))
    );
}

#[test]
fn test_blanks_mean_nothing() {
    let tight = parse_workout("1milewarmup+3x(0.5miles@z3+1milerecovery)+0.5milescooldown").unwrap();
    let loose = parse_workout(
        "  1 mile warmup\n+ 3 x ( 0.5 miles @ z3 +\t1 mile recovery )\r\n+ 0.5 miles cooldown  ",
    )
    .unwrap();
    let plain = parse_workout(
        "1 mile warmup + 3 x (0.5 miles @z3 + 1 mile recovery) + 0.5 miles cooldown",
    )
    .unwrap();
    assert_eq!(tight, plain);
    assert_eq!(loose, plain);
    assert_eq!(parse_workout("1 mile @7: 30/mile"), Err(syntax(8, &[Rule::Zone, Rule::Time])));
    assert_eq!(parse_workout("1 . 5 miles"), Err(syntax(2, &[Rule::LengthUnit, Rule::TimeUnit])));
}

#[test]
fn test_numbers_are_read_exactly() {
    let workout = parse_workout("26.2188 miles + 0.000000001 miles + 007 km + 1.50 hours").unwrap();
    let goals: Vec<Goal> = workout.intervals.iter().map(|b| b.steps[0].step.goal).collect();
    assert_eq!(
        goals,
        vec![
            distance(262188, 4, LengthUnit::Miles),
            distance(1, 9, LengthUnit::Miles),
            distance(7, 0, LengthUnit::Kilometers),
            Goal::Duration { value: dec(150, 2), unit: TimeUnit::Hours },
        ]
    );
    assert_eq!(value(dec(262188, 4)), 26.2188);
}

#[test]
fn test_numbers_out_of_range() {
    assert_eq!(
        parse_workout("1 mile + 9007199254740992 miles"),
        Err(ParseError::OutOfRange { position: 9 })
    );
    assert!(parse_workout("9007199254740991 miles").is_ok());
    assert_eq!(
        parse_workout("0.0000000001 miles"),
        Err(ParseError::OutOfRange { position: 0 })
    );
    assert_eq!(
        parse_workout("123456789012345678901234567890 miles"),
        Err(ParseError::OutOfRange { position: 0 })
    );
    assert_eq!(
        parse_workout("4294967296 x (1 mile)"),
        Err(ParseError::OutOfRange { position: 0 })
    );
    assert_eq!(parse_workout("4294967295 x (1 mile)").unwrap().intervals[0].repeats, Some(4294967295));
    assert_eq!(parse_workout("0 x (1 mile)").unwrap().intervals[0].repeats, Some(0));
    assert_eq!(
        parse_workout("1 mile @150119987579016:32/mile"),
        Err(ParseError::OutOfRange { position: 8 })
    );
    assert!(parse_workout("1 mile @150119987579016:31/mile").is_ok());
    // A place where the text goes wrong comes before a number out of range.
    assert_eq!(
        parse_workout("9007199254740992 z1"),
        Err(syntax(17, &[Rule::LengthUnit, Rule::TimeUnit]))
    );
}

#[test]
fn test_parse_time_str() {
    assert_eq!(parse_time_str("7:30"), Ok(dec(450, 0)));
    assert_eq!(parse_time_str("8:00"), Ok(dec(480, 0)));
    assert_eq!(parse_time_str("0:05"), Ok(dec(5, 0)));
    assert_eq!(parse_time_str("10:5"), Ok(dec(605, 0)));
    assert_eq!(parse_time_str("1:90"), Ok(dec(150, 0)));
    assert_eq!(parse_time_str(""), Err(syntax(0, &[Rule::Time])));
    assert_eq!(parse_time_str("730"), Err(syntax(0, &[Rule::Time])));
    assert_eq!(parse_time_str("7:"), Err(syntax(0, &[Rule::Time])));
    assert_eq!(parse_time_str(":30"), Err(syntax(0, &[Rule::Time])));
    assert_eq!(parse_time_str("7:invalid"), Err(syntax(0, &[Rule::Time])));
    assert_eq!(parse_time_str("a:30"), Err(syntax(0, &[Rule::Time])));
    assert_eq!(parse_time_str(" 7:30"), Err(syntax(0, &[Rule::Time])));
    assert_eq!(parse_time_str("7:30 "), Err(syntax(4, &[Rule::End])));
    assert_eq!(parse_time_str("7:30:15"), Err(syntax(4, &[Rule::End])));
    assert_eq!(parse_time_str("7:30.5"), Err(syntax(4, &[Rule::End])));
    assert_eq!(
        parse_time_str("99999999999999999999:00"),
        Err(ParseError::OutOfRange { position: 0 })
    );
}

#[test]
fn test_unit_and_zone_names() {
    let lengths = [
        ("miles", LengthUnit::Miles),
        ("mile", LengthUnit::Miles),
        ("yards", LengthUnit::Yards),
        ("yard", LengthUnit::Yards),
        ("feet", LengthUnit::Feet),
        ("foot", LengthUnit::Feet),
        ("meters", LengthUnit::Meters),
        ("meter", LengthUnit::Meters),
        ("kilometers", LengthUnit::Kilometers),
        ("kilometer", LengthUnit::Kilometers),
        ("km", LengthUnit::Kilometers),
    ];
    for (name, unit) in lengths {
        assert_eq!(parse_length_unit(name.as_bytes(), 0), Some((unit, name.len())));
        assert_eq!(parse_time_unit(name.as_bytes(), 0), None);
        let padded = format!("1 {}", name);
        assert_eq!(parse_length_unit(padded.as_bytes(), 2), Some((unit, name.len())));
        assert_eq!(parse_length_unit(padded.as_bytes(), 1), None);
    }
    let times = [
        ("seconds", TimeUnit::Seconds),
        ("second", TimeUnit::Seconds),
        ("minutes", TimeUnit::Minutes),
        ("minute", TimeUnit::Minutes),
        ("hours", TimeUnit::Hours),
        ("hour", TimeUnit::Hours),
    ];
    for (name, unit) in times {
        assert_eq!(parse_time_unit(name.as_bytes(), 0), Some((unit, name.len())));
        assert_eq!(parse_length_unit(name.as_bytes(), 0), None);
    }
    let zones = [
        ("z1", HeartRateZone::Z1),
        ("z2", HeartRateZone::Z2),
        ("z3", HeartRateZone::Z3),
        ("z4", HeartRateZone::Z4),
        ("z5", HeartRateZone::Z5),
    ];
    for (name, zone) in zones {
        assert_eq!(parse_heart_rate_zone(name.as_bytes(), 0), Some((zone, 2)));
    }
    assert_eq!(parse_heart_rate_zone(b"z6", 0), None);
    assert_eq!(parse_heart_rate_zone(b"z", 0), None);
    assert_eq!(parse_heart_rate_zone(b"Z1", 0), None);
    assert_eq!(parse_length_unit(b"mil", 0), None);
    assert_eq!(parse_length_unit(b"miles", 9), None);
    assert_eq!(parse_length_unit(b"", 0), None);
}

#[test]
fn test_tokenize() {
    let tokens = tokenize(b"3 x (0.5 miles @z3)");
    let kinds: Vec<TokenKind> = tokens.iter().map(|t| t.kind).collect();
    assert_eq!(
        kinds,
        vec![
            TokenKind::Number { integer: true, value: Some(dec(3, 0)) },
            TokenKind::Times,
            TokenKind::Open,
            TokenKind::Number { integer: false, value: Some(dec(5, 1)) },
            TokenKind::Length(LengthUnit::Miles),
            TokenKind::At,
            TokenKind::Zone(HeartRateZone::Z3),
            TokenKind::Close,
            TokenKind::End,
        ]
    );
    let spans: Vec<(usize, usize)> = tokens.iter().map(|t| (t.start, t.end)).collect();
    assert_eq!(
        spans,
        vec![(0, 1), (2, 3), (4, 5), (5, 8), (9, 14), (15, 16), (16, 18), (18, 19), (19, 19)]
    );
    assert_eq!(
        tokenize(b"7:30-8:00/km"),
        vec![
            Token { kind: TokenKind::Time(Some(dec(450, 0))), start: 0, end: 4 },
            Token { kind: TokenKind::Dash, start: 4, end: 5 },
            Token { kind: TokenKind::Time(Some(dec(480, 0))), start: 5, end: 9 },
            Token { kind: TokenKind::Slash, start: 9, end: 10 },
            Token { kind: TokenKind::Length(LengthUnit::Kilometers), start: 10, end: 12 },
            Token { kind: TokenKind::End, start: 12, end: 12 },
        ]
    );
    assert_eq!(tokenize(b""), vec![Token { kind: TokenKind::End, start: 0, end: 0 }]);
    assert_eq!(
        tokenize(b" 1 ? 2"),
        vec![
            Token {
                kind: TokenKind::Number { integer: true, value: Some(dec(1, 0)) },
                start: 1,
                end: 2
            },
            Token { kind: TokenKind::Invalid, start: 3, end: 3 },
        ]
    );
    assert_eq!(DashParser::tokenize("1 mile"), tokenize(b"1 mile"));
}

#[test]
fn test_parse_tokens() {
    let tokens = tokenize(b"5 minutes @z2");
    let workout = DashParser::parse(&tokens).unwrap();
    assert_eq!(workout, parse_workout("5 minutes @z2").unwrap());
    // A list that ends without an end token reads as if it had one.
    let workout = DashParser::parse(&tokens[..4]).unwrap();
    assert_eq!(workout.intervals.len(), 1);
    assert_eq!(DashParser::parse(&tokens[..3]), Err(syntax(11, &[Rule::Zone, Rule::Time])));
    assert_eq!(DashParser::parse(&[]), Err(syntax(0, &[Rule::Number])));
}

#[test]
fn test_rule_sets() {
    let set = RuleSet::of(Rule::Plus).with(Rule::Close);
    assert!(set.contains(Rule::Plus));
    assert!(set.contains(Rule::Close));
    assert!(!set.contains(Rule::Open));
    assert!(!RuleSet::empty().contains(Rule::Number));
    assert_eq!(set.with(Rule::Plus), set);
    assert_eq!(Rule::End.bit(), 0x8000);
}

#[test]
fn test_pace_range_keeps_one_unit() {
    let workout = parse_workout("20 minutes @4:30-5:00/km").unwrap();
    assert_eq!(
        workout.intervals[0].steps[0].step.alert,
        Some(Alert::PaceRange {
            min: Pace { time: dec(270, 0), unit: LengthUnit::Kilometers },
            max: Pace { time: dec(300, 0), unit: LengthUnit::Kilometers },
        })
    );
}

#[test]
fn test_error_messages() {
    assert_eq!(
        parse_workout("1 mile @invalid").unwrap_err().message(),
        "at byte 8: expected a time as minutes:seconds or a heart-rate zone"
    );
    assert_eq!(parse_workout("").unwrap_err().message(), "at byte 0: expected a number");
    assert_eq!(
        parse_workout("3 x (1 mile").unwrap_err().message(),
        "at byte 11: expected `)` or `+`"
    );
    assert_eq!(
        parse_workout("1 mile 2 miles").unwrap_err().message(),
        "at byte 14: expected `cooldown`"
    );
    assert_eq!(
        parse_workout("1 mile + 9007199254740992 miles").unwrap_err().message(),
        "at byte 9: the number is too large or has too many decimal places"
    );
    let every = [
        Rule::Number,
        Rule::Time,
        Rule::LengthUnit,
        Rule::TimeUnit,
        Rule::Zone,
        Rule::Times,
        Rule::Open,
        Rule::Close,
        Rule::Plus,
        Rule::At,
        Rule::Dash,
        Rule::Slash,
        Rule::Warmup,
        Rule::Cooldown,
        Rule::Recovery,
        Rule::End,
    ];
    let mut set = RuleSet::empty();
    assert_eq!(set.names(), "");
    for rule in every {
        assert_eq!(RuleSet::of(rule).names(), rule.name());
        set = set.with(rule);
    }
    let names: Vec<&str> = every.iter().map(|rule| rule.name()).collect();
    assert_eq!(set.names(), names.join(" or "));
}

#[test]
fn test_number_text() {
    for n in [0usize, 1, 9, 10, 11, 99, 100, 101, 12345, 1000000, usize::MAX] {
        assert_eq!(number_text(n), format!("{}", n));
    }
}

#[test]
fn test_get_workout() {
    assert_eq!(get_workout("5 minutes @z2").ok(), parse_workout("5 minutes @z2").ok());
    assert_eq!(
        get_workout("1 @z3"),
        Err(UniffiError::Parsing(
            "at byte 2: expected a unit of distance or a unit of time".to_string()
        ))
    );
}

#[test]
fn test_written_workouts_read_back() {
    let step = |text: &str| parse_workout(text).unwrap().intervals[0].steps[0].step;
    let workout = Workout {
        warmup: Some(step("10 minutes @z1")),
        intervals: vec![
            IntervalBlock {
                repeats: Some(4),
                steps: vec![
                    IntervalStep { step: step("400 meters @1:30-1:40/km"), has_recovery: false },
                    IntervalStep { step: step("90 seconds"), has_recovery: true },
                ],
            },
            IntervalBlock {
                repeats: None,
                steps: vec![IntervalStep { step: step("1 mile @7:30/mile"), has_recovery: true }],
            },
        ],
        cooldown: Some(step("0.5 miles")),
    };
    let blocks = "4 x (400 meters @1:30-1:40/km + 90 seconds recovery) + 1 mile @7:30/mile recovery";
    for after_warmup in [" + ", " "] {
        for before_cooldown in [" + ", " "] {
            let text = format!(
                "10 minutes @z1 warmup{}{}{}0.5 miles cooldown",
                after_warmup, blocks, before_cooldown
            );
            assert_eq!(parse_workout(&text), Ok(workout.clone()), "{}", text);
        }
    }
}

#[test]
fn test_nothing_after_a_syntax_error_matters() {
    let blamed = [
        ("1 mile @ x", syntax(9, &[Rule::Zone, Rule::Time])),
        ("3 x 1", syntax(4, &[Rule::Open])),
        ("1 mile + )", syntax(9, &[Rule::Number])),
        ("2 x (1 mile recovery recovery", syntax(21, &[Rule::Plus, Rule::Close])),
        ("1 mile warmup + 5 minutes @7:30 +", syntax(32, &[Rule::Dash, Rule::Slash])),
        ("1 mile + 2 miles cooldown +", syntax(26, &[Rule::End])),
        ("1 mile 2 miles warmup", syntax(15, &[Rule::Cooldown])),
    ];
    let endings = ["", " ", " 1 mile", " + 1 mile cooldown", " ) + 2 miles", " @z3", " ???", " x (1 km)"];
    for (start, error) in &blamed {
        for ending in &endings {
            let input = format!("{}{}", start, ending);
            assert_eq!(parse_workout(&input), Err(*error), "{}", input);
        }
    }
}

#[test]
fn test_what_a_syntax_error_names_could_stand_there() {
    let cases: [(&str, &str, &[(Rule, &str)]); 12] = [
        ("", "?", &[(Rule::Number, "1 mile")]),
        ("1 ", "?", &[(Rule::LengthUnit, "mile"), (Rule::TimeUnit, "minutes")]),
        ("1 mile @ ", "?", &[(Rule::Zone, "z1"), (Rule::Time, "1:00/mile")]),
        ("1 mile @7:30 ", "?", &[(Rule::Dash, "- 1:00/mile"), (Rule::Slash, "/mile")]),
        ("1 mile @7:30 - ", "?", &[(Rule::Time, "1:00/mile")]),
        ("1 mile @7:30 - 8:00 ", "?", &[(Rule::Slash, "/mile")]),
        ("1 mile @7:30 / ", "?", &[(Rule::LengthUnit, "mile")]),
        ("3 x ", "?", &[(Rule::Open, "(1 mile)")]),
        ("3 x (1 mile ", "?", &[(Rule::Plus, "+ 1 mile)"), (Rule::Close, ")")]),
        ("1 mile warmup + 2 miles ", "?", &[(Rule::Plus, "+ 1 mile"), (Rule::End, "")]),
        ("1 mile 2 miles ", "?", &[(Rule::Cooldown, "cooldown")]),
        ("1 mile + 2 miles cooldown ", "?", &[(Rule::End, "")]),
    ];
    for (start, wrong, ways) in &cases {
        let rules: Vec<Rule> = ways.iter().map(|(rule, _)| *rule).collect();
        let input = format!("{}{}", start, wrong);
        assert_eq!(parse_workout(&input), Err(syntax(start.len(), &rules)), "{}", input);
        for (_, right) in ways.iter() {
            let input = format!("{}{}", start, right);
            assert!(parse_workout(&input).is_ok(), "{}", input);
        }
    }
}
