//! The mileage estimator: the least and the greatest distance a workout
//! covers, for an athlete whose paces are given by a [`PaceMap`].
//!
//! Distances are counted in billionths of a mile, so that every conversion
//! factor is a whole number. A step's distance is worked out exactly and
//! rounded once, to the nearest billionth of a mile.

use crate::models::{
    pow10, power_of_ten, Alert, Decimal, Goal, HeartRateZone, IntervalBlock, IntervalBlockView,
    IntervalStep, LengthUnit, Mileage, Pace, PaceMap, PaceMapView, PaceRange, TimeUnit, Workout,
    WorkoutStep, WorkoutView,
};
use vstd::prelude::*;
use vstd::string::StringExecFns;

pub mod laws;

verus! {

/// Why a distance cannot be estimated.
#[derive(Clone, Copy, Debug, PartialEq, Eq, Structural)]
pub enum MileageError {
    /// A step needs the pace of a zone that the pace map does not have.
    MissingZone(HeartRateZone),
    /// A step lasts for a time at a pace of zero seconds per unit.
    ZeroPace,
    /// The estimate does not fit in a [`Mileage`].
    Overflow,
}

impl MileageError {
    /// The error in words.
    pub open spec fn spec_message(self) -> Seq<char> {
        match self {
            MileageError::MissingZone(HeartRateZone::Z1) => "the pace map has no pace for zone z1"@,
            MileageError::MissingZone(HeartRateZone::Z2) => "the pace map has no pace for zone z2"@,
            MileageError::MissingZone(HeartRateZone::Z3) => "the pace map has no pace for zone z3"@,
            MileageError::MissingZone(HeartRateZone::Z4) => "the pace map has no pace for zone z4"@,
            MileageError::MissingZone(HeartRateZone::Z5) => "the pace map has no pace for zone z5"@,
            MileageError::ZeroPace => "a pace of zero seconds per unit of distance"@,
            MileageError::Overflow => "the distance is too large to be told"@,
        }
    }

    /// The error in words.
    pub fn message(&self) -> (text: String)
        ensures
            text@ == self.spec_message(),
    {
        String::from_str(
            match self {
                MileageError::MissingZone(HeartRateZone::Z1) => {
                    "the pace map has no pace for zone z1"
                },
                MileageError::MissingZone(HeartRateZone::Z2) => {
                    "the pace map has no pace for zone z2"
                },
                MileageError::MissingZone(HeartRateZone::Z3) => {
                    "the pace map has no pace for zone z3"
                },
                MileageError::MissingZone(HeartRateZone::Z4) => {
                    "the pace map has no pace for zone z4"
                },
                MileageError::MissingZone(HeartRateZone::Z5) => {
                    "the pace map has no pace for zone z5"
                },
                MileageError::ZeroPace => "a pace of zero seconds per unit of distance",
                MileageError::Overflow => "the distance is too large to be told",
            },
        )
    }
}

/// A least and a greatest distance in billionths of a mile, without bound.
pub struct Span {
    pub min: nat,
    pub max: nat,
}

impl Span {
    /// No distance at all.
    pub open spec fn zero() -> Span {
        Span { min: 0, max: 0 }
    }

    /// The distance covered in `self` and then in `other`.
    pub open spec fn plus(self, other: Span) -> Span {
        Span { min: self.min + other.min, max: self.max + other.max }
    }

    /// The distance covered in running `self` `n` times.
    pub open spec fn times(self, n: nat) -> Span {
        Span { min: self.min * n, max: self.max * n }
    }

    /// Whether both distances fit in a [`Mileage`].
    pub open spec fn fits(self) -> bool {
        self.min <= u64::MAX && self.max <= u64::MAX
    }
}

/// The distance of a first part followed by a second; the first part's error
/// comes first.
pub open spec fn spec_then(
    first: Result<Span, MileageError>,
    second: Result<Span, MileageError>,
) -> Result<Span, MileageError> {
    match first {
        Err(e) => Err(e),
        Ok(a) => match second {
            Err(e) => Err(e),
            Ok(b) => Ok(a.plus(b)),
        },
    }
}

/// An exact estimate as a [`Mileage`], where it fits.
pub open spec fn spec_narrow(exact: Result<Span, MileageError>) -> Result<Mileage, MileageError> {
    match exact {
        Err(e) => Err(e),
        Ok(span) => if span.fits() {
            Ok(Mileage { min: span.min as u64, max: span.max as u64 })
        } else {
            Err(MileageError::Overflow)
        },
    }
}

/// The length of one `unit`, in billionths of a mile.
pub open spec fn spec_length_unit_to_miles(unit: LengthUnit) -> nat {
    match unit {
        LengthUnit::Miles => 1_000_000_000,
        LengthUnit::Yards => 568_182,
        LengthUnit::Feet => 189_394,
        LengthUnit::Meters => 621_371,
        LengthUnit::Kilometers => 621_371_000,
    }
}

/// The number of seconds in one `unit`.
pub open spec fn spec_seconds_in(unit: TimeUnit) -> nat {
    match unit {
        TimeUnit::Seconds => 1,
        TimeUnit::Minutes => 60,
        TimeUnit::Hours => 3600,
    }
}

/// The quotient `n / d` rounded to the nearest whole number, a half upwards.
pub open spec fn spec_rounded(n: nat, d: nat) -> nat {
    ((2 * n + d) / (2 * d)) as nat
}

/// The distance `distance` in `unit`, in billionths of a mile, to the nearest.
pub open spec fn spec_distance_to_miles(distance: Decimal, unit: LengthUnit) -> nat {
    spec_rounded(
        distance.spec_mantissa() * spec_length_unit_to_miles(unit),
        pow10(distance.spec_scale()),
    )
}

/// The time `time` in `unit`, in seconds, times `10^scale` of `time`.
pub open spec fn spec_time_to_seconds(time: Decimal, unit: TimeUnit) -> nat {
    time.spec_mantissa() * spec_seconds_in(unit)
}

/// The distance covered in the time `value` of `unit` at `pace`, in
/// billionths of a mile, to the nearest: the time in seconds, divided by the
/// seconds that one unit of distance takes, times the length of that unit.
pub open spec fn spec_distance_at_pace(pace: Pace, value: Decimal, unit: TimeUnit) -> nat {
    spec_rounded(
        spec_time_to_seconds(value, unit) * pow10(pace.time.spec_scale())
            * spec_length_unit_to_miles(pace.unit),
        pow10(value.spec_scale()) * pace.time.spec_mantissa(),
    )
}

/// The distance covered in the time `value` of `unit` within `pace_range`.
pub open spec fn spec_time_unit_to_miles(
    pace_range: PaceRange,
    value: Decimal,
    unit: TimeUnit,
) -> Result<Span, MileageError> {
    if pace_range.min.time.spec_mantissa() == 0 || pace_range.max.time.spec_mantissa() == 0 {
        Err(MileageError::ZeroPace)
    } else {
        Ok(
            Span {
                min: spec_distance_at_pace(pace_range.min, value, unit),
                max: spec_distance_at_pace(pace_range.max, value, unit),
            },
        )
    }
}

/// The pace band of `zone` in the pace map.
pub open spec fn spec_zone_pace(pace_map: PaceMapView, zone: HeartRateZone) -> Result<
    PaceRange,
    MileageError,
> {
    if pace_map.zones.contains_key(zone) {
        Ok(pace_map.zones[zone])
    } else {
        Err(MileageError::MissingZone(zone))
    }
}

/// The pace band at which a timed step is run: the step's own pace or pace
/// band, else the band of its heart-rate zone, else that of the default zone.
pub open spec fn spec_effective_pace(pace_map: PaceMapView, alert: Option<Alert>) -> Result<
    PaceRange,
    MileageError,
> {
    match alert {
        Some(Alert::PaceThreshold(pace)) => Ok(PaceRange { min: pace, max: pace }),
        Some(Alert::PaceRange { min, max }) => Ok(PaceRange { min, max }),
        Some(Alert::HeartRate(zone)) => spec_zone_pace(pace_map, zone),
        None => spec_zone_pace(pace_map, pace_map.default),
    }
}

/// The distance one step covers.
pub open spec fn spec_step_mileage(pace_map: PaceMapView, step: WorkoutStep) -> Result<
    Span,
    MileageError,
> {
    match step.goal {
        Goal::Distance { value, unit } => Ok(
            Span {
                min: spec_distance_to_miles(value, unit),
                max: spec_distance_to_miles(value, unit),
            },
        ),
        Goal::Duration { value, unit } => match spec_effective_pace(pace_map, step.alert) {
            Err(e) => Err(e),
            Ok(pace_range) => spec_time_unit_to_miles(pace_range, value, unit),
        },
    }
}

/// The distance a warmup or a cooldown covers: nothing where there is none.
pub open spec fn spec_optional_step_mileage(
    pace_map: PaceMapView,
    step: Option<WorkoutStep>,
) -> Result<Span, MileageError> {
    match step {
        Some(step) => spec_step_mileage(pace_map, step),
        None => Ok(Span::zero()),
    }
}

/// The distance the steps of a block cover when run once, one after another.
pub open spec fn spec_steps_mileage(pace_map: PaceMapView, steps: Seq<IntervalStep>) -> Result<
    Span,
    MileageError,
>
    decreases steps.len(),
{
    if steps.len() == 0 {
        Ok(Span::zero())
    } else {
        spec_then(
            spec_step_mileage(pace_map, steps.first().step),
            spec_steps_mileage(pace_map, steps.drop_first()),
        )
    }
}

/// The distance a block covers: that of its steps, times its repeats.
pub open spec fn spec_block_mileage(pace_map: PaceMapView, block: IntervalBlockView) -> Result<
    Span,
    MileageError,
> {
    match spec_steps_mileage(pace_map, block.steps) {
        Err(e) => Err(e),
        Ok(once) => Ok(once.times(block.times())),
    }
}

/// The distance the blocks cover, one after another.
pub open spec fn spec_blocks_mileage(
    pace_map: PaceMapView,
    blocks: Seq<IntervalBlockView>,
) -> Result<Span, MileageError>
    decreases blocks.len(),
{
    if blocks.len() == 0 {
        Ok(Span::zero())
    } else {
        spec_then(
            spec_block_mileage(pace_map, blocks.first()),
            spec_blocks_mileage(pace_map, blocks.drop_first()),
        )
    }
}

/// The distance a workout covers: warmup, then every block, then cooldown.
/// Where several steps cannot be estimated, the first of them gives the error.
pub open spec fn spec_mileage(pace_map: PaceMapView, workout: WorkoutView) -> Result<
    Span,
    MileageError,
> {
    spec_then(
        spec_then(
            spec_optional_step_mileage(pace_map, workout.warmup),
            spec_blocks_mileage(pace_map, workout.intervals),
        ),
        spec_optional_step_mileage(pace_map, workout.cooldown),
    )
}

/// The length of one `unit`, in billionths of a mile.
pub fn length_unit_to_miles(unit: LengthUnit) -> (miles: u64)
    ensures
        miles == spec_length_unit_to_miles(unit),
{
    match unit {
        LengthUnit::Miles => 1_000_000_000,
        LengthUnit::Yards => 568_182,
        LengthUnit::Feet => 189_394,
        LengthUnit::Meters => 621_371,
        LengthUnit::Kilometers => 621_371_000,
    }
}

/// The quotient `n / d` rounded to the nearest whole number, a half upwards.
fn rounded(n: u128, d: u128) -> (q: u128)
    requires
        n <= 0x2000_0000_0000_0000_0000_0000_0000_0000,
        0 < d <= 0x10_0000_0000_0000_0000_0000,
    ensures
        q == spec_rounded(n as nat, d as nat),
{
    (2 * n + d) / (2 * d)
}

/// The distance `distance` in `unit`, in billionths of a mile, to the nearest.
pub fn distance_to_miles(distance: Decimal, unit: LengthUnit) -> (miles: u128)
    ensures
        miles == spec_distance_to_miles(distance, unit),
{
    let mantissa: u128 = distance.mantissa() as u128;
    let factor: u128 = length_unit_to_miles(unit) as u128;
    let divisor: u128 = power_of_ten(distance.scale()) as u128;
    assert(mantissa * factor <= 0x20_0000_0000_0000 * 1_000_000_000) by (nonlinear_arith)
        requires
            mantissa <= 0x20_0000_0000_0000,
            factor <= 1_000_000_000,
    ;
    rounded(mantissa * factor, divisor)
}

/// The time `time` in `unit`, in seconds, times `10^scale` of `time`.
pub fn time_to_seconds(time: Decimal, unit: TimeUnit) -> (seconds: u128)
    ensures
        seconds == spec_time_to_seconds(time, unit),
        seconds <= 3600 * 0x20_0000_0000_0000,
{
    let mantissa: u128 = time.mantissa() as u128;
    match unit {
        TimeUnit::Seconds => mantissa,
        TimeUnit::Minutes => mantissa * 60,
        TimeUnit::Hours => mantissa * 3600,
    }
}

/// The distance covered in the time `value` of `unit` at `pace`, which is
/// not zero.
fn distance_at_pace(pace: &Pace, value: Decimal, unit: TimeUnit) -> (miles: u128)
    requires
        pace.time.spec_mantissa() > 0,
    ensures
        miles == spec_distance_at_pace(*pace, value, unit),
{
    let seconds: u128 = time_to_seconds(value, unit);
    let pace_scale: u128 = power_of_ten(pace.time.scale()) as u128;
    let factor: u128 = length_unit_to_miles(pace.unit) as u128;
    let value_scale: u128 = power_of_ten(value.scale()) as u128;
    let pace_time: u128 = pace.time.mantissa() as u128;
    assert(seconds * pace_scale <= 3600 * 0x20_0000_0000_0000 * 1_000_000_000)
        by (nonlinear_arith)
        requires
            seconds <= 3600 * 0x20_0000_0000_0000,
            pace_scale <= 1_000_000_000,
    ;
    let scaled: u128 = seconds * pace_scale;
    assert(scaled * factor <= 3600 * 0x20_0000_0000_0000 * 1_000_000_000 * 1_000_000_000)
        by (nonlinear_arith)
        requires
            scaled <= 3600 * 0x20_0000_0000_0000 * 1_000_000_000,
            factor <= 1_000_000_000,
    ;
    assert(value_scale * pace_time <= 1_000_000_000 * 0x20_0000_0000_0000) by (nonlinear_arith)
        requires
            value_scale <= 1_000_000_000,
            pace_time <= 0x20_0000_0000_0000,
    ;
    assert(value_scale * pace_time > 0) by (nonlinear_arith)
        requires
            value_scale >= 1,
            pace_time >= 1,
    ;
    rounded(scaled * factor, value_scale * pace_time)
}

/// One more than the greatest distance a [`Mileage`] holds; it stands for
/// every distance beyond.
const BEYOND: u128 = 0x1_0000_0000_0000_0000;

/// `n` where it fits in a [`Mileage`], else [`BEYOND`].
spec fn capped(n: nat) -> u128 {
    if n <= u64::MAX {
        n as u128
    } else {
        BEYOND
    }
}

fn cap(n: u128) -> (c: u128)
    ensures
        c == capped(n as nat),
{
    if n < BEYOND {
        n
    } else {
        BEYOND
    }
}

fn capped_sum(a: u128, b: u128, Ghost(x): Ghost<nat>, Ghost(y): Ghost<nat>) -> (c: u128)
    requires
        a == capped(x),
        b == capped(y),
    ensures
        c == capped(x + y),
{
    cap(a + b)
}

fn capped_product(a: u128, n: u32, Ghost(x): Ghost<nat>) -> (c: u128)
    requires
        a == capped(x),
    ensures
        c == capped(x * (n as nat)),
{
    let count: u128 = n as u128;
    assert(a * count <= BEYOND * 0xffff_ffff) by (nonlinear_arith)
        requires
            a <= BEYOND,
            count <= 0xffff_ffff,
    ;
    proof {
        if x > u64::MAX {
            if n > 0 {
                assert(x * (n as nat) >= x) by (nonlinear_arith)
                    requires
                        n > 0,
                ;
                assert(a * count >= a) by (nonlinear_arith)
                    requires
                        count > 0,
                ;
            } else {
                assert(x * (n as nat) == 0) by (nonlinear_arith)
                    requires
                        n == 0,
                ;
                assert(a * count == 0) by (nonlinear_arith)
                    requires
                        count == 0,
                ;
            }
        } else {
            assert(a * count == x * (n as nat)) by (nonlinear_arith)
                requires
                    a == x,
                    count == n,
            ;
        }
    }
    cap(a * count)
}

/// An exact estimate, each distance capped at [`BEYOND`].
struct Tally {
    min: u128,
    max: u128,
}

impl Tally {
    spec fn holds(self, span: Span) -> bool {
        self.min == capped(span.min) && self.max == capped(span.max)
    }

    fn narrow(self, Ghost(span): Ghost<Span>) -> (r: Result<Mileage, MileageError>)
        requires
            self.holds(span),
        ensures
            r == spec_narrow(Ok(span)),
    {
        if self.min < BEYOND && self.max < BEYOND {
            Ok(Mileage { min: self.min as u64, max: self.max as u64 })
        } else {
            Err(MileageError::Overflow)
        }
    }
}

/// The pace band of `zone` in the pace map.
fn zone_pace(pace_map: &PaceMap, zone: HeartRateZone) -> (r: Result<PaceRange, MileageError>)
    ensures
        r == spec_zone_pace(pace_map@, zone),
{
    match pace_map.get(zone) {
        Some(range) => Ok(range),
        None => Err(MileageError::MissingZone(zone)),
    }
}

/// The pace band at which a timed step with this alert is run.
fn effective_pace(pace_map: &PaceMap, alert: &Option<Alert>) -> (r: Result<
    PaceRange,
    MileageError,
>)
    ensures
        r == spec_effective_pace(pace_map@, *alert),
{
    match alert {
        Some(Alert::PaceThreshold(pace)) => Ok(PaceRange { min: *pace, max: *pace }),
        Some(Alert::PaceRange { min, max }) => Ok(PaceRange { min: *min, max: *max }),
        Some(Alert::HeartRate(zone)) => zone_pace(pace_map, *zone),
        None => zone_pace(pace_map, pace_map.default_zone()),
    }
}

fn timed_tally(pace_range: &PaceRange, value: Decimal, unit: TimeUnit) -> (r: Result<
    Tally,
    MileageError,
>)
    ensures
        match spec_time_unit_to_miles(*pace_range, value, unit) {
            Ok(span) => r matches Ok(tally) && tally.holds(span),
            Err(e) => r matches Err(f) && f == e,
        },
{
    if pace_range.min.time.mantissa() == 0 || pace_range.max.time.mantissa() == 0 {
        Err(MileageError::ZeroPace)
    } else {
        let min: u128 = distance_at_pace(&pace_range.min, value, unit);
        let max: u128 = distance_at_pace(&pace_range.max, value, unit);
        Ok(Tally { min: cap(min), max: cap(max) })
    }
}

fn step_tally(pace_map: &PaceMap, step: &WorkoutStep) -> (r: Result<Tally, MileageError>)
    ensures
        match spec_step_mileage(pace_map@, *step) {
            Ok(span) => r matches Ok(tally) && tally.holds(span),
            Err(e) => r matches Err(f) && f == e,
        },
{
    match step.goal {
        Goal::Distance { value, unit } => {
            let miles: u128 = cap(distance_to_miles(value, unit));
            Ok(Tally { min: miles, max: miles })
        },
        Goal::Duration { value, unit } => {
            match effective_pace(pace_map, &step.alert) {
                Err(e) => Err(e),
                Ok(pace_range) => timed_tally(&pace_range, value, unit),
            }
        },
    }
}

fn optional_step_tally(pace_map: &PaceMap, step: &Option<WorkoutStep>) -> (r: Result<
    Tally,
    MileageError,
>)
    ensures
        match spec_optional_step_mileage(pace_map@, *step) {
            Ok(span) => r matches Ok(tally) && tally.holds(span),
            Err(e) => r matches Err(f) && f == e,
        },
{
    match step {
        Some(step) => step_tally(pace_map, step),
        None => Ok(Tally { min: 0, max: 0 }),
    }
}

fn block_tally(pace_map: &PaceMap, block: &IntervalBlock) -> (r: Result<Tally, MileageError>)
    ensures
        match spec_block_mileage(pace_map@, block@) {
            Ok(span) => r matches Ok(tally) && tally.holds(span),
            Err(e) => r matches Err(f) && f == e,
        },
{
    let mut min: u128 = 0;
    let mut max: u128 = 0;
    let ghost mut done = Span::zero();
    let mut i: usize = 0;
    assert(block.steps@.skip(0) =~= block.steps@);
    while i < block.steps.len()
        invariant
            i <= block.steps.len(),
            min == capped(done.min),
            max == capped(done.max),
            spec_steps_mileage(pace_map@, block.steps@) == spec_then(
                Ok(done),
                spec_steps_mileage(pace_map@, block.steps@.skip(i as int)),
            ),
        decreases block.steps.len() - i,
    {
        let ghost rest = block.steps@.skip(i as int);
        assert(rest.first() == block.steps@[i as int]);
        assert(rest.drop_first() =~= block.steps@.skip(i + 1));
        match step_tally(pace_map, &block.steps[i].step) {
            Err(e) => {
                return Err(e);
            },
            Ok(tally) => {
                let ghost span = spec_step_mileage(pace_map@, block.steps@[i as int].step)->Ok_0;
                min = capped_sum(min, tally.min, Ghost(done.min), Ghost(span.min));
                max = capped_sum(max, tally.max, Ghost(done.max), Ghost(span.max));
                proof {
                    done = done.plus(span);
                }
            },
        }
        i = i + 1;
    }
    assert(block.steps@.skip(i as int).len() == 0);
    let times: u32 = match block.repeats {
        Some(n) => n,
        None => 1,
    };
    Ok(
        Tally {
            min: capped_product(min, times, Ghost(done.min)),
            max: capped_product(max, times, Ghost(done.max)),
        },
    )
}

/// The distance one step covers.
///
/// A step with a distance goal covers that distance, whatever its alert. A
/// step with a duration goal covers what its pace band gives for that time;
/// it fails where the band has to come from a zone that the pace map lacks,
/// or where a pace of the band is zero.
pub fn get_workout_step_mileage(pace_map: &PaceMap, step: &WorkoutStep) -> (r: Result<
    Mileage,
    MileageError,
>)
    ensures
        r == spec_narrow(spec_step_mileage(pace_map@, *step)),
{
    match step_tally(pace_map, step) {
        Err(e) => Err(e),
        Ok(tally) => tally.narrow(Ghost(spec_step_mileage(pace_map@, *step)->Ok_0)),
    }
}

/// The distance covered in the time `value` of `unit` within `pace_range`.
pub fn time_unit_to_miles(pace_range: &PaceRange, value: Decimal, unit: TimeUnit) -> (r: Result<
    Mileage,
    MileageError,
>)
    ensures
        r == spec_narrow(spec_time_unit_to_miles(*pace_range, value, unit)),
{
    match timed_tally(pace_range, value, unit) {
        Err(e) => Err(e),
        Ok(tally) => tally.narrow(Ghost(spec_time_unit_to_miles(*pace_range, value, unit)->Ok_0)),
    }
}

/// The distance a workout covers: the sum of what its warmup, each step of
/// each block as often as the block repeats, and its cooldown cover.
///
/// The first step that cannot be estimated gives the error; where every
/// step can be, the call fails only if a total does not fit in the result.
pub fn mileage(pace_map: &PaceMap, workout: &Workout) -> (r: Result<Mileage, MileageError>)
    ensures
        r == spec_narrow(spec_mileage(pace_map@, workout@)),
{
    let warmup = match optional_step_tally(pace_map, &workout.warmup) {
        Err(e) => {
            return Err(e);
        },
        Ok(tally) => tally,
    };
    let ghost first = spec_optional_step_mileage(pace_map@, workout.warmup)->Ok_0;
    let mut min: u128 = 0;
    let mut max: u128 = 0;
    let ghost mut done = Span::zero();
    let mut i: usize = 0;
    assert(workout@.intervals.skip(0) =~= workout@.intervals);
    while i < workout.intervals.len()
        invariant
            i <= workout.intervals.len(),
            workout@.intervals.len() == workout.intervals.len(),
            spec_optional_step_mileage(pace_map@, workout.warmup) is Ok,
            min == capped(done.min),
            max == capped(done.max),
            spec_blocks_mileage(pace_map@, workout@.intervals) == spec_then(
                Ok(done),
                spec_blocks_mileage(pace_map@, workout@.intervals.skip(i as int)),
            ),
        decreases workout.intervals.len() - i,
    {
        let ghost rest = workout@.intervals.skip(i as int);
        assert(rest.first() == workout.intervals@[i as int]@);
        assert(rest.drop_first() =~= workout@.intervals.skip(i + 1));
        match block_tally(pace_map, &workout.intervals[i]) {
            Err(e) => {
                return Err(e);
            },
            Ok(tally) => {
                let ghost span = spec_block_mileage(pace_map@, workout.intervals@[i as int]@)->Ok_0;
                min = capped_sum(min, tally.min, Ghost(done.min), Ghost(span.min));
                max = capped_sum(max, tally.max, Ghost(done.max), Ghost(span.max));
                proof {
                    done = done.plus(span);
                }
            },
        }
        i = i + 1;
    }
    assert(workout@.intervals.skip(i as int).len() == 0);
    let cooldown = match optional_step_tally(pace_map, &workout.cooldown) {
        Err(e) => {
            return Err(e);
        },
        Ok(tally) => tally,
    };
    let ghost last = spec_optional_step_mileage(pace_map@, workout.cooldown)->Ok_0;
    let ghost middle = first.plus(done);
    let total = Tally {
        min: capped_sum(
            capped_sum(warmup.min, min, Ghost(first.min), Ghost(done.min)),
            cooldown.min,
            Ghost(middle.min),
            Ghost(last.min),
        ),
        max: capped_sum(
            capped_sum(warmup.max, max, Ghost(first.max), Ghost(done.max)),
            cooldown.max,
            Ghost(middle.max),
            Ghost(last.max),
        ),
    };
    total.narrow(Ghost(middle.plus(last)))
}

/// The estimate of [`mileage`], under the name by which a host calls it.
pub fn get_mileage(pace_map: &PaceMap, workout: &Workout) -> (r: Result<Mileage, MileageError>)
    ensures
        r == spec_narrow(spec_mileage(pace_map@, workout@)),
{
    mileage(pace_map, workout)
}

} // verus!
