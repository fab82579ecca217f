//! The workout model: exact decimal quantities, units, goals, alerts, steps
//! and interval blocks, together with the athlete's pace map and the
//! distance estimate.

use std::collections::HashMap;
use vstd::prelude::*;

verus! {

/// Largest mantissa of a [`Decimal`]: every integer up to it is held exactly
/// by a 64-bit floating-point number.
pub const MAX_MANTISSA: u64 = 9_007_199_254_740_991;

/// Largest number of digits a [`Decimal`] keeps after the decimal point.
pub const MAX_SCALE: u8 = 9;

/// Ten to the power `n`.
pub open spec fn pow10(n: nat) -> nat
    decreases n,
{
    if n == 0 {
        1
    } else {
        10 * pow10((n - 1) as nat)
    }
}

/// Ten to the power `n`, for the scales a [`Decimal`] can have.
pub(crate) fn power_of_ten(n: u8) -> (p: u64)
    requires
        n <= MAX_SCALE,
    ensures
        p == pow10(n as nat),
        1 <= p <= 1_000_000_000,
{
    proof {
        reveal_with_fuel(pow10, 10);
    }
    match n {
        0 => 1,
        1 => 10,
        2 => 100,
        3 => 1_000,
        4 => 10_000,
        5 => 100_000,
        6 => 1_000_000,
        7 => 10_000_000,
        8 => 100_000_000,
        _ => 1_000_000_000,
    }
}

/// A non-negative decimal number, `mantissa / 10^scale`, held exactly.
///
/// The mantissa never exceeds [`MAX_MANTISSA`] and the scale never exceeds
/// [`MAX_SCALE`]. Two decimals are equal where both parts are: `1` and `1.0`
/// are the same quantity and different decimals.
#[derive(Clone, Copy, Debug, PartialEq, Eq, Hash)]
pub struct Decimal {
    mantissa: u64,
    scale: u8,
}

impl Decimal {
    #[verifier::type_invariant]
    spec fn in_range(self) -> bool {
        self.mantissa <= MAX_MANTISSA && self.scale <= MAX_SCALE
    }

    /// The decimal with the given digits and scale.
    pub closed spec fn from_parts(mantissa: nat, scale: nat) -> Decimal {
        Decimal { mantissa: mantissa as u64, scale: scale as u8 }
    }

    /// The digits of the number, read as an integer.
    pub closed spec fn spec_mantissa(self) -> nat {
        self.mantissa as nat
    }

    /// How many of those digits stand after the decimal point.
    pub closed spec fn spec_scale(self) -> nat {
        self.scale as nat
    }

    /// Whether `mantissa / 10^scale` can be held.
    pub open spec fn representable(mantissa: nat, scale: nat) -> bool {
        mantissa <= MAX_MANTISSA && scale <= MAX_SCALE
    }

    /// A representable decimal is made of the parts it was built from.
    pub proof fn lemma_from_parts(mantissa: nat, scale: nat)
        requires
            Self::representable(mantissa, scale),
        ensures
            Self::from_parts(mantissa, scale).spec_mantissa() == mantissa,
            Self::from_parts(mantissa, scale).spec_scale() == scale,
    {
    }

    /// Two decimals with the same parts are the same decimal.
    pub proof fn lemma_same_parts(a: Decimal, b: Decimal)
        requires
            a.spec_mantissa() == b.spec_mantissa(),
            a.spec_scale() == b.spec_scale(),
        ensures
            a == b,
    {
    }

    /// The number `mantissa / 10^scale`, or `None` where it is out of range.
    pub fn new(mantissa: u64, scale: u8) -> (r: Option<Decimal>)
        ensures
            r == if Self::representable(mantissa as nat, scale as nat) {
                Some(Self::from_parts(mantissa as nat, scale as nat))
            } else {
                None
            },
            r matches Some(d) ==> d.spec_mantissa() == mantissa && d.spec_scale() == scale,
    {
        if mantissa <= MAX_MANTISSA && scale <= MAX_SCALE {
            Some(Decimal { mantissa, scale })
        } else {
            None
        }
    }

    /// The whole number `n`.
    pub fn from_integer(n: u32) -> (r: Decimal)
        ensures
            r == Self::from_parts(n as nat, 0),
            r.spec_mantissa() == n,
            r.spec_scale() == 0,
    {
        Decimal { mantissa: n as u64, scale: 0 }
    }

    /// The digits of the number, read as an integer.
    pub fn mantissa(&self) -> (m: u64)
        ensures
            m == self.spec_mantissa(),
            m <= MAX_MANTISSA,
    {
        proof {
            use_type_invariant(self);
        }
        self.mantissa
    }

    /// How many of those digits stand after the decimal point.
    pub fn scale(&self) -> (s: u8)
        ensures
            s == self.spec_scale(),
            s <= MAX_SCALE,
    {
        proof {
            use_type_invariant(self);
        }
        self.scale
    }
}

/// A unit of distance.
#[derive(Clone, Copy, Debug, PartialEq, Eq, Hash, Structural)]
pub enum LengthUnit {
    Miles,
    Yards,
    Feet,
    Meters,
    Kilometers,
}

/// A unit of time.
#[derive(Clone, Copy, Debug, PartialEq, Eq, Hash, Structural)]
pub enum TimeUnit {
    Seconds,
    Minutes,
    Hours,
}

/// A heart-rate zone, from the easiest (`Z1`) to the hardest (`Z5`).
#[derive(Clone, Copy, Debug, PartialEq, Eq, Hash, Structural)]
pub enum HeartRateZone {
    Z1,
    Z2,
    Z3,
    Z4,
    Z5,
}

impl HeartRateZone {
    /// The zone's number, from 1 to 5.
    pub open spec fn spec_number(self) -> u8 {
        match self {
            HeartRateZone::Z1 => 1,
            HeartRateZone::Z2 => 2,
            HeartRateZone::Z3 => 3,
            HeartRateZone::Z4 => 4,
            HeartRateZone::Z5 => 5,
        }
    }

    /// The zone's number, from 1 to 5.
    #[verifier::when_used_as_spec(spec_number)]
    pub fn number(self) -> (n: u8)
        ensures
            n == self.spec_number(),
    {
        match self {
            HeartRateZone::Z1 => 1,
            HeartRateZone::Z2 => 2,
            HeartRateZone::Z3 => 3,
            HeartRateZone::Z4 => 4,
            HeartRateZone::Z5 => 5,
        }
    }

    /// The zone with the given number, if it is between 1 and 5.
    pub fn from_number(n: u8) -> (zone: Option<HeartRateZone>)
        ensures
            zone matches Some(z) ==> z.spec_number() == n,
            zone is Some <==> 1 <= n <= 5,
    {
        if n == 1 {
            Some(HeartRateZone::Z1)
        } else if n == 2 {
            Some(HeartRateZone::Z2)
        } else if n == 3 {
            Some(HeartRateZone::Z3)
        } else if n == 4 {
            Some(HeartRateZone::Z4)
        } else if n == 5 {
            Some(HeartRateZone::Z5)
        } else {
            None
        }
    }
}

/// The time it takes to cover one unit of distance.
#[derive(Clone, Copy, Debug, PartialEq, Eq)]
pub struct Pace {
    /// Seconds per unit of distance.
    pub time: Decimal,
    pub unit: LengthUnit,
}

/// A pace band. For a fixed duration the shorter time per unit gives the
/// longer distance, so the faster pace belongs in `max`.
#[derive(Clone, Copy, Debug, PartialEq, Eq)]
pub struct PaceRange {
    pub min: Pace,
    pub max: Pace,
}

/// What ends a step: a distance covered or a time elapsed.
#[allow(inconsistent_fields)]
#[derive(Clone, Copy, Debug, PartialEq, Eq)]
pub enum Goal {
    Distance { value: Decimal, unit: LengthUnit },
    Duration { value: Decimal, unit: TimeUnit },
}

/// The guidance attached to a step.
#[derive(Clone, Copy, Debug, PartialEq, Eq)]
pub enum Alert {
    HeartRate(HeartRateZone),
    PaceThreshold(Pace),
    PaceRange { min: Pace, max: Pace },
}

/// One step of a workout: a goal and at most one alert.
#[derive(Clone, Copy, Debug, PartialEq, Eq)]
pub struct WorkoutStep {
    pub goal: Goal,
    pub alert: Option<Alert>,
}

/// A step of an interval block; `has_recovery` marks a rest segment.
#[derive(Clone, Copy, Debug, PartialEq, Eq)]
pub struct IntervalStep {
    pub step: WorkoutStep,
    pub has_recovery: bool,
}

/// A group of steps, run `repeats` times; an absent count means once.
#[derive(Clone, Debug, PartialEq, Eq)]
pub struct IntervalBlock {
    pub repeats: Option<u32>,
    pub steps: Vec<IntervalStep>,
}

/// The mathematical value of an [`IntervalBlock`].
pub struct IntervalBlockView {
    pub repeats: Option<u32>,
    pub steps: Seq<IntervalStep>,
}

impl View for IntervalBlock {
    type V = IntervalBlockView;

    open spec fn view(&self) -> IntervalBlockView {
        IntervalBlockView { repeats: self.repeats, steps: self.steps@ }
    }
}

impl IntervalBlockView {
    /// How many times the block is run.
    pub open spec fn times(self) -> nat {
        match self.repeats {
            Some(n) => n as nat,
            None => 1,
        }
    }
}

/// A whole workout.
#[derive(Clone, Debug, PartialEq, Eq)]
pub struct Workout {
    pub warmup: Option<WorkoutStep>,
    pub intervals: Vec<IntervalBlock>,
    pub cooldown: Option<WorkoutStep>,
}

/// The mathematical value of a [`Workout`].
pub struct WorkoutView {
    pub warmup: Option<WorkoutStep>,
    pub intervals: Seq<IntervalBlockView>,
    pub cooldown: Option<WorkoutStep>,
}

impl View for Workout {
    type V = WorkoutView;

    open spec fn view(&self) -> WorkoutView {
        WorkoutView {
            warmup: self.warmup,
            intervals: self.intervals@.map_values(|b: IntervalBlock| b@),
            cooldown: self.cooldown,
        }
    }
}

/// The mathematical value of a [`PaceMap`].
pub struct PaceMapView {
    pub zones: Map<HeartRateZone, PaceRange>,
    pub default: HeartRateZone,
}

/// An athlete's pace for each heart-rate zone, and the zone that stands for a
/// step without an alert.
#[derive(Clone, Debug)]
pub struct PaceMap {
    zones: HashMap<u8, PaceRange>,
    default: HeartRateZone,
}

impl View for PaceMap {
    type V = PaceMapView;

    closed spec fn view(&self) -> PaceMapView {
        PaceMapView {
            zones: Map::new(
                |zone: HeartRateZone| self.zones@.contains_key(zone.spec_number()),
                |zone: HeartRateZone| self.zones@[zone.spec_number()],
            ),
            default: self.default,
        }
    }
}

impl PaceMap {
    /// A map without any zone, with the given default zone.
    pub fn new(default: HeartRateZone) -> (map: PaceMap)
        ensures
            map@.zones == Map::<HeartRateZone, PaceRange>::empty(),
            map@.default == default,
    {
        let map = PaceMap { zones: HashMap::new(), default };
        assert(map@.zones =~= Map::<HeartRateZone, PaceRange>::empty());
        map
    }

    /// Sets the pace band of `zone`, and returns the band it had before.
    pub fn insert(&mut self, zone: HeartRateZone, range: PaceRange) -> (previous: Option<PaceRange>)
        ensures
            final(self)@.zones == old(self)@.zones.insert(zone, range),
            final(self)@.default == old(self)@.default,
            previous == if old(self)@.zones.contains_key(zone) {
                Some(old(self)@.zones[zone])
            } else {
                None::<PaceRange>
            },
    {
        let previous = self.zones.insert(zone.number(), range);
        assert(self@.zones =~= old(self)@.zones.insert(zone, range));
        previous
    }

    /// The pace band of `zone`, if the map has one.
    pub fn get(&self, zone: HeartRateZone) -> (range: Option<PaceRange>)
        ensures
            range == if self@.zones.contains_key(zone) {
                Some(self@.zones[zone])
            } else {
                None::<PaceRange>
            },
    {
        let key = zone.number();
        match self.zones.get(&key) {
            Some(range) => Some(*range),
            None => None,
        }
    }

    /// The zone that stands for a step without an alert.
    pub fn default_zone(&self) -> (zone: HeartRateZone)
        ensures
            zone == self@.default,
    {
        self.default
    }

    /// Whether the map has a pace band for its default zone.
    pub fn has_default(&self) -> (b: bool)
        ensures
            b == self@.zones.contains_key(self@.default),
    {
        self.zones.contains_key(&self.default.number())
    }

    /// Whether the map has a pace band for every zone.
    pub fn is_complete(&self) -> (b: bool)
        ensures
            b == (forall|zone: HeartRateZone| self@.zones.contains_key(zone)),
    {
        let b = self.get(HeartRateZone::Z1).is_some() && self.get(HeartRateZone::Z2).is_some()
            && self.get(HeartRateZone::Z3).is_some() && self.get(HeartRateZone::Z4).is_some()
            && self.get(HeartRateZone::Z5).is_some();
        proof {
            if b {
                assert forall|zone: HeartRateZone| self@.zones.contains_key(zone) by {
                    match zone {
                        HeartRateZone::Z1 => {},
                        HeartRateZone::Z2 => {},
                        HeartRateZone::Z3 => {},
                        HeartRateZone::Z4 => {},
                        HeartRateZone::Z5 => {},
                    }
                }
            }
        }
        b
    }
}

/// An estimate of the distance a workout covers, in billionths of a mile.
#[derive(Clone, Copy, Debug, PartialEq, Eq, Structural)]
pub struct Mileage {
    pub min: u64,
    pub max: u64,
}

} // verus!
