//! What holds of every estimate.

use crate::mileage::{
    spec_block_mileage, spec_blocks_mileage, spec_distance_at_pace, spec_distance_to_miles,
    spec_effective_pace, spec_length_unit_to_miles, spec_mileage, spec_narrow, spec_rounded,
    spec_step_mileage, spec_steps_mileage, spec_time_to_seconds, MileageError, Span,
};
use crate::models::{
    pow10, Alert, Decimal, Goal, HeartRateZone, IntervalBlockView, IntervalStep, LengthUnit,
    Mileage, Pace, PaceMapView, TimeUnit, WorkoutStep, WorkoutView,
};
use vstd::prelude::*;

verus! {

/// A workout without warmup, blocks and cooldown covers no distance,
/// whatever the pace map.
pub proof fn lemma_empty_workout_covers_nothing(pace_map: PaceMapView)
    ensures
        spec_mileage(
            pace_map,
            WorkoutView { warmup: None, intervals: Seq::empty(), cooldown: None },
        ) == Ok::<Span, MileageError>(Span::zero()),
        spec_narrow(
            spec_mileage(
                pace_map,
                WorkoutView { warmup: None, intervals: Seq::empty(), cooldown: None },
            ),
        ) == Ok::<Mileage, MileageError>(Mileage { min: 0, max: 0 }),
{
}

/// A step with a distance goal covers exactly that distance, at the least
/// and at the most, whatever its alert and the pace map.
pub proof fn lemma_distance_step_is_exact(
    pace_map: PaceMapView,
    value: Decimal,
    unit: LengthUnit,
    alert: Option<Alert>,
)
    ensures
        spec_step_mileage(pace_map, WorkoutStep { goal: Goal::Distance { value, unit }, alert })
            == Ok::<Span, MileageError>(
            Span {
                min: spec_distance_to_miles(value, unit),
                max: spec_distance_to_miles(value, unit),
            },
        ),
{
}

/// What a block covers grows with its repeats: with `k` times the repeats it
/// covers `k` times the distance, at the least and at the most, and it
/// fails as before where a step cannot be estimated. With `k` two, doubling
/// the repeats doubles the distance.
pub proof fn lemma_repeats_scale_linearly(
    pace_map: PaceMapView,
    steps: Seq<IntervalStep>,
    repeats: u32,
    k: u32,
)
    requires
        repeats * k <= u32::MAX,
    ensures
        spec_block_mileage(
            pace_map,
            IntervalBlockView { repeats: Some((repeats * k) as u32), steps },
        ) == match spec_block_mileage(pace_map, IntervalBlockView { repeats: Some(repeats), steps }) {
            Ok(span) => Ok::<Span, MileageError>(span.times(k as nat)),
            Err(e) => Err(e),
        },
{
    if let Ok(once) = spec_steps_mileage(pace_map, steps) {
        assert(once.min * (repeats * k) == once.min * repeats * k) by (nonlinear_arith);
        assert(once.max * (repeats * k) == once.max * repeats * k) by (nonlinear_arith);
    }
}

/// A block without a repeat count covers what it covers with a count of
/// one.
pub proof fn lemma_no_repeats_is_once(pace_map: PaceMapView, steps: Seq<IntervalStep>)
    ensures
        spec_block_mileage(pace_map, IntervalBlockView { repeats: None, steps })
            == spec_block_mileage(pace_map, IntervalBlockView { repeats: Some(1), steps }),
        spec_block_mileage(pace_map, IntervalBlockView { repeats: None, steps })
            == spec_steps_mileage(pace_map, steps),
{
    if let Ok(once) = spec_steps_mileage(pace_map, steps) {
        assert(once.times(1) == once);
    }
}

/// Where one block of a workout is changed for another and all else is kept,
/// the workout's distance changes by what the two blocks differ in: a block
/// that covers `more` beyond the old one adds `more` to the whole.
pub proof fn lemma_block_change_adds_up(
    pace_map: PaceMapView,
    blocks: Seq<IntervalBlockView>,
    i: int,
    changed: IntervalBlockView,
    more: Span,
)
    requires
        0 <= i < blocks.len(),
        spec_block_mileage(pace_map, blocks[i]) matches Ok(old_span) && spec_block_mileage(
            pace_map,
            changed,
        ) == Ok::<Span, MileageError>(old_span.plus(more)),
    ensures
        spec_blocks_mileage(pace_map, blocks.update(i, changed)) == match spec_blocks_mileage(
            pace_map,
            blocks,
        ) {
            Ok(span) => Ok::<Span, MileageError>(span.plus(more)),
            Err(e) => Err(e),
        },
    decreases blocks.len(),
{
    let after = blocks.update(i, changed);
    if i == 0 {
        assert(after.drop_first() =~= blocks.drop_first());
    } else {
        assert(after.first() == blocks.first());
        assert(after.drop_first() =~= blocks.drop_first().update(i - 1, changed));
        lemma_block_change_adds_up(pace_map, blocks.drop_first(), i - 1, changed, more);
    }
}

/// Doubling the repeats of one block of a workout adds that block's distance
/// once more to the distance of the workout, and changes nothing else.
pub proof fn lemma_doubled_block_in_workout(
    pace_map: PaceMapView,
    workout: WorkoutView,
    i: int,
    repeats: u32,
)
    requires
        0 <= i < workout.intervals.len(),
        workout.intervals[i].repeats == Some(repeats),
        2 * repeats <= u32::MAX,
        spec_mileage(pace_map, workout) is Ok,
    ensures
        spec_block_mileage(pace_map, workout.intervals[i]) matches Ok(block) && spec_mileage(
            pace_map,
            WorkoutView {
                intervals: workout.intervals.update(
                    i,
                    IntervalBlockView {
                        repeats: Some((2 * repeats) as u32),
                        steps: workout.intervals[i].steps,
                    },
                ),
                ..workout
            },
        ) == Ok::<Span, MileageError>(spec_mileage(pace_map, workout)->Ok_0.plus(block)),
{
    let old_block = workout.intervals[i];
    let doubled = IntervalBlockView { repeats: Some((2 * repeats) as u32), steps: old_block.steps };
    lemma_blocks_fail_with_a_block(pace_map, workout.intervals, i);
    let block = spec_block_mileage(pace_map, old_block)->Ok_0;
    assert(repeats * 2 == 2 * repeats) by (nonlinear_arith);
    lemma_repeats_scale_linearly(pace_map, old_block.steps, repeats, 2);
    assert(old_block == IntervalBlockView { repeats: Some(repeats), steps: old_block.steps });
    assert(block.times(2) == block.plus(block)) by {
        assert(block.min * 2 == block.min + block.min);
        assert(block.max * 2 == block.max + block.max);
    }
    lemma_block_change_adds_up(pace_map, workout.intervals, i, doubled, block);
}

/// Whether a step can be estimated with this pace map.
pub open spec fn spec_estimable(pace_map: PaceMapView, step: WorkoutStep) -> bool {
    spec_step_mileage(pace_map, step) is Ok
}

/// A step cannot be estimated exactly where it has a duration goal and
/// either needs the pace of a zone that the pace map lacks, which is then
/// the error, or runs at a pace of zero.
pub proof fn lemma_step_errors(pace_map: PaceMapView, step: WorkoutStep)
    ensures
        step.goal is Distance ==> spec_estimable(pace_map, step),
        spec_step_mileage(pace_map, step) != Err::<Span, MileageError>(MileageError::Overflow),
        forall|zone: HeartRateZone|
            spec_step_mileage(pace_map, step) == Err::<Span, MileageError>(
                MileageError::MissingZone(zone),
            ) <==> step.goal is Duration && !pace_map.zones.contains_key(zone) && (step.alert
                == Some(Alert::HeartRate(zone)) || (step.alert is None && zone
                == pace_map.default)),
        spec_step_mileage(pace_map, step) == Err::<Span, MileageError>(MileageError::ZeroPace)
            <==> step.goal is Duration && (spec_effective_pace(pace_map, step.alert) matches Ok(
            range,
        ) && (range.min.time.spec_mantissa() == 0 || range.max.time.spec_mantissa() == 0)),
{
}

/// The steps of a block can be estimated together exactly where each can
/// be; where they cannot, the error is that of the first step that cannot.
pub proof fn lemma_steps_fail_with_a_step(
    pace_map: PaceMapView,
    steps: Seq<IntervalStep>,
    j: int,
)
    requires
        0 <= j < steps.len(),
    ensures
        spec_steps_mileage(pace_map, steps) is Ok ==> spec_estimable(pace_map, steps[j].step),
        (forall|k: int| 0 <= k < j ==> spec_estimable(pace_map, (#[trigger] steps[k]).step))
            && !spec_estimable(pace_map, steps[j].step) ==> spec_steps_mileage(pace_map, steps)
            == Err::<Span, MileageError>(spec_step_mileage(pace_map, steps[j].step)->Err_0),
    decreases steps.len(),
{
    if j > 0 {
        let rest = steps.drop_first();
        assert(rest[j - 1] == steps[j]);
        lemma_steps_fail_with_a_step(pace_map, rest, j - 1);
        assert(steps.first() == steps[0]);
        if (forall|k: int| 0 <= k < j ==> spec_estimable(pace_map, (#[trigger] steps[k]).step)) {
            assert forall|k: int| 0 <= k < j - 1 implies spec_estimable(
                pace_map,
                (#[trigger] rest[k]).step,
            ) by {
                assert(rest[k] == steps[k + 1]);
            }
        }
    }
}

/// Steps that can each be estimated can be estimated together.
pub proof fn lemma_steps_succeed(pace_map: PaceMapView, steps: Seq<IntervalStep>)
    requires
        forall|k: int|
            0 <= k < steps.len() ==> spec_estimable(pace_map, (#[trigger] steps[k]).step),
    ensures
        spec_steps_mileage(pace_map, steps) is Ok,
    decreases steps.len(),
{
    if steps.len() > 0 {
        let rest = steps.drop_first();
        assert(steps.first() == steps[0]);
        assert forall|k: int| 0 <= k < rest.len() implies spec_estimable(
            pace_map,
            (#[trigger] rest[k]).step,
        ) by {
            assert(rest[k] == steps[k + 1]);
        }
        lemma_steps_succeed(pace_map, rest);
    }
}

/// Blocks can be estimated together only where each can be.
pub proof fn lemma_blocks_fail_with_a_block(
    pace_map: PaceMapView,
    blocks: Seq<IntervalBlockView>,
    i: int,
)
    requires
        0 <= i < blocks.len(),
    ensures
        spec_blocks_mileage(pace_map, blocks) is Ok ==> spec_block_mileage(pace_map, blocks[i])
            is Ok,
    decreases blocks.len(),
{
    if i > 0 {
        let rest = blocks.drop_first();
        assert(rest[i - 1] == blocks[i]);
        lemma_blocks_fail_with_a_block(pace_map, rest, i - 1);
    }
}

/// Blocks that can each be estimated can be estimated together.
pub proof fn lemma_blocks_succeed(pace_map: PaceMapView, blocks: Seq<IntervalBlockView>)
    requires
        forall|k: int| 0 <= k < blocks.len() ==> spec_block_mileage(pace_map, #[trigger] blocks[k])
            is Ok,
    ensures
        spec_blocks_mileage(pace_map, blocks) is Ok,
    decreases blocks.len(),
{
    if blocks.len() > 0 {
        let rest = blocks.drop_first();
        assert(blocks.first() == blocks[0]);
        assert forall|k: int| 0 <= k < rest.len() implies spec_block_mileage(
            pace_map,
            #[trigger] rest[k],
        ) is Ok by {
            assert(rest[k] == blocks[k + 1]);
        }
        lemma_blocks_succeed(pace_map, rest);
    }
}

/// The error of blocks that cannot be estimated is never that the estimate
/// does not fit.
pub proof fn lemma_blocks_never_overflow(pace_map: PaceMapView, blocks: Seq<IntervalBlockView>)
    ensures
        spec_blocks_mileage(pace_map, blocks) != Err::<Span, MileageError>(MileageError::Overflow),
    decreases blocks.len(),
{
    if blocks.len() > 0 {
        lemma_steps_never_overflow(pace_map, blocks.first().steps);
        lemma_blocks_never_overflow(pace_map, blocks.drop_first());
    }
}

/// The error of steps that cannot be estimated is never that the estimate
/// does not fit.
pub proof fn lemma_steps_never_overflow(pace_map: PaceMapView, steps: Seq<IntervalStep>)
    ensures
        spec_steps_mileage(pace_map, steps) != Err::<Span, MileageError>(MileageError::Overflow),
    decreases steps.len(),
{
    if steps.len() > 0 {
        lemma_steps_never_overflow(pace_map, steps.drop_first());
    }
}

/// Whether every step of the workout can be estimated with this pace map.
pub open spec fn spec_all_estimable(pace_map: PaceMapView, workout: WorkoutView) -> bool {
    &&& workout.warmup matches Some(step) ==> spec_estimable(pace_map, step)
    &&& workout.cooldown matches Some(step) ==> spec_estimable(pace_map, step)
    &&& forall|i: int, j: int|
        0 <= i < workout.intervals.len() && 0 <= j < workout.intervals[i].steps.len()
            ==> spec_estimable(pace_map, (#[trigger] workout.intervals[i].steps[j]).step)
}

/// A workout has an estimate exactly where each of its steps has one and the
/// totals fit; where a step has none, the error tells which zone is missing
/// or that a pace is zero, and never that the estimate does not fit.
pub proof fn lemma_success_is_owed(pace_map: PaceMapView, workout: WorkoutView)
    ensures
        spec_mileage(pace_map, workout) is Ok <==> spec_all_estimable(pace_map, workout),
        spec_narrow(spec_mileage(pace_map, workout)) is Ok <==> spec_all_estimable(
            pace_map,
            workout,
        ) && spec_mileage(pace_map, workout)->Ok_0.fits(),
        !spec_all_estimable(pace_map, workout) ==> spec_narrow(spec_mileage(pace_map, workout))
            is Err && spec_narrow(spec_mileage(pace_map, workout)) != Err::<
            Mileage,
            MileageError,
        >(MileageError::Overflow),
{
    let blocks = workout.intervals;
    lemma_blocks_never_overflow(pace_map, blocks);
    if let Some(step) = workout.warmup {
        lemma_step_errors(pace_map, step);
    }
    if let Some(step) = workout.cooldown {
        lemma_step_errors(pace_map, step);
    }
    if spec_mileage(pace_map, workout) is Ok {
        assert forall|i: int, j: int|
            0 <= i < blocks.len() && 0 <= j < blocks[i].steps.len() implies spec_estimable(
            pace_map,
            (#[trigger] blocks[i].steps[j]).step,
        ) by {
            lemma_blocks_fail_with_a_block(pace_map, blocks, i);
            lemma_steps_fail_with_a_step(pace_map, blocks[i].steps, j);
        }
    }
    if spec_all_estimable(pace_map, workout) {
        assert forall|i: int| 0 <= i < blocks.len() implies spec_block_mileage(
            pace_map,
            #[trigger] blocks[i],
        ) is Ok by {
            assert forall|j: int| 0 <= j < blocks[i].steps.len() implies spec_estimable(
                pace_map,
                (#[trigger] blocks[i].steps[j]).step,
            ) by {}
            lemma_steps_succeed(pace_map, blocks[i].steps);
        }
        lemma_blocks_succeed(pace_map, blocks);
    }
}

/// Whether the step is one of the workout's: its warmup, its cooldown or a
/// step of one of its blocks.
pub open spec fn spec_has_step(workout: WorkoutView, step: WorkoutStep) -> bool {
    ||| workout.warmup == Some(step)
    ||| workout.cooldown == Some(step)
    ||| exists|i: int, j: int|
        0 <= i < workout.intervals.len() && 0 <= j < workout.intervals[i].steps.len() && (
        #[trigger] workout.intervals[i].steps[j]).step == step
}

/// A workout with a timed step that needs the pace of a zone that the pace
/// map lacks, be it the zone of the step's alert or the default zone of a
/// step without alert, has no estimate: the call fails, with an error that
/// is not about the size of the estimate.
pub proof fn lemma_missing_zone_is_an_error(
    pace_map: PaceMapView,
    workout: WorkoutView,
    step: WorkoutStep,
)
    requires
        spec_has_step(workout, step),
        step.goal is Duration,
        spec_effective_pace(pace_map, step.alert) is Err,
    ensures
        spec_step_mileage(pace_map, step) matches Err(MileageError::MissingZone(zone))
            && !pace_map.zones.contains_key(zone),
        spec_narrow(spec_mileage(pace_map, workout)) is Err,
        spec_narrow(spec_mileage(pace_map, workout)) != Err::<Mileage, MileageError>(
            MileageError::Overflow,
        ),
{
    lemma_success_is_owed(pace_map, workout);
    assert(!spec_estimable(pace_map, step));
}

/// Whether `slow` is no faster than `fast`: a mile takes at least as long at
/// `slow` as at `fast`.
pub open spec fn spec_no_faster(slow: Pace, fast: Pace) -> bool {
    slow.time.spec_mantissa() * pow10(fast.time.spec_scale()) * spec_length_unit_to_miles(
        fast.unit,
    ) >= fast.time.spec_mantissa() * pow10(slow.time.spec_scale()) * spec_length_unit_to_miles(
        slow.unit,
    )
}

/// Whether the pace band at which the step is run, if it is run for a time,
/// has its slower pace in `min` and its faster pace in `max`.
pub open spec fn spec_in_order(pace_map: PaceMapView, step: WorkoutStep) -> bool {
    step.goal is Duration ==> (spec_effective_pace(pace_map, step.alert) matches Ok(range)
        ==> spec_no_faster(range.min, range.max))
}

/// Whether every step of the workout is run at a pace band in order.
pub open spec fn spec_all_in_order(pace_map: PaceMapView, workout: WorkoutView) -> bool {
    &&& workout.warmup matches Some(step) ==> spec_in_order(pace_map, step)
    &&& workout.cooldown matches Some(step) ==> spec_in_order(pace_map, step)
    &&& forall|i: int, j: int|
        0 <= i < workout.intervals.len() && 0 <= j < workout.intervals[i].steps.len()
            ==> spec_in_order(pace_map, (#[trigger] workout.intervals[i].steps[j]).step)
}

/// The greater quotient is the greater when rounded.
proof fn lemma_rounded_grows(n1: nat, d1: nat, n2: nat, d2: nat)
    requires
        d1 > 0,
        d2 > 0,
        n1 * d2 <= n2 * d1,
    ensures
        spec_rounded(n1, d1) <= spec_rounded(n2, d2),
{
    let q = spec_rounded(n1, d1);
    assert(q * (2 * d1) <= 2 * n1 + d1) by (nonlinear_arith)
        requires
            q == (2 * n1 + d1) / (2 * d1),
            d1 > 0,
    ;
    assert(q * (2 * d2) <= 2 * n2 + d2) by (nonlinear_arith)
        requires
            q * (2 * d1) <= 2 * n1 + d1,
            n1 * d2 <= n2 * d1,
            d1 > 0,
            d2 > 0,
    ;
    assert(q <= (2 * n2 + d2) / (2 * d2)) by (nonlinear_arith)
        requires
            q * (2 * d2) <= 2 * n2 + d2,
            d2 > 0,
    ;
}

/// In a given time the slower pace covers no more than the faster.
pub proof fn lemma_slower_covers_less(slow: Pace, fast: Pace, value: Decimal, unit: TimeUnit)
    requires
        spec_no_faster(slow, fast),
        slow.time.spec_mantissa() > 0,
        fast.time.spec_mantissa() > 0,
    ensures
        spec_distance_at_pace(slow, value, unit) <= spec_distance_at_pace(fast, value, unit),
{
    let t = spec_time_to_seconds(value, unit);
    let v = pow10(value.spec_scale());
    let ms = slow.time.spec_mantissa();
    let mf = fast.time.spec_mantissa();
    let ps = pow10(slow.time.spec_scale());
    let pf = pow10(fast.time.spec_scale());
    let ls = spec_length_unit_to_miles(slow.unit);
    let lf = spec_length_unit_to_miles(fast.unit);
    lemma_pow10_positive(value.spec_scale());
    assert(v * ms > 0 && v * mf > 0) by (nonlinear_arith)
        requires
            v > 0,
            ms > 0,
            mf > 0,
    ;
    assert((t * ps * ls) * (v * mf) <= (t * pf * lf) * (v * ms)) by (nonlinear_arith)
        requires
            ms * pf * lf >= mf * ps * ls,
    ;
    lemma_rounded_grows(t * ps * ls, v * ms, t * pf * lf, v * mf);
}

/// A power of ten is not zero.
proof fn lemma_pow10_positive(n: nat)
    ensures
        pow10(n) > 0,
    decreases n,
{
    if n > 0 {
        lemma_pow10_positive((n - 1) as nat);
    }
}

/// A step run at a pace band in order covers at the least no more than at
/// the most.
pub proof fn lemma_step_in_order(pace_map: PaceMapView, step: WorkoutStep)
    requires
        spec_in_order(pace_map, step),
    ensures
        spec_step_mileage(pace_map, step) matches Ok(span) ==> span.min <= span.max,
{
    if let Goal::Duration { value, unit } = step.goal {
        if let Ok(range) = spec_effective_pace(pace_map, step.alert) {
            if range.min.time.spec_mantissa() > 0 && range.max.time.spec_mantissa() > 0 {
                lemma_slower_covers_less(range.min, range.max, value, unit);
            }
        }
    }
}

/// Steps that are each run at a pace band in order cover together at the
/// least no more than at the most.
proof fn lemma_steps_in_order(pace_map: PaceMapView, steps: Seq<IntervalStep>)
    requires
        forall|j: int| 0 <= j < steps.len() ==> spec_in_order(pace_map, (#[trigger] steps[j]).step),
    ensures
        spec_steps_mileage(pace_map, steps) matches Ok(span) ==> span.min <= span.max,
    decreases steps.len(),
{
    if steps.len() > 0 {
        let rest = steps.drop_first();
        assert(steps.first() == steps[0]);
        assert forall|j: int| 0 <= j < rest.len() implies spec_in_order(
            pace_map,
            (#[trigger] rest[j]).step,
        ) by {
            assert(rest[j] == steps[j + 1]);
        }
        lemma_step_in_order(pace_map, steps.first().step);
        lemma_steps_in_order(pace_map, rest);
    }
}

/// Blocks whose steps are each run at a pace band in order cover together
/// at the least no more than at the most.
proof fn lemma_blocks_in_order(pace_map: PaceMapView, blocks: Seq<IntervalBlockView>)
    requires
        forall|i: int, j: int|
            0 <= i < blocks.len() && 0 <= j < blocks[i].steps.len() ==> spec_in_order(
                pace_map,
                (#[trigger] blocks[i].steps[j]).step,
            ),
    ensures
        spec_blocks_mileage(pace_map, blocks) matches Ok(span) ==> span.min <= span.max,
    decreases blocks.len(),
{
    if blocks.len() > 0 {
        let first = blocks.first();
        let rest = blocks.drop_first();
        assert(first == blocks[0]);
        assert forall|j: int| 0 <= j < first.steps.len() implies spec_in_order(
            pace_map,
            (#[trigger] first.steps[j]).step,
        ) by {
            assert(first.steps[j] == blocks[0].steps[j]);
        }
        lemma_steps_in_order(pace_map, first.steps);
        if let Ok(once) = spec_steps_mileage(pace_map, first.steps) {
            assert(once.min * first.times() <= once.max * first.times()) by (nonlinear_arith)
                requires
                    once.min <= once.max,
            ;
        }
        assert forall|i: int, j: int|
            0 <= i < rest.len() && 0 <= j < rest[i].steps.len() implies spec_in_order(
            pace_map,
            (#[trigger] rest[i].steps[j]).step,
        ) by {
            assert(rest[i] == blocks[i + 1]);
            assert(rest[i].steps[j] == blocks[i + 1].steps[j]);
        }
        lemma_blocks_in_order(pace_map, rest);
    }
}

/// With the slower pace of every band in `min` and the faster in `max`, the
/// least distance of a workout is no more than the greatest.
pub proof fn lemma_paces_in_order_give_distances_in_order(
    pace_map: PaceMapView,
    workout: WorkoutView,
)
    requires
        spec_all_in_order(pace_map, workout),
    ensures
        spec_mileage(pace_map, workout) matches Ok(span) ==> span.min <= span.max,
        spec_narrow(spec_mileage(pace_map, workout)) matches Ok(mileage) ==> mileage.min
            <= mileage.max,
{
    if let Some(step) = workout.warmup {
        lemma_step_in_order(pace_map, step);
    }
    if let Some(step) = workout.cooldown {
        lemma_step_in_order(pace_map, step);
    }
    lemma_blocks_in_order(pace_map, workout.intervals);
}

} // verus!
