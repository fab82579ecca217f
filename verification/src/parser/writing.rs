//! The notation, told the other way round: the tokens that write a workout.
//!
//! The grammar reads exactly what is written here: the tokens that write a
//! well-formed workout are read as that workout, and tokens that are read as
//! a workout are the tokens that write it.

use crate::models::{
    Alert, Decimal, Goal, IntervalBlockView, IntervalStep, Pace, WorkoutStep, WorkoutView,
};
use crate::parser::error::ParseError;
use crate::parser::grammar::{
    spec_kind_at, spec_parse_cooldown, spec_parse_interval_block, spec_parse_interval_blocks,
    spec_parse_interval_step, spec_parse_more_blocks, spec_parse_repeated_steps,
    spec_parse_tokens, spec_parse_warmup, spec_parse_workout, spec_parse_workout_step,
    spec_starts_group,
};
use crate::parser::laws::{
    lemma_block_read, lemma_blocks_read, lemma_cooldown_read, lemma_skip_blanks,
    lemma_token_span, lemma_tokens_from, lemma_warmup_read, lemma_whole_input_is_read,
    spec_all_read, spec_block_well_formed, spec_step_well_formed, spec_well_formed,
};
use crate::parser::lexer::{
    lemma_digits_end_bounds, spec_digits_end, spec_digits_value, spec_is_last, spec_skip_blanks,
    spec_token_at, spec_tokenize, spec_tokens_from, Token, TokenKind,
};
use vstd::prelude::*;

verus! {

/// The token that writes a number.
pub open spec fn spec_write_number(value: Decimal) -> TokenKind {
    TokenKind::Number { integer: value.spec_scale() == 0, value: Some(value) }
}

/// `goal := number length_unit | number time_unit`
pub open spec fn spec_write_goal(goal: Goal) -> Seq<TokenKind> {
    match goal {
        Goal::Distance { value, unit } => seq![spec_write_number(value), TokenKind::Length(unit)],
        Goal::Duration { value, unit } => seq![spec_write_number(value), TokenKind::Duration(unit)],
    }
}

/// `pace := time "/" length_unit`
pub open spec fn spec_write_pace(pace: Pace) -> Seq<TokenKind> {
    seq![TokenKind::Time(Some(pace.time)), TokenKind::Slash, TokenKind::Length(pace.unit)]
}

/// `"@" alert`
pub open spec fn spec_write_alert(alert: Alert) -> Seq<TokenKind> {
    match alert {
        Alert::HeartRate(zone) => seq![TokenKind::At, TokenKind::Zone(zone)],
        Alert::PaceThreshold(pace) => seq![TokenKind::At] + spec_write_pace(pace),
        Alert::PaceRange { min, max } => seq![
            TokenKind::At,
            TokenKind::Time(Some(min.time)),
            TokenKind::Dash,
        ] + spec_write_pace(max),
    }
}

/// `step := goal ["@" alert]`
pub open spec fn spec_write_step(step: WorkoutStep) -> Seq<TokenKind> {
    spec_write_goal(step.goal) + match step.alert {
        Some(alert) => spec_write_alert(alert),
        None => Seq::empty(),
    }
}

/// `interval_step := step ["recovery"]`
pub open spec fn spec_write_interval_step(step: IntervalStep) -> Seq<TokenKind> {
    spec_write_step(step.step) + if step.has_recovery {
        seq![TokenKind::Recovery]
    } else {
        Seq::empty()
    }
}

/// `interval_step ("+" interval_step)*`
pub open spec fn spec_write_steps(steps: Seq<IntervalStep>) -> Seq<TokenKind>
    decreases steps.len(),
{
    if steps.len() == 0 {
        Seq::empty()
    } else if steps.len() == 1 {
        spec_write_interval_step(steps.first())
    } else {
        spec_write_interval_step(steps.first()) + seq![TokenKind::Plus] + spec_write_steps(
            steps.drop_first(),
        )
    }
}

/// `interval_block := integer "x" "(" interval_step ("+" interval_step)* ")"
/// | interval_step`
pub open spec fn spec_write_block(block: IntervalBlockView) -> Seq<TokenKind> {
    match block.repeats {
        Some(count) => seq![
            TokenKind::Number { integer: true, value: Some(Decimal::from_parts(count as nat, 0)) },
            TokenKind::Times,
            TokenKind::Open,
        ] + spec_write_steps(block.steps) + seq![TokenKind::Close],
        None => spec_write_steps(block.steps),
    }
}

/// `interval_blocks := interval_block ("+" interval_block)*`
pub open spec fn spec_write_blocks(blocks: Seq<IntervalBlockView>) -> Seq<TokenKind>
    decreases blocks.len(),
{
    if blocks.len() == 0 {
        Seq::empty()
    } else if blocks.len() == 1 {
        spec_write_block(blocks.first())
    } else {
        spec_write_block(blocks.first()) + seq![TokenKind::Plus] + spec_write_blocks(
            blocks.drop_first(),
        )
    }
}

/// `warmup := step "warmup" ["+"]`
pub open spec fn spec_write_warmup(warmup: Option<WorkoutStep>, plus: bool) -> Seq<TokenKind> {
    match warmup {
        Some(step) => spec_write_step(step) + seq![TokenKind::Warmup] + if plus {
            seq![TokenKind::Plus]
        } else {
            Seq::empty()
        },
        None => Seq::empty(),
    }
}

/// `cooldown := ["+"] step "cooldown"`
pub open spec fn spec_write_cooldown(cooldown: Option<WorkoutStep>, plus: bool) -> Seq<TokenKind> {
    match cooldown {
        Some(step) => (if plus {
            seq![TokenKind::Plus]
        } else {
            Seq::empty()
        }) + spec_write_step(step) + seq![TokenKind::Cooldown],
        None => Seq::empty(),
    }
}

/// `workout := [warmup] interval_blocks [cooldown] END`, with or without the
/// `+` after the warmup and before the cooldown.
pub open spec fn spec_write_workout(
    workout: WorkoutView,
    plus_after_warmup: bool,
    plus_before_cooldown: bool,
) -> Seq<TokenKind> {
    spec_write_warmup(workout.warmup, plus_after_warmup) + spec_write_blocks(workout.intervals)
        + spec_write_cooldown(workout.cooldown, plus_before_cooldown) + seq![TokenKind::End]
}

/// Whether the tokens from index `i` on are of these kinds, one after
/// another.
pub open spec fn spec_kinds_at(tokens: Seq<Token>, i: int, kinds: Seq<TokenKind>) -> bool {
    forall|k: int| 0 <= k < kinds.len() ==> spec_kind_at(tokens, i + k) == #[trigger] kinds[k]
}

/// Kinds stand one after another where a first part of them does and the
/// rest does after it.
pub proof fn lemma_kinds_split(
    tokens: Seq<Token>,
    i: int,
    first: Seq<TokenKind>,
    rest: Seq<TokenKind>,
)
    ensures
        spec_kinds_at(tokens, i, first + rest) <==> spec_kinds_at(tokens, i, first)
            && spec_kinds_at(tokens, i + first.len(), rest),
{
    let all = first + rest;
    if spec_kinds_at(tokens, i, all) {
        assert forall|k: int| 0 <= k < first.len() implies spec_kind_at(tokens, i + k)
            == #[trigger] first[k] by {
            assert(all[k] == first[k]);
        }
        assert forall|k: int| 0 <= k < rest.len() implies spec_kind_at(
            tokens,
            i + first.len() + k,
        ) == #[trigger] rest[k] by {
            assert(all[first.len() + k] == rest[k]);
        }
    }
    if spec_kinds_at(tokens, i, first) && spec_kinds_at(tokens, i + first.len(), rest) {
        assert forall|k: int| 0 <= k < all.len() implies spec_kind_at(tokens, i + k)
            == #[trigger] all[k] by {
            if k < first.len() {
                assert(all[k] == first[k]);
            } else {
                assert(all[k] == rest[k - first.len()]);
                assert(i + k == i + first.len() + (k - first.len()));
            }
        }
    }
}

/// Whether a token that is a number tells rightly whether it is whole.
pub open spec fn spec_consistent(tokens: Seq<Token>) -> bool {
    forall|k: int|
        0 <= k < tokens.len() ==> ((#[trigger] tokens[k]).kind matches TokenKind::Number {
            integer,
            value: Some(value),
        } ==> integer == (value.spec_scale() == 0))
}

/// The tokens that write a step are read as that step.
pub proof fn lemma_written_step_is_read(tokens: Seq<Token>, i: int, step: WorkoutStep)
    requires
        0 <= i,
        spec_step_well_formed(step),
        spec_kinds_at(tokens, i, spec_write_step(step)),
        step.alert is None ==> !(spec_kind_at(tokens, i + 2) is At),
    ensures
        spec_parse_workout_step(tokens, i) == Ok::<(WorkoutStep, int), ParseError>(
            (step, i + spec_write_step(step).len()),
        ),
        spec_write_step(step).len() >= 2,
{
    let goal = spec_write_goal(step.goal);
    let alert = match step.alert {
        Some(alert) => spec_write_alert(alert),
        None => Seq::empty(),
    };
    lemma_kinds_split(tokens, i, goal, alert);
    assert(spec_kind_at(tokens, i + 0) == goal[0]);
    assert(spec_kind_at(tokens, i + 1) == goal[1]);
    match step.alert {
        Some(Alert::HeartRate(zone)) => {
            assert(spec_kind_at(tokens, i + 2 + 0) == alert[0]);
            assert(spec_kind_at(tokens, i + 2 + 1) == alert[1]);
        },
        Some(Alert::PaceThreshold(pace)) => {
            assert(spec_kind_at(tokens, i + 2 + 0) == alert[0]);
            assert(spec_kind_at(tokens, i + 2 + 1) == alert[1]);
            assert(spec_kind_at(tokens, i + 2 + 2) == alert[2]);
            assert(spec_kind_at(tokens, i + 2 + 3) == alert[3]);
        },
        Some(Alert::PaceRange { min, max }) => {
            assert(spec_kind_at(tokens, i + 2 + 0) == alert[0]);
            assert(spec_kind_at(tokens, i + 2 + 1) == alert[1]);
            assert(spec_kind_at(tokens, i + 2 + 2) == alert[2]);
            assert(spec_kind_at(tokens, i + 2 + 3) == alert[3]);
            assert(spec_kind_at(tokens, i + 2 + 4) == alert[4]);
            assert(spec_kind_at(tokens, i + 2 + 5) == alert[5]);
        },
        None => {},
    }
}

/// Tokens that are read as a step are the tokens that write the step.
pub proof fn lemma_read_step_is_written(tokens: Seq<Token>, i: int)
    requires
        spec_consistent(tokens),
    ensures
        spec_parse_workout_step(tokens, i) matches Ok((step, next)) ==> spec_kinds_at(
            tokens,
            i,
            spec_write_step(step),
        ) && next == i + spec_write_step(step).len() && (step.alert is None ==> !(spec_kind_at(
            tokens,
            i + 2,
        ) is At)),
{
    if let Ok((step, next)) = spec_parse_workout_step(tokens, i) {
        let written = spec_write_step(step);
        assert(0 <= i < tokens.len());
        assert forall|k: int| 0 <= k < written.len() implies spec_kind_at(tokens, i + k)
            == #[trigger] written[k] by {
            let goal = spec_write_goal(step.goal);
            if k < 2 {
                assert(written[k] == goal[k]);
            } else {
                let alert = spec_write_alert(step.alert->Some_0);
                assert(written[k] == alert[k - 2]);
            }
        }
    }
}

/// Whether a token of this kind ends the step before it: it is neither an
/// `@` nor the word `recovery`.
pub open spec fn spec_ends_step(kind: TokenKind) -> bool {
    !(kind is At) && !(kind is Recovery)
}

/// The tokens that write a step of a block are read as that step.
pub proof fn lemma_written_interval_step_is_read(tokens: Seq<Token>, i: int, step: IntervalStep)
    requires
        0 <= i,
        spec_step_well_formed(step.step),
        spec_kinds_at(tokens, i, spec_write_interval_step(step)),
        spec_ends_step(spec_kind_at(tokens, i + spec_write_interval_step(step).len())),
    ensures
        spec_parse_interval_step(tokens, i) == Ok::<(IntervalStep, int), ParseError>(
            (step, i + spec_write_interval_step(step).len()),
        ),
        spec_parse_workout_step(tokens, i) == Ok::<(WorkoutStep, int), ParseError>(
            (step.step, i + spec_write_step(step.step).len()),
        ),
        spec_write_interval_step(step).len() >= 2,
{
    let written = spec_write_step(step.step);
    let mark = if step.has_recovery {
        seq![TokenKind::Recovery]
    } else {
        Seq::empty()
    };
    lemma_kinds_split(tokens, i, written, mark);
    if step.has_recovery {
        assert(spec_kind_at(tokens, i + written.len() + 0) == mark[0]);
    }
    lemma_written_step_is_read(tokens, i, step.step);
}

/// The tokens that write the steps of a group are read as those steps.
pub proof fn lemma_written_steps_are_read(tokens: Seq<Token>, i: int, steps: Seq<IntervalStep>)
    requires
        0 <= i,
        steps.len() >= 1,
        forall|j: int| 0 <= j < steps.len() ==> spec_step_well_formed((#[trigger] steps[j]).step),
        spec_kinds_at(tokens, i, spec_write_steps(steps)),
        spec_ends_step(spec_kind_at(tokens, i + spec_write_steps(steps).len())),
        !(spec_kind_at(tokens, i + spec_write_steps(steps).len()) is Plus),
    ensures
        spec_parse_repeated_steps(tokens, i) == Ok::<(Seq<IntervalStep>, int), ParseError>(
            (steps, i + spec_write_steps(steps).len()),
        ),
        spec_write_steps(steps).len() >= 2,
    decreases steps.len(),
{
    let first = steps.first();
    let head = spec_write_interval_step(first);
    assert(spec_step_well_formed(steps[0].step));
    if steps.len() == 1 {
        lemma_written_interval_step_is_read(tokens, i, first);
        assert(seq![first] =~= steps);
    } else {
        let rest = steps.drop_first();
        let tail = spec_write_steps(rest);
        let plus = seq![TokenKind::Plus];
        assert(spec_write_steps(steps) == head + plus + tail);
        lemma_kinds_split(tokens, i, head + plus, tail);
        lemma_kinds_split(tokens, i, head, plus);
        assert(spec_kind_at(tokens, i + head.len() + 0) == plus[0]);
        lemma_written_interval_step_is_read(tokens, i, first);
        assert forall|j: int| 0 <= j < rest.len() implies spec_step_well_formed(
            (#[trigger] rest[j]).step,
        ) by {
            assert(rest[j] == steps[j + 1]);
        }
        lemma_written_steps_are_read(tokens, i + head.len() + 1, rest);
        assert(seq![first] + rest =~= steps);
    }
}

/// The tokens that write a block are read as that block.
pub proof fn lemma_written_block_is_read(tokens: Seq<Token>, i: int, block: IntervalBlockView)
    requires
        0 <= i,
        spec_block_well_formed(block),
        spec_kinds_at(tokens, i, spec_write_block(block)),
        block.repeats is None ==> spec_ends_step(
            spec_kind_at(tokens, i + spec_write_block(block).len()),
        ),
    ensures
        spec_parse_interval_block(tokens, i) == Ok::<(IntervalBlockView, int), ParseError>(
            (block, i + spec_write_block(block).len()),
        ),
        spec_write_block(block).len() >= 2,
        block.repeats is Some ==> spec_parse_workout_step(tokens, i) is Err,
        block.repeats is None ==> spec_parse_workout_step(tokens, i) == Ok::<
            (WorkoutStep, int),
            ParseError,
        >((block.steps[0].step, i + spec_write_step(block.steps[0].step).len())),
{
    match block.repeats {
        Some(count) => {
            let head = seq![
                TokenKind::Number {
                    integer: true,
                    value: Some(Decimal::from_parts(count as nat, 0)),
                },
                TokenKind::Times,
                TokenKind::Open,
            ];
            let steps = spec_write_steps(block.steps);
            let close = seq![TokenKind::Close];
            lemma_kinds_split(tokens, i, head + steps, close);
            lemma_kinds_split(tokens, i, head, steps);
            assert(spec_kind_at(tokens, i + 0) == head[0]);
            assert(spec_kind_at(tokens, i + 1) == head[1]);
            assert(spec_kind_at(tokens, i + 2) == head[2]);
            assert(spec_kind_at(tokens, i + head.len() + steps.len() + 0) == close[0]);
            lemma_written_steps_are_read(tokens, i + 3, block.steps);
            Decimal::lemma_from_parts(count as nat, 0);
            assert(spec_starts_group(tokens, i));
        },
        None => {
            let step = block.steps.first();
            assert(spec_step_well_formed(block.steps[0].step));
            lemma_written_interval_step_is_read(tokens, i, step);
            assert(seq![step] =~= block.steps);
            lemma_read_step_kinds(tokens, i, step.step);
            assert(!spec_starts_group(tokens, i));
        },
    }
}

/// The first two tokens of a step that was read are its goal.
proof fn lemma_read_step_kinds(tokens: Seq<Token>, i: int, step: WorkoutStep)
    requires
        spec_parse_workout_step(tokens, i) matches Ok((read, _)) && read == step,
    ensures
        spec_kind_at(tokens, i) matches TokenKind::Number { .. },
        spec_kind_at(tokens, i + 1) is Length || spec_kind_at(tokens, i + 1) is Duration,
{
}

/// Whether the blocks end before the token at index `i`: it does not go on
/// a step, it is not the word `cooldown`, and where it is a `+`, a cooldown
/// stands there.
pub open spec fn spec_ends_blocks(tokens: Seq<Token>, i: int) -> bool {
    &&& spec_ends_step(spec_kind_at(tokens, i))
    &&& !(spec_kind_at(tokens, i) is Cooldown)
    &&& spec_kind_at(tokens, i) is Plus ==> spec_parse_cooldown(tokens, i) is Some
}

/// The tokens that write a `+` and a block are not read as a cooldown.
proof fn lemma_written_block_is_no_cooldown(tokens: Seq<Token>, i: int, block: IntervalBlockView)
    requires
        0 <= i,
        spec_block_well_formed(block),
        spec_kind_at(tokens, i) is Plus,
        spec_kinds_at(tokens, i + 1, spec_write_block(block)),
        spec_ends_step(spec_kind_at(tokens, i + 1 + spec_write_block(block).len())),
        !(spec_kind_at(tokens, i + 1 + spec_write_block(block).len()) is Cooldown),
    ensures
        spec_parse_cooldown(tokens, i) is None,
{
    lemma_written_block_is_read(tokens, i + 1, block);
    if block.repeats is None {
        let step = block.steps.first();
        let written = spec_write_step(step.step);
        let mark = if step.has_recovery {
            seq![TokenKind::Recovery]
        } else {
            Seq::empty()
        };
        lemma_kinds_split(tokens, i + 1, written, mark);
        if step.has_recovery {
            assert(spec_kind_at(tokens, i + 1 + written.len() + 0) == mark[0]);
        }
    }
}

/// The tokens that write further blocks, each after a `+`, are read as those
/// blocks.
pub proof fn lemma_written_blocks_are_read(
    tokens: Seq<Token>,
    i: int,
    blocks: Seq<IntervalBlockView>,
)
    requires
        0 <= i,
        forall|k: int| 0 <= k < blocks.len() ==> spec_block_well_formed(#[trigger] blocks[k]),
        blocks.len() > 0 ==> spec_kinds_at(
            tokens,
            i,
            seq![TokenKind::Plus] + spec_write_blocks(blocks),
        ),
        spec_ends_blocks(
            tokens,
            i + if blocks.len() > 0 {
                1 + spec_write_blocks(blocks).len()
            } else {
                0
            },
        ),
    ensures
        spec_parse_more_blocks(tokens, i) == Ok::<(Seq<IntervalBlockView>, int), ParseError>(
            (
                blocks,
                i + if blocks.len() > 0 {
                    1 + spec_write_blocks(blocks).len()
                } else {
                    0
                },
            ),
        ),
    decreases blocks.len(),
{
    if blocks.len() == 0 {
        assert(blocks =~= Seq::empty());
    } else {
        let first = blocks.first();
        let rest = blocks.drop_first();
        let plus = seq![TokenKind::Plus];
        let head = spec_write_block(first);
        assert(spec_block_well_formed(blocks[0]));
        lemma_kinds_split(tokens, i, plus, spec_write_blocks(blocks));
        assert(spec_kind_at(tokens, i + 0) == plus[0]);
        if rest.len() > 0 {
            let tail = spec_write_blocks(rest);
            assert(spec_write_blocks(blocks) == head + plus + tail);
            lemma_kinds_split(tokens, i + 1, head + plus, tail);
            lemma_kinds_split(tokens, i + 1, head, plus);
            assert(spec_kind_at(tokens, i + 1 + head.len() + 0) == plus[0]);
            lemma_kinds_split(tokens, i + 1 + head.len(), plus, tail);
            assert(plus + tail =~= seq![TokenKind::Plus] + spec_write_blocks(rest));
        }
        lemma_written_block_is_no_cooldown(tokens, i, first);
        lemma_written_block_is_read(tokens, i + 1, first);
        lemma_block_read(tokens, i + 1);
        assert forall|k: int| 0 <= k < rest.len() implies spec_block_well_formed(
            #[trigger] rest[k],
        ) by {
            assert(rest[k] == blocks[k + 1]);
        }
        lemma_written_blocks_are_read(tokens, i + 1 + head.len(), rest);
        assert(seq![first] + rest =~= blocks);
    }
}

/// The tokens that write blocks are read as those blocks.
pub proof fn lemma_written_interval_blocks_are_read(
    tokens: Seq<Token>,
    i: int,
    blocks: Seq<IntervalBlockView>,
)
    requires
        0 <= i,
        blocks.len() >= 1,
        forall|k: int| 0 <= k < blocks.len() ==> spec_block_well_formed(#[trigger] blocks[k]),
        spec_kinds_at(tokens, i, spec_write_blocks(blocks)),
        spec_ends_blocks(tokens, i + spec_write_blocks(blocks).len()),
        spec_written_tail(spec_kind_at(tokens, i + spec_write_blocks(blocks).len())),
    ensures
        spec_parse_interval_blocks(tokens, i) == Ok::<(Seq<IntervalBlockView>, int), ParseError>(
            (blocks, i + spec_write_blocks(blocks).len()),
        ),
        spec_parse_interval_block(tokens, i) == Ok::<(IntervalBlockView, int), ParseError>(
            (blocks.first(), i + spec_write_block(blocks.first()).len()),
        ),
        spec_kinds_at(tokens, i, spec_write_block(blocks.first())),
        spec_ends_step(spec_kind_at(tokens, i + spec_write_block(blocks.first()).len())),
        !(spec_kind_at(tokens, i + spec_write_block(blocks.first()).len()) is Warmup),
{
    let first = blocks.first();
    let rest = blocks.drop_first();
    let head = spec_write_block(first);
    let plus = seq![TokenKind::Plus];
    assert(spec_block_well_formed(blocks[0]));
    if rest.len() > 0 {
        let tail = spec_write_blocks(rest);
        assert(spec_write_blocks(blocks) == head + plus + tail);
        lemma_kinds_split(tokens, i, head + plus, tail);
        lemma_kinds_split(tokens, i, head, plus);
        assert(spec_kind_at(tokens, i + head.len() + 0) == plus[0]);
        lemma_kinds_split(tokens, i + head.len(), plus, tail);
        assert(plus + tail =~= seq![TokenKind::Plus] + spec_write_blocks(rest));
    }
    lemma_written_block_is_read(tokens, i, first);
    assert forall|k: int| 0 <= k < rest.len() implies spec_block_well_formed(
        #[trigger] rest[k],
    ) by {
        assert(rest[k] == blocks[k + 1]);
    }
    lemma_written_blocks_are_read(tokens, i + head.len(), rest);
    assert(seq![first] + rest =~= blocks);
}

/// Whether a token of this kind can follow the blocks of a written workout:
/// it is a `+`, a number or the end of the input.
pub open spec fn spec_written_tail(kind: TokenKind) -> bool {
    kind is Plus || kind is Number || kind is End
}

/// The tokens that write a cooldown, or none, and the end of the input are
/// read as that cooldown; they end the blocks before them.
pub proof fn lemma_written_cooldown_is_read(
    tokens: Seq<Token>,
    i: int,
    cooldown: Option<WorkoutStep>,
    plus: bool,
)
    requires
        0 <= i,
        cooldown matches Some(step) ==> spec_step_well_formed(step),
        spec_kinds_at(tokens, i, spec_write_cooldown(cooldown, plus) + seq![TokenKind::End]),
    ensures
        spec_ends_blocks(tokens, i),
        spec_written_tail(spec_kind_at(tokens, i)),
        spec_parse_cooldown(tokens, i) == match cooldown {
            Some(step) => Some((step, i + spec_write_cooldown(cooldown, plus).len())),
            None => None,
        },
        spec_kind_at(tokens, i + spec_write_cooldown(cooldown, plus).len()) is End,
{
    let written = spec_write_cooldown(cooldown, plus);
    let end = seq![TokenKind::End];
    lemma_kinds_split(tokens, i, written, end);
    assert(spec_kind_at(tokens, i + written.len() + 0) == end[0]);
    match cooldown {
        Some(step) => {
            let lead = if plus {
                seq![TokenKind::Plus]
            } else {
                Seq::empty()
            };
            let body = spec_write_step(step);
            let word = seq![TokenKind::Cooldown];
            lemma_kinds_split(tokens, i, lead + body, word);
            lemma_kinds_split(tokens, i, lead, body);
            assert(spec_kind_at(tokens, i + lead.len() + body.len() + 0) == word[0]);
            if plus {
                assert(spec_kind_at(tokens, i + 0) == lead[0]);
            }
            lemma_written_step_is_read(tokens, i + lead.len(), step);
            lemma_read_step_kinds(tokens, i + lead.len(), step);
        },
        None => {},
    }
}

/// The tokens that write a warmup, or none, before a block are read as that
/// warmup.
pub proof fn lemma_written_warmup_is_read(
    tokens: Seq<Token>,
    warmup: Option<WorkoutStep>,
    plus: bool,
    first: IntervalBlockView,
)
    requires
        warmup matches Some(step) ==> spec_step_well_formed(step),
        spec_block_well_formed(first),
        spec_kinds_at(tokens, 0, spec_write_warmup(warmup, plus)),
        spec_kinds_at(tokens, spec_write_warmup(warmup, plus).len() as int, spec_write_block(first)),
        spec_ends_step(
            spec_kind_at(
                tokens,
                (spec_write_warmup(warmup, plus).len() + spec_write_block(first).len()) as int,
            ),
        ),
        !(spec_kind_at(
            tokens,
            (spec_write_warmup(warmup, plus).len() + spec_write_block(first).len()) as int,
        ) is Warmup),
    ensures
        spec_parse_warmup(tokens) == match warmup {
            Some(step) => Some((step, spec_write_warmup(warmup, plus).len() as int)),
            None => None,
        },
{
    let start = spec_write_warmup(warmup, plus).len() as int;
    lemma_written_block_is_read(tokens, start, first);
    match warmup {
        Some(step) => {
            let written = spec_write_step(step);
            let word = seq![TokenKind::Warmup];
            let lead = if plus {
                seq![TokenKind::Plus]
            } else {
                Seq::empty()
            };
            lemma_kinds_split(tokens, 0, written + word, lead);
            lemma_kinds_split(tokens, 0, written, word);
            assert(spec_kind_at(tokens, 0int + written.len() + 0) == word[0]);
            if plus {
                assert(spec_kind_at(tokens, 0int + written.len() + 1 + 0) == lead[0]);
            }
            lemma_written_step_is_read(tokens, 0, step);
            lemma_block_read(tokens, start);
        },
        None => {
            if first.repeats is None {
                let step = first.steps.first();
                let written = spec_write_step(step.step);
                let mark = if step.has_recovery {
                    seq![TokenKind::Recovery]
                } else {
                    Seq::empty()
                };
                lemma_kinds_split(tokens, 0, written, mark);
                if step.has_recovery {
                    assert(spec_kind_at(tokens, 0int + written.len() + 0) == mark[0]);
                }
            }
        },
    }
}

/// The tokens that write a well-formed workout are read as that workout,
/// with or without the `+` after the warmup and before the cooldown.
pub proof fn lemma_written_workout_is_read(
    tokens: Seq<Token>,
    workout: WorkoutView,
    plus_after_warmup: bool,
    plus_before_cooldown: bool,
)
    requires
        spec_well_formed(workout),
        spec_kinds_at(
            tokens,
            0,
            spec_write_workout(workout, plus_after_warmup, plus_before_cooldown),
        ),
    ensures
        spec_parse_tokens(tokens) == Ok::<WorkoutView, ParseError>(workout),
{
    let warmup = spec_write_warmup(workout.warmup, plus_after_warmup);
    let blocks = spec_write_blocks(workout.intervals);
    let cooldown = spec_write_cooldown(workout.cooldown, plus_before_cooldown);
    let end = seq![TokenKind::End];
    assert(spec_write_workout(workout, plus_after_warmup, plus_before_cooldown) =~= warmup + (
    blocks + (cooldown + end)));
    lemma_kinds_split(tokens, 0, warmup, blocks + (cooldown + end));
    let start = warmup.len() as int;
    lemma_kinds_split(tokens, start, blocks, cooldown + end);
    let after = start + blocks.len();
    lemma_written_cooldown_is_read(tokens, after, workout.cooldown, plus_before_cooldown);
    lemma_written_interval_blocks_are_read(tokens, start, workout.intervals);
    assert(spec_block_well_formed(workout.intervals[0]));
    lemma_written_warmup_is_read(
        tokens,
        workout.warmup,
        plus_after_warmup,
        workout.intervals.first(),
    );
}

/// Tokens that are read as a step of a block are the tokens that write it.
pub proof fn lemma_read_interval_step_is_written(tokens: Seq<Token>, i: int)
    requires
        spec_consistent(tokens),
    ensures
        spec_parse_interval_step(tokens, i) matches Ok((step, next)) ==> spec_kinds_at(
            tokens,
            i,
            spec_write_interval_step(step),
        ) && next == i + spec_write_interval_step(step).len(),
{
    lemma_read_step_is_written(tokens, i);
    if let Ok((step, next)) = spec_parse_interval_step(tokens, i) {
        let written = spec_write_step(step.step);
        let mark = if step.has_recovery {
            seq![TokenKind::Recovery]
        } else {
            Seq::empty()
        };
        assert(spec_kinds_at(tokens, i + written.len(), mark));
        lemma_kinds_split(tokens, i, written, mark);
    }
}

/// Tokens that are read as the steps of a group are the tokens that write
/// them.
pub proof fn lemma_read_steps_are_written(tokens: Seq<Token>, i: int)
    requires
        spec_consistent(tokens),
    ensures
        spec_parse_repeated_steps(tokens, i) matches Ok((steps, next)) ==> spec_kinds_at(
            tokens,
            i,
            spec_write_steps(steps),
        ) && next == i + spec_write_steps(steps).len() && steps.len() >= 1,
    decreases tokens.len() - i,
{
    lemma_read_interval_step_is_written(tokens, i);
    if let Ok((first, next)) = spec_parse_interval_step(tokens, i) {
        let head = spec_write_interval_step(first);
        if spec_kind_at(tokens, next) is Plus && i < next < tokens.len() {
            lemma_read_steps_are_written(tokens, next + 1);
            if let Ok((rest, end)) = spec_parse_repeated_steps(tokens, next + 1) {
                let steps = seq![first] + rest;
                let plus = seq![TokenKind::Plus];
                let tail = spec_write_steps(rest);
                assert(steps.first() == first);
                assert(steps.drop_first() =~= rest);
                assert(spec_write_steps(steps) == head + plus + tail);
                assert(spec_kinds_at(tokens, i + head.len(), plus));
                lemma_kinds_split(tokens, i, head, plus);
                lemma_kinds_split(tokens, i, head + plus, tail);
            }
        } else {
            assert(seq![first].first() == first);
        }
    }
}

/// Tokens that are read as a block are the tokens that write it.
pub proof fn lemma_read_block_is_written(tokens: Seq<Token>, i: int)
    requires
        spec_consistent(tokens),
    ensures
        spec_parse_interval_block(tokens, i) matches Ok((block, next)) ==> spec_kinds_at(
            tokens,
            i,
            spec_write_block(block),
        ) && next == i + spec_write_block(block).len(),
{
    lemma_read_interval_step_is_written(tokens, i);
    lemma_read_steps_are_written(tokens, i + 3);
    if let Ok((block, next)) = spec_parse_interval_block(tokens, i) {
        match block.repeats {
            Some(count) => {
                let read = spec_kind_at(tokens, i)->value->Some_0;
                assert(tokens[i].kind == spec_kind_at(tokens, i));
                Decimal::lemma_from_parts(count as nat, 0);
                Decimal::lemma_same_parts(read, Decimal::from_parts(count as nat, 0));
                let head = seq![
                    TokenKind::Number {
                        integer: true,
                        value: Some(Decimal::from_parts(count as nat, 0)),
                    },
                    TokenKind::Times,
                    TokenKind::Open,
                ];
                let steps = spec_write_steps(block.steps);
                let close = seq![TokenKind::Close];
                assert(spec_kinds_at(tokens, i, head));
                assert(spec_kinds_at(tokens, i + head.len() + steps.len(), close));
                lemma_kinds_split(tokens, i, head, steps);
                lemma_kinds_split(tokens, i, head + steps, close);
            },
            None => {
                assert(block.steps.first() == block.steps[0]);
            },
        }
    }
}

/// Tokens that are read as further blocks are the tokens that write them,
/// each after a `+`.
pub proof fn lemma_read_blocks_are_written(tokens: Seq<Token>, i: int)
    requires
        spec_consistent(tokens),
        0 <= i <= tokens.len(),
    ensures
        spec_parse_more_blocks(tokens, i) matches Ok((blocks, next)) ==> if blocks.len() > 0 {
            spec_kinds_at(tokens, i, seq![TokenKind::Plus] + spec_write_blocks(blocks)) && next == i
                + 1 + spec_write_blocks(blocks).len()
        } else {
            next == i
        },
    decreases tokens.len() - i,
{
    if spec_kind_at(tokens, i) is Plus && spec_parse_cooldown(tokens, i) is None {
        lemma_read_block_is_written(tokens, i + 1);
        if let Ok((first, next)) = spec_parse_interval_block(tokens, i + 1) {
            let plus = seq![TokenKind::Plus];
            let head = spec_write_block(first);
            assert(spec_kinds_at(tokens, i, plus));
            if i < next <= tokens.len() {
                lemma_read_blocks_are_written(tokens, next);
                if let Ok((rest, end)) = spec_parse_more_blocks(tokens, next) {
                    let blocks = seq![first] + rest;
                    assert(blocks.first() == first);
                    assert(blocks.drop_first() =~= rest);
                    if rest.len() > 0 {
                        let tail = spec_write_blocks(rest);
                        assert(spec_write_blocks(blocks) == head + plus + tail);
                        lemma_kinds_split(tokens, next, plus, tail);
                        lemma_kinds_split(tokens, i + 1, head, plus + tail);
                        assert(head + (plus + tail) =~= head + plus + tail);
                    }
                    lemma_kinds_split(tokens, i, plus, spec_write_blocks(blocks));
                }
            } else {
                assert(seq![first].first() == first);
                lemma_kinds_split(tokens, i, plus, head);
            }
        }
    }
}

/// Tokens that are read as blocks are the tokens that write them.
pub proof fn lemma_read_interval_blocks_are_written(tokens: Seq<Token>, i: int)
    requires
        spec_consistent(tokens),
        0 <= i <= tokens.len(),
    ensures
        spec_parse_interval_blocks(tokens, i) matches Ok((blocks, next)) ==> spec_kinds_at(
            tokens,
            i,
            spec_write_blocks(blocks),
        ) && next == i + spec_write_blocks(blocks).len(),
{
    lemma_read_block_is_written(tokens, i);
    if let Ok((first, next)) = spec_parse_interval_block(tokens, i) {
        lemma_block_read(tokens, i);
        lemma_read_blocks_are_written(tokens, next);
        if let Ok((rest, after)) = spec_parse_more_blocks(tokens, next) {
            lemma_first_block_and_more(tokens, i, first, rest);
        }
    }
}

/// Tokens that are read as a warmup are the tokens that write it.
pub proof fn lemma_read_warmup_is_written(tokens: Seq<Token>)
    requires
        spec_consistent(tokens),
    ensures
        spec_parse_warmup(tokens) matches Some((step, next)) ==> spec_kinds_at(
            tokens,
            0,
            spec_write_warmup(Some(step), next == spec_write_step(step).len() + 2),
        ) && next == spec_write_warmup(Some(step), next == spec_write_step(step).len() + 2).len(),
{
    lemma_read_step_is_written(tokens, 0);
    if let Some((step, next)) = spec_parse_warmup(tokens) {
        let plus = next == spec_write_step(step).len() + 2;
        let written = spec_write_step(step);
        let word = seq![TokenKind::Warmup];
        let lead = if plus {
            seq![TokenKind::Plus]
        } else {
            Seq::empty()
        };
        assert(spec_kinds_at(tokens, 0int + written.len(), word));
        assert(spec_kinds_at(tokens, 0int + written.len() + 1, lead));
        lemma_kinds_split(tokens, 0, written, word);
        lemma_kinds_split(tokens, 0, written + word, lead);
    }
}

/// Tokens that are read as a workout are the tokens that write it, with or
/// without the `+` after the warmup and before the cooldown.
#[verifier::rlimit(60)]
pub proof fn lemma_read_workout_is_written(tokens: Seq<Token>)
    requires
        spec_consistent(tokens),
    ensures
        spec_parse_tokens(tokens) matches Ok(workout) ==> exists|
            plus_after_warmup: bool,
            plus_before_cooldown: bool,
        |
            spec_kinds_at(
                tokens,
                0,
                #[trigger] spec_write_workout(workout, plus_after_warmup, plus_before_cooldown),
            ) && spec_all_read(
                tokens,
                0,
                spec_write_workout(workout, plus_after_warmup, plus_before_cooldown).len() - 1,
            ),
{
    if let Ok(workout) = spec_parse_tokens(tokens) {
        lemma_read_warmup_is_written(tokens);
        lemma_warmup_read(tokens);
        let start = match spec_parse_warmup(tokens) {
            Some((_, next)) => next,
            None => 0,
        };
        let after_warmup = match workout.warmup {
            Some(step) => start == spec_write_step(step).len() + 2,
            None => false,
        };
        let warmup = spec_write_warmup(workout.warmup, after_warmup);
        assert(spec_kinds_at(tokens, 0, warmup) && start == warmup.len());
        lemma_read_interval_blocks_are_written(tokens, start);
        lemma_blocks_read(tokens, start);
        let blocks = spec_write_blocks(workout.intervals);
        let after = start + blocks.len();
        lemma_read_cooldown_is_written(tokens, after);
        let before_cooldown = spec_kind_at(tokens, after) is Plus;
        let cooldown = spec_write_cooldown(workout.cooldown, before_cooldown);
        let end = seq![TokenKind::End];
        assert(spec_kinds_at(tokens, after + cooldown.len(), end));
        lemma_kinds_split(tokens, after, cooldown, end);
        lemma_kinds_split(tokens, start, blocks, cooldown + end);
        lemma_kinds_split(tokens, 0, warmup, blocks + (cooldown + end));
        assert(spec_write_workout(workout, after_warmup, before_cooldown) =~= warmup + (blocks + (
        cooldown + end)));
        lemma_cooldown_read(tokens, after);
        assert(spec_all_read(tokens, 0, after + cooldown.len()));
    }
}

/// A block and the blocks read after it are written one after another.
proof fn lemma_first_block_and_more(
    tokens: Seq<Token>,
    i: int,
    first: IntervalBlockView,
    rest: Seq<IntervalBlockView>,
)
    requires
        spec_kinds_at(tokens, i, spec_write_block(first)),
        rest.len() > 0 ==> spec_kinds_at(
            tokens,
            i + spec_write_block(first).len(),
            seq![TokenKind::Plus] + spec_write_blocks(rest),
        ),
    ensures
        spec_kinds_at(tokens, i, spec_write_blocks(seq![first] + rest)),
        spec_write_blocks(seq![first] + rest).len() == spec_write_block(first).len() + if rest.len()
            > 0 {
            1 + spec_write_blocks(rest).len()
        } else {
            0
        },
{
    let blocks = seq![first] + rest;
    let head = spec_write_block(first);
    let plus = seq![TokenKind::Plus];
    assert(blocks.first() == first);
    assert(blocks.drop_first() =~= rest);
    if rest.len() > 0 {
        let tail = spec_write_blocks(rest);
        assert(spec_write_blocks(blocks) == head + plus + tail);
        assert(head + (plus + tail) =~= head + plus + tail);
        lemma_kinds_split(tokens, i, head, plus + tail);
    }
}

/// Tokens that are read as a cooldown are the tokens that write it.
proof fn lemma_read_cooldown_is_written(tokens: Seq<Token>, i: int)
    requires
        spec_consistent(tokens),
        0 <= i,
    ensures
        spec_parse_cooldown(tokens, i) matches Some((step, next)) ==> spec_kinds_at(
            tokens,
            i,
            spec_write_cooldown(Some(step), spec_kind_at(tokens, i) is Plus),
        ) && next == i + spec_write_cooldown(Some(step), spec_kind_at(tokens, i) is Plus).len(),
{
    if let Some((step, next)) = spec_parse_cooldown(tokens, i) {
        let plus = spec_kind_at(tokens, i) is Plus;
        let lead = if plus {
            seq![TokenKind::Plus]
        } else {
            Seq::empty()
        };
        let written = spec_write_step(step);
        let word = seq![TokenKind::Cooldown];
        lemma_read_step_is_written(tokens, i + lead.len());
        assert(spec_kinds_at(tokens, i, lead));
        assert(spec_kinds_at(tokens, i + lead.len() + written.len(), word));
        lemma_kinds_split(tokens, i, lead, written);
        lemma_kinds_split(tokens, i, lead + written, word);
    }
}

/// A number that the tokenizer reads tells rightly whether it is whole.
proof fn lemma_token_is_consistent(input: Seq<u8>, pos: int)
    requires
        0 <= pos <= input.len(),
    ensures
        spec_token_at(input, pos).kind matches TokenKind::Number { integer, value: Some(value) }
            ==> integer == (value.spec_scale() == 0),
{
    if pos < input.len() {
        let whole_end = spec_digits_end(input, pos);
        lemma_digits_end_bounds(input, pos);
        if whole_end + 1 <= input.len() {
            lemma_digits_end_bounds(input, whole_end + 1);
        }
        if let TokenKind::Number { integer, value: Some(value) } = spec_token_at(input, pos).kind {
            let part_end = spec_digits_end(input, whole_end + 1);
            let whole = input.subrange(pos, whole_end);
            let part = input.subrange(whole_end + 1, part_end);
            if integer {
                Decimal::lemma_from_parts(spec_digits_value(whole), 0);
            } else {
                Decimal::lemma_from_parts(
                    spec_digits_value(whole + part),
                    part.len(),
                );
            }
        }
    }
}

/// The numbers among the tokens of an input tell rightly whether they are
/// whole.
pub proof fn lemma_tokens_are_consistent(input: Seq<u8>, pos: int)
    requires
        0 <= pos <= input.len() <= usize::MAX,
    ensures
        spec_consistent(spec_tokens_from(input, pos)),
    decreases input.len() - pos,
{
    let start = spec_skip_blanks(input, pos);
    lemma_skip_blanks(input, pos);
    lemma_token_span(input, start);
    lemma_token_is_consistent(input, start);
    let token = spec_token_at(input, start);
    let all = spec_tokens_from(input, pos);
    if all.len() > 1 {
        let rest = spec_tokens_from(input, token.end as int);
        lemma_tokens_are_consistent(input, token.end as int);
        assert forall|k: int| 0 <= k < all.len() implies ((#[trigger] all[k]).kind matches TokenKind::Number {
            integer,
            value: Some(value),
        } ==> integer == (value.spec_scale() == 0)) by {
            if k > 0 {
                assert(all[k] == rest[k - 1]);
            }
        }
    }
}

/// The kinds of the tokens, in their order.
pub open spec fn spec_kinds(tokens: Seq<Token>) -> Seq<TokenKind> {
    tokens.map_values(|token: Token| token.kind)
}

/// An input writes a workout exactly where the workout is well formed and
/// the tokens of the input are, kind for kind, the tokens that write the
/// workout, with or without the `+` after the warmup and before the
/// cooldown.
pub proof fn lemma_inputs_of_a_workout(input: Seq<u8>, workout: WorkoutView)
    requires
        input.len() <= usize::MAX,
    ensures
        spec_parse_workout(input) == Ok::<WorkoutView, ParseError>(workout) <==> spec_well_formed(
            workout,
        ) && exists|plus_after_warmup: bool, plus_before_cooldown: bool|
            spec_kinds(spec_tokenize(input)) == #[trigger] spec_write_workout(
                workout,
                plus_after_warmup,
                plus_before_cooldown,
            ),
{
    let tokens = spec_tokenize(input);
    let kinds = spec_kinds(tokens);
    lemma_tokens_from(input, 0);
    lemma_tokens_are_consistent(input, 0);
    if spec_parse_workout(input) == Ok::<WorkoutView, ParseError>(workout) {
        lemma_whole_input_is_read(input);
        lemma_read_workout_is_written(tokens);
        let (a, b) = choose|a: bool, b: bool|
            spec_kinds_at(tokens, 0, #[trigger] spec_write_workout(workout, a, b))
                && spec_all_read(tokens, 0, spec_write_workout(workout, a, b).len() - 1);
        let written = spec_write_workout(workout, a, b);
        let last = written.len() - 1;
        assert(written[last] is End);
        assert(spec_kind_at(tokens, 0 + last) == written[last]);
        if last == tokens.len() {
            assert(!spec_is_last(tokens[tokens.len() - 1].kind));
        }
        if last < tokens.len() - 1 {
            assert(!spec_is_last(tokens[last].kind));
        }
        assert(kinds =~= written) by {
            assert forall|k: int| 0 <= k < kinds.len() implies kinds[k] == written[k] by {
                assert(spec_kind_at(tokens, 0 + k) == written[k]);
            }
        }
    }
    if spec_well_formed(workout) && exists|a: bool, b: bool|
        kinds == #[trigger] spec_write_workout(workout, a, b) {
        let (a, b) = choose|a: bool, b: bool| kinds == #[trigger] spec_write_workout(workout, a, b);
        let written = spec_write_workout(workout, a, b);
        assert forall|k: int| 0 <= k < written.len() implies spec_kind_at(tokens, 0 + k)
            == #[trigger] written[k] by {
            assert(kinds[k] == tokens[k].kind);
        }
        lemma_written_workout_is_read(tokens, workout, a, b);
    }
}

} // verus!
