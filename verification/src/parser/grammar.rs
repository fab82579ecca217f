//! The notation's grammar, as functions from a list of tokens to what the
//! tokens say.
//!
//! ```text
//! workout        := [warmup] interval_blocks [cooldown] END
//! warmup         := step "warmup" ["+"]
//! cooldown       := ["+"] step "cooldown"
//! interval_blocks:= interval_block ("+" interval_block)*
//! interval_block := integer "x" "(" interval_step ("+" interval_step)* ")"
//!                 | interval_step
//! interval_step  := step ["recovery"]
//! step           := goal ["@" alert]
//! goal           := number length_unit | number time_unit
//! alert          := zone | pace | pace_range
//! pace           := time "/" length_unit
//! pace_range     := time "-" time "/" length_unit
//! ```
//!
//! A block after a `+` is read only where no cooldown stands there. Each
//! function takes the index of the token at which its rule starts and gives
//! what the rule says together with the index after the rule's last token, or
//! the error of the first token that does not fit. Where the rules leave a
//! choice, the error is that of the choice that read furthest.

use crate::models::{
    Alert, Decimal, Goal, IntervalBlockView, IntervalStep, Pace, WorkoutStep, WorkoutView,
};
use crate::parser::error::{ParseError, Rule, RuleSet};
use crate::parser::lexer::{spec_tokenize, Token, TokenKind};
use vstd::prelude::*;

verus! {

/// The kind of the token at index `i`; past the last token, the end of the
/// input.
pub open spec fn spec_kind_at(tokens: Seq<Token>, i: int) -> TokenKind {
    if 0 <= i < tokens.len() {
        tokens[i].kind
    } else {
        TokenKind::End
    }
}

/// The byte offset of the token at index `i`; past the last token, the
/// offset at which the last token ends.
pub open spec fn spec_position_at(tokens: Seq<Token>, i: int) -> usize {
    if 0 <= i < tokens.len() {
        tokens[i].start
    } else if tokens.len() > 0 {
        tokens.last().end
    } else {
        0
    }
}

/// The error of a token at index `i` that is none of `expected`.
pub open spec fn spec_unexpected(tokens: Seq<Token>, i: int, expected: RuleSet) -> ParseError {
    ParseError::Syntax { position: spec_position_at(tokens, i), expected }
}

/// The error of a number or time at index `i` that the model cannot hold.
pub open spec fn spec_out_of_range(tokens: Seq<Token>, i: int) -> ParseError {
    ParseError::OutOfRange { position: spec_position_at(tokens, i) }
}

/// The time at index `i`, in seconds.
pub open spec fn spec_parse_time(tokens: Seq<Token>, i: int) -> Result<Decimal, ParseError> {
    match spec_kind_at(tokens, i) {
        TokenKind::Time(Some(seconds)) => Ok(seconds),
        TokenKind::Time(None) => Err(spec_out_of_range(tokens, i)),
        _ => Err(spec_unexpected(tokens, i, RuleSet::of(Rule::Time))),
    }
}

/// `pace := time "/" length_unit`
pub open spec fn spec_parse_pace(tokens: Seq<Token>, i: int) -> Result<(Pace, int), ParseError> {
    match spec_parse_time(tokens, i) {
        Err(e) => Err(e),
        Ok(time) => match spec_kind_at(tokens, i + 1) {
            TokenKind::Slash => match spec_kind_at(tokens, i + 2) {
                TokenKind::Length(unit) => Ok((Pace { time, unit }, i + 3)),
                _ => Err(spec_unexpected(tokens, i + 2, RuleSet::of(Rule::LengthUnit))),
            },
            _ => Err(spec_unexpected(tokens, i + 1, RuleSet::of(Rule::Slash))),
        },
    }
}

/// `pace_range := time "-" time "/" length_unit`; both paces are in the one
/// unit.
pub open spec fn spec_parse_pace_range(tokens: Seq<Token>, i: int) -> Result<
    (Alert, int),
    ParseError,
> {
    match spec_parse_time(tokens, i) {
        Err(e) => Err(e),
        Ok(first) => match spec_kind_at(tokens, i + 1) {
            TokenKind::Dash => match spec_parse_pace(tokens, i + 2) {
                Err(e) => Err(e),
                Ok((second, next)) => Ok(
                    (
                        Alert::PaceRange {
                            min: Pace { time: first, unit: second.unit },
                            max: second,
                        },
                        next,
                    ),
                ),
            },
            _ => Err(spec_unexpected(tokens, i + 1, RuleSet::of(Rule::Dash))),
        },
    }
}

/// `alert := zone | pace | pace_range`, after the `@`.
pub open spec fn spec_parse_alert(tokens: Seq<Token>, i: int) -> Result<(Alert, int), ParseError> {
    match spec_kind_at(tokens, i) {
        TokenKind::Zone(zone) => Ok((Alert::HeartRate(zone), i + 1)),
        TokenKind::Time(_) => match spec_kind_at(tokens, i + 1) {
            TokenKind::Dash => spec_parse_pace_range(tokens, i),
            TokenKind::Slash => match spec_parse_pace(tokens, i) {
                Err(e) => Err(e),
                Ok((pace, next)) => Ok((Alert::PaceThreshold(pace), next)),
            },
            _ => Err(
                spec_unexpected(tokens, i + 1, RuleSet::of(Rule::Dash).with(Rule::Slash)),
            ),
        },
        _ => Err(spec_unexpected(tokens, i, RuleSet::of(Rule::Zone).with(Rule::Time))),
    }
}

/// `goal := number length_unit | number time_unit`
pub open spec fn spec_parse_goal(tokens: Seq<Token>, i: int) -> Result<(Goal, int), ParseError> {
    match spec_kind_at(tokens, i) {
        TokenKind::Number { value, .. } => match spec_kind_at(tokens, i + 1) {
            TokenKind::Length(unit) => match value {
                Some(value) => Ok((Goal::Distance { value, unit }, i + 2)),
                None => Err(spec_out_of_range(tokens, i)),
            },
            TokenKind::Duration(unit) => match value {
                Some(value) => Ok((Goal::Duration { value, unit }, i + 2)),
                None => Err(spec_out_of_range(tokens, i)),
            },
            _ => Err(
                spec_unexpected(
                    tokens,
                    i + 1,
                    RuleSet::of(Rule::LengthUnit).with(Rule::TimeUnit),
                ),
            ),
        },
        _ => Err(spec_unexpected(tokens, i, RuleSet::of(Rule::Number))),
    }
}

/// `step := goal ["@" alert]`
pub open spec fn spec_parse_workout_step(tokens: Seq<Token>, i: int) -> Result<
    (WorkoutStep, int),
    ParseError,
> {
    match spec_parse_goal(tokens, i) {
        Err(e) => Err(e),
        Ok((goal, next)) => if spec_kind_at(tokens, next) is At {
            match spec_parse_alert(tokens, next + 1) {
                Err(e) => Err(e),
                Ok((alert, end)) => Ok((WorkoutStep { goal, alert: Some(alert) }, end)),
            }
        } else {
            Ok((WorkoutStep { goal, alert: None }, next))
        },
    }
}

/// `interval_step := step ["recovery"]`
pub open spec fn spec_parse_interval_step(tokens: Seq<Token>, i: int) -> Result<
    (IntervalStep, int),
    ParseError,
> {
    match spec_parse_workout_step(tokens, i) {
        Err(e) => Err(e),
        Ok((step, next)) => if spec_kind_at(tokens, next) is Recovery {
            Ok((IntervalStep { step, has_recovery: true }, next + 1))
        } else {
            Ok((IntervalStep { step, has_recovery: false }, next))
        },
    }
}

/// What was read so far, followed by what the rest gives.
pub open spec fn spec_after<T>(done: Seq<T>, rest: Result<(Seq<T>, int), ParseError>) -> Result<
    (Seq<T>, int),
    ParseError,
> {
    match rest {
        Err(e) => Err(e),
        Ok((more, end)) => Ok((done + more, end)),
    }
}

/// `interval_step ("+" interval_step)*`
pub open spec fn spec_parse_repeated_steps(tokens: Seq<Token>, i: int) -> Result<
    (Seq<IntervalStep>, int),
    ParseError,
>
    decreases tokens.len() - i,
{
    match spec_parse_interval_step(tokens, i) {
        Err(e) => Err(e),
        Ok((step, next)) => if spec_kind_at(tokens, next) is Plus && i < next < tokens.len() {
            spec_after(seq![step], spec_parse_repeated_steps(tokens, next + 1))
        } else {
            Ok((seq![step], next))
        },
    }
}

/// The repeat count that a whole number stands for.
pub open spec fn spec_repeats(value: Option<Decimal>) -> Option<u32> {
    match value {
        Some(count) => if count.spec_mantissa() <= u32::MAX {
            Some(count.spec_mantissa() as u32)
        } else {
            None
        },
        None => None,
    }
}

/// Whether a repeated group starts at index `i`: a whole number and an `x`.
pub open spec fn spec_starts_group(tokens: Seq<Token>, i: int) -> bool {
    spec_kind_at(tokens, i) matches TokenKind::Number { integer: true, .. } && spec_kind_at(
        tokens,
        i + 1,
    ) is Times
}

/// `interval_block := integer "x" "(" interval_step ("+" interval_step)* ")"
/// | interval_step`
pub open spec fn spec_parse_interval_block(tokens: Seq<Token>, i: int) -> Result<
    (IntervalBlockView, int),
    ParseError,
> {
    if spec_starts_group(tokens, i) {
        if spec_kind_at(tokens, i + 2) is Open {
            match spec_parse_repeated_steps(tokens, i + 3) {
                Err(e) => Err(e),
                Ok((steps, next)) => if spec_kind_at(tokens, next) is Close {
                    match spec_repeats(spec_kind_at(tokens, i)->value) {
                        Some(count) => Ok(
                            (IntervalBlockView { repeats: Some(count), steps }, next + 1),
                        ),
                        None => Err(spec_out_of_range(tokens, i)),
                    }
                } else {
                    Err(
                        spec_unexpected(
                            tokens,
                            next,
                            RuleSet::of(Rule::Plus).with(Rule::Close),
                        ),
                    )
                },
            }
        } else {
            Err(spec_unexpected(tokens, i + 2, RuleSet::of(Rule::Open)))
        }
    } else {
        match spec_parse_interval_step(tokens, i) {
            Err(e) => Err(e),
            Ok((step, next)) => Ok((IntervalBlockView { repeats: None, steps: seq![step] }, next)),
        }
    }
}

/// `warmup := step "warmup" ["+"]`, where a warmup stands at the start.
pub open spec fn spec_parse_warmup(tokens: Seq<Token>) -> Option<(WorkoutStep, int)> {
    match spec_parse_workout_step(tokens, 0) {
        Ok((step, next)) => if spec_kind_at(tokens, next) is Warmup {
            if spec_kind_at(tokens, next + 1) is Plus {
                Some((step, next + 2))
            } else {
                Some((step, next + 1))
            }
        } else {
            None
        },
        Err(_) => None,
    }
}

/// `cooldown := ["+"] step "cooldown"`, where a cooldown stands at index `i`.
pub open spec fn spec_parse_cooldown(tokens: Seq<Token>, i: int) -> Option<(WorkoutStep, int)> {
    let start = if spec_kind_at(tokens, i) is Plus {
        i + 1
    } else {
        i
    };
    match spec_parse_workout_step(tokens, start) {
        Ok((step, next)) => if spec_kind_at(tokens, next) is Cooldown {
            Some((step, next + 1))
        } else {
            None
        },
        Err(_) => None,
    }
}

/// `("+" interval_block)*`, each block read only where no cooldown stands.
pub open spec fn spec_parse_more_blocks(tokens: Seq<Token>, i: int) -> Result<
    (Seq<IntervalBlockView>, int),
    ParseError,
>
    decreases tokens.len() - i,
{
    if spec_kind_at(tokens, i) is Plus && spec_parse_cooldown(tokens, i) is None {
        match spec_parse_interval_block(tokens, i + 1) {
            Err(e) => Err(e),
            Ok((block, next)) => if i < next <= tokens.len() {
                spec_after(seq![block], spec_parse_more_blocks(tokens, next))
            } else {
                Ok((seq![block], next))
            },
        }
    } else {
        Ok((Seq::empty(), i))
    }
}

/// `interval_blocks := interval_block ("+" interval_block)*`
pub open spec fn spec_parse_interval_blocks(tokens: Seq<Token>, i: int) -> Result<
    (Seq<IntervalBlockView>, int),
    ParseError,
> {
    match spec_parse_interval_block(tokens, i) {
        Err(e) => Err(e),
        Ok((block, next)) => spec_after(seq![block], spec_parse_more_blocks(tokens, next)),
    }
}

/// The error of tokens that go on at index `i`, after the blocks, with
/// neither a `+` nor a cooldown: where a step stands there, it could only
/// have been the cooldown, so the error is that of the step, or that the
/// word `cooldown` is missing after it.
pub open spec fn spec_trailing(tokens: Seq<Token>, i: int) -> ParseError {
    match spec_parse_workout_step(tokens, i) {
        Ok((_, next)) => spec_unexpected(tokens, next, RuleSet::of(Rule::Cooldown)),
        Err(e) => if spec_kind_at(tokens, i) is Number {
            e
        } else {
            spec_unexpected(tokens, i, RuleSet::of(Rule::Plus).with(Rule::End))
        },
    }
}

/// `workout := [warmup] interval_blocks [cooldown] END`
pub open spec fn spec_parse_tokens(tokens: Seq<Token>) -> Result<WorkoutView, ParseError> {
    let (warmup, start) = match spec_parse_warmup(tokens) {
        Some((step, next)) => (Some(step), next),
        None => (None, 0),
    };
    match spec_parse_interval_blocks(tokens, start) {
        Err(e) => Err(e),
        Ok((intervals, next)) => match spec_parse_cooldown(tokens, next) {
            Some((step, end)) => if spec_kind_at(tokens, end) is End {
                Ok(WorkoutView { warmup, intervals, cooldown: Some(step) })
            } else {
                Err(spec_unexpected(tokens, end, RuleSet::of(Rule::End)))
            },
            None => if spec_kind_at(tokens, next) is End {
                Ok(WorkoutView { warmup, intervals, cooldown: None })
            } else {
                Err(spec_trailing(tokens, next))
            },
        },
    }
}

/// The workout that the bytes of an input write.
pub open spec fn spec_parse_workout(input: Seq<u8>) -> Result<WorkoutView, ParseError> {
    spec_parse_tokens(spec_tokenize(input))
}

} // verus!
