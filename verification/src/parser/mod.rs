//! The notation's parser: from the text of a workout to the [`Workout`] it
//! writes, or to the place where the text goes wrong.
//!
//! The text is cut into tokens by [`lexer`], and the tokens are read by the
//! rules of [`grammar`], one function here for each rule there.

use crate::models::{
    Alert, Decimal, Goal, IntervalBlock, IntervalBlockView, IntervalStep, Pace, Workout,
    WorkoutStep, WorkoutView,
};
use crate::parser::error::{ParseError, Rule, RuleSet};
use crate::parser::grammar::{
    spec_after, spec_kind_at, spec_out_of_range, spec_parse_alert, spec_parse_cooldown,
    spec_parse_goal, spec_parse_interval_block, spec_parse_interval_blocks,
    spec_parse_interval_step, spec_parse_more_blocks, spec_parse_pace, spec_parse_pace_range,
    spec_parse_repeated_steps, spec_parse_time, spec_parse_tokens, spec_parse_warmup,
    spec_parse_workout, spec_parse_workout_step, spec_position_at, spec_repeats,
    spec_starts_group, spec_trailing, spec_unexpected,
};
use crate::parser::laws::{lemma_error_is_within_input, lemma_workout_read, spec_well_formed};
use crate::parser::lexer::{spec_token_at, token_at, tokenize, Token, TokenKind};
use vstd::prelude::*;
use vstd::string::StringSliceAdditionalSpecFns;

pub mod blame;
pub mod error;
pub mod grammar;
pub mod laws;
pub mod lexer;
pub mod message;
pub mod writing;

verus! {

/// What a rule gives, with the index after its last token as an `int`.
pub open spec fn spec_read<T>(r: Result<(T, usize), ParseError>) -> Result<(T, int), ParseError> {
    match r {
        Ok((value, next)) => Ok((value, next as int)),
        Err(e) => Err(e),
    }
}

/// The mathematical value of what [`parse_workout`] gives.
pub open spec fn spec_parsed(r: Result<Workout, ParseError>) -> Result<WorkoutView, ParseError> {
    match r {
        Ok(workout) => Ok(workout@),
        Err(e) => Err(e),
    }
}

/// The seconds that a text of minutes, a colon and seconds writes: the text
/// has to be one time and nothing else.
pub open spec fn spec_parse_time_str(input: Seq<u8>) -> Result<Decimal, ParseError> {
    let token = spec_token_at(input, 0);
    match token.kind {
        TokenKind::Time(seconds) => if token.end == input.len() {
            match seconds {
                Some(seconds) => Ok(seconds),
                None => Err(ParseError::OutOfRange { position: 0 }),
            }
        } else {
            Err(ParseError::Syntax { position: token.end, expected: RuleSet::of(Rule::End) })
        },
        _ => Err(ParseError::Syntax { position: 0, expected: RuleSet::of(Rule::Time) }),
    }
}

fn kind_at(tokens: &[Token], i: usize) -> (kind: TokenKind)
    ensures
        kind == spec_kind_at(tokens@, i as int),
        tokens@.len() <= usize::MAX,
{
    if i < tokens.len() {
        tokens[i].kind
    } else {
        TokenKind::End
    }
}

fn position_at(tokens: &[Token], i: usize) -> (position: usize)
    ensures
        position == spec_position_at(tokens@, i as int),
{
    if i < tokens.len() {
        tokens[i].start
    } else if tokens.len() > 0 {
        tokens[tokens.len() - 1].end
    } else {
        0
    }
}

fn unexpected(tokens: &[Token], i: usize, expected: RuleSet) -> (e: ParseError)
    ensures
        e == spec_unexpected(tokens@, i as int, expected),
{
    ParseError::Syntax { position: position_at(tokens, i), expected }
}

fn out_of_range(tokens: &[Token], i: usize) -> (e: ParseError)
    ensures
        e == spec_out_of_range(tokens@, i as int),
{
    ParseError::OutOfRange { position: position_at(tokens, i) }
}

fn parse_time(tokens: &[Token], i: usize) -> (r: Result<Decimal, ParseError>)
    ensures
        r == spec_parse_time(tokens@, i as int),
        r is Ok ==> i < tokens@.len(),
        tokens@.len() <= usize::MAX,
{
    match kind_at(tokens, i) {
        TokenKind::Time(Some(seconds)) => Ok(seconds),
        TokenKind::Time(None) => Err(out_of_range(tokens, i)),
        _ => Err(unexpected(tokens, i, RuleSet::of(Rule::Time))),
    }
}

/// The seconds that a text of minutes, a colon and seconds writes, such as
/// `7:30` for 450 seconds.
pub fn parse_time_str(time_str: &str) -> (r: Result<Decimal, ParseError>)
    ensures
        r == spec_parse_time_str(time_str.spec_bytes()),
{
    let input = time_str.as_bytes();
    let token: Token = token_at(input, 0);
    match token.kind {
        TokenKind::Time(seconds) => {
            if token.end == input.len() {
                match seconds {
                    Some(seconds) => Ok(seconds),
                    None => Err(ParseError::OutOfRange { position: 0 }),
                }
            } else {
                Err(ParseError::Syntax { position: token.end, expected: RuleSet::of(Rule::End) })
            }
        },
        _ => Err(ParseError::Syntax { position: 0, expected: RuleSet::of(Rule::Time) }),
    }
}

/// A pace: a time, a slash and a unit of distance.
fn parse_pace(tokens: &[Token], i: usize) -> (r: Result<(Pace, usize), ParseError>)
    requires
        i <= tokens@.len(),
    ensures
        spec_read(r) == spec_parse_pace(tokens@, i as int),
        r matches Ok((_, next)) ==> i < next <= tokens@.len(),
{
    let time = match parse_time(tokens, i) {
        Err(e) => {
            return Err(e);
        },
        Ok(time) => time,
    };
    match kind_at(tokens, i + 1) {
        TokenKind::Slash => match kind_at(tokens, i + 2) {
            TokenKind::Length(unit) => Ok((Pace { time, unit }, i + 3)),
            _ => Err(unexpected(tokens, i + 2, RuleSet::of(Rule::LengthUnit))),
        },
        _ => Err(unexpected(tokens, i + 1, RuleSet::of(Rule::Slash))),
    }
}

/// A pace band: a time, a dash and a pace, both in the unit of the pace.
fn parse_pace_range(tokens: &[Token], i: usize) -> (r: Result<(Alert, usize), ParseError>)
    requires
        i <= tokens@.len(),
    ensures
        spec_read(r) == spec_parse_pace_range(tokens@, i as int),
        r matches Ok((_, next)) ==> i < next <= tokens@.len(),
{
    let first = match parse_time(tokens, i) {
        Err(e) => {
            return Err(e);
        },
        Ok(time) => time,
    };
    match kind_at(tokens, i + 1) {
        TokenKind::Dash => match parse_pace(tokens, i + 2) {
            Err(e) => Err(e),
            Ok((second, next)) => Ok(
                (
                    Alert::PaceRange { min: Pace { time: first, unit: second.unit }, max: second },
                    next,
                ),
            ),
        },
        _ => Err(unexpected(tokens, i + 1, RuleSet::of(Rule::Dash))),
    }
}

/// The alert that follows an `@`.
fn parse_alert(tokens: &[Token], i: usize) -> (r: Result<(Alert, usize), ParseError>)
    requires
        i <= tokens@.len(),
    ensures
        spec_read(r) == spec_parse_alert(tokens@, i as int),
        r matches Ok((_, next)) ==> i < next <= tokens@.len(),
{
    match kind_at(tokens, i) {
        TokenKind::Zone(zone) => Ok((Alert::HeartRate(zone), i + 1)),
        TokenKind::Time(_) => match kind_at(tokens, i + 1) {
            TokenKind::Dash => parse_pace_range(tokens, i),
            TokenKind::Slash => match parse_pace(tokens, i) {
                Err(e) => Err(e),
                Ok((pace, next)) => Ok((Alert::PaceThreshold(pace), next)),
            },
            _ => Err(unexpected(tokens, i + 1, RuleSet::of(Rule::Dash).with(Rule::Slash))),
        },
        _ => Err(unexpected(tokens, i, RuleSet::of(Rule::Zone).with(Rule::Time))),
    }
}

/// A goal: a number and a unit of distance or of time.
fn parse_goal(tokens: &[Token], i: usize) -> (r: Result<(Goal, usize), ParseError>)
    requires
        i <= tokens@.len(),
    ensures
        spec_read(r) == spec_parse_goal(tokens@, i as int),
        r matches Ok((_, next)) ==> i < next <= tokens@.len(),
{
    match kind_at(tokens, i) {
        TokenKind::Number { value, .. } => match kind_at(tokens, i + 1) {
            TokenKind::Length(unit) => match value {
                Some(value) => Ok((Goal::Distance { value, unit }, i + 2)),
                None => Err(out_of_range(tokens, i)),
            },
            TokenKind::Duration(unit) => match value {
                Some(value) => Ok((Goal::Duration { value, unit }, i + 2)),
                None => Err(out_of_range(tokens, i)),
            },
            _ => Err(
                unexpected(tokens, i + 1, RuleSet::of(Rule::LengthUnit).with(Rule::TimeUnit)),
            ),
        },
        _ => Err(unexpected(tokens, i, RuleSet::of(Rule::Number))),
    }
}

/// A step: a goal and, after an `@`, one alert. A second alert is not read,
/// so it is an error wherever a step may end.
fn parse_workout_step(tokens: &[Token], i: usize) -> (r: Result<(WorkoutStep, usize), ParseError>)
    requires
        i <= tokens@.len(),
    ensures
        spec_read(r) == spec_parse_workout_step(tokens@, i as int),
        r matches Ok((_, next)) ==> i < next <= tokens@.len(),
{
    let (goal, next) = match parse_goal(tokens, i) {
        Err(e) => {
            return Err(e);
        },
        Ok(read) => read,
    };
    match kind_at(tokens, next) {
        TokenKind::At => match parse_alert(tokens, next + 1) {
            Err(e) => Err(e),
            Ok((alert, end)) => Ok((WorkoutStep { goal, alert: Some(alert) }, end)),
        },
        _ => Ok((WorkoutStep { goal, alert: None }, next)),
    }
}

/// A step of a block: a step, marked as a recovery where that word follows.
fn parse_interval_step(tokens: &[Token], i: usize) -> (r: Result<
    (IntervalStep, usize),
    ParseError,
>)
    requires
        i <= tokens@.len(),
    ensures
        spec_read(r) == spec_parse_interval_step(tokens@, i as int),
        r matches Ok((_, next)) ==> i < next <= tokens@.len(),
{
    let (step, next) = match parse_workout_step(tokens, i) {
        Err(e) => {
            return Err(e);
        },
        Ok(read) => read,
    };
    match kind_at(tokens, next) {
        TokenKind::Recovery => Ok((IntervalStep { step, has_recovery: true }, next + 1)),
        _ => Ok((IntervalStep { step, has_recovery: false }, next)),
    }
}

/// The steps of a repeated group, with a `+` between one and the next.
fn parse_repeated_steps(tokens: &[Token], i: usize) -> (r: Result<
    (Vec<IntervalStep>, usize),
    ParseError,
>)
    requires
        i <= tokens@.len(),
    ensures
        match r {
            Ok((steps, next)) => spec_parse_repeated_steps(tokens@, i as int) == Ok::<
                (Seq<IntervalStep>, int),
                ParseError,
            >((steps@, next as int)) && i < next <= tokens@.len(),
            Err(e) => spec_parse_repeated_steps(tokens@, i as int) == Err::<
                (Seq<IntervalStep>, int),
                ParseError,
            >(e),
        },
{
    let mut steps: Vec<IntervalStep> = Vec::new();
    let mut at: usize = i;
    loop
        invariant_except_break
            i <= at <= tokens@.len(),
            at == i ==> steps@.len() == 0,
            spec_parse_repeated_steps(tokens@, i as int) == spec_after(
                steps@,
                spec_parse_repeated_steps(tokens@, at as int),
            ),
        ensures
            spec_parse_repeated_steps(tokens@, i as int) == Ok::<
                (Seq<IntervalStep>, int),
                ParseError,
            >((steps@, at as int)),
            i < at <= tokens@.len(),
        decreases tokens@.len() - at,
    {
        let ghost before = steps@;
        let (step, next) = match parse_interval_step(tokens, at) {
            Err(e) => {
                return Err(e);
            },
            Ok(read) => read,
        };
        steps.push(step);
        assert(steps@ =~= before + seq![step]);
        match kind_at(tokens, next) {
            TokenKind::Plus => {
                proof {
                    let rest = spec_parse_repeated_steps(tokens@, next + 1);
                    if let Ok((more, end)) = rest {
                        assert(before + (seq![step] + more) =~= steps@ + more);
                    }
                }
                at = next + 1;
            },
            _ => {
                at = next;
                break ;
            },
        }
    }
    Ok((steps, at))
}

/// The repeat count that a whole number stands for.
fn repeats(value: Option<Decimal>) -> (r: Option<u32>)
    ensures
        r == spec_repeats(value),
{
    match value {
        Some(count) => {
            let n: u64 = count.mantissa();
            if n <= 0xffff_ffff {
                Some(n as u32)
            } else {
                None
            }
        },
        None => None,
    }
}

/// The mathematical value of what a rule that reads a block gives.
spec fn read_block(r: Result<(IntervalBlock, usize), ParseError>) -> Result<
    (IntervalBlockView, int),
    ParseError,
> {
    match r {
        Ok((block, next)) => Ok((block@, next as int)),
        Err(e) => Err(e),
    }
}

/// A block: a count, an `x` and a group of steps in brackets, or one step.
fn parse_interval_block(tokens: &[Token], i: usize) -> (r: Result<
    (IntervalBlock, usize),
    ParseError,
>)
    requires
        i <= tokens@.len(),
    ensures
        read_block(r) == spec_parse_interval_block(tokens@, i as int),
        r matches Ok((_, next)) ==> i < next <= tokens@.len(),
{
    if let TokenKind::Number { integer: true, value } = kind_at(tokens, i) {
        if let TokenKind::Times = kind_at(tokens, i + 1) {
            assert(spec_starts_group(tokens@, i as int));
            match kind_at(tokens, i + 2) {
                TokenKind::Open => {},
                _ => {
                    return Err(unexpected(tokens, i + 2, RuleSet::of(Rule::Open)));
                },
            }
            let (steps, next) = match parse_repeated_steps(tokens, i + 3) {
                Err(e) => {
                    return Err(e);
                },
                Ok(read) => read,
            };
            match kind_at(tokens, next) {
                TokenKind::Close => {},
                _ => {
                    return Err(
                        unexpected(tokens, next, RuleSet::of(Rule::Plus).with(Rule::Close)),
                    );
                },
            }
            return match repeats(value) {
                Some(count) => Ok((IntervalBlock { repeats: Some(count), steps }, next + 1)),
                None => Err(out_of_range(tokens, i)),
            };
        }
    }
    assert(!spec_starts_group(tokens@, i as int));
    match parse_interval_step(tokens, i) {
        Err(e) => Err(e),
        Ok((step, next)) => {
            let mut steps: Vec<IntervalStep> = Vec::new();
            steps.push(step);
            assert(steps@ =~= seq![step]);
            Ok((IntervalBlock { repeats: None, steps }, next))
        },
    }
}

/// The cooldown that stands at index `i`, if one does: a step and the word
/// `cooldown`, after a `+` or without.
fn parse_cooldown(tokens: &[Token], i: usize) -> (r: Option<(WorkoutStep, usize)>)
    requires
        i <= tokens@.len(),
    ensures
        match r {
            Some((step, next)) => spec_parse_cooldown(tokens@, i as int) == Some(
                (step, next as int),
            ) && i < next <= tokens@.len(),
            None => spec_parse_cooldown(tokens@, i as int) is None,
        },
{
    let start: usize = match kind_at(tokens, i) {
        TokenKind::Plus => i + 1,
        _ => i,
    };
    match parse_workout_step(tokens, start) {
        Ok((step, next)) => match kind_at(tokens, next) {
            TokenKind::Cooldown => Some((step, next + 1)),
            _ => None,
        },
        Err(_) => None,
    }
}

/// The warmup that stands at the start, if one does: a step and the word
/// `warmup`, and a `+` where one follows.
fn parse_warmup(tokens: &[Token]) -> (r: Option<(WorkoutStep, usize)>)
    ensures
        match r {
            Some((step, next)) => spec_parse_warmup(tokens@) == Some((step, next as int)) && next
                <= tokens@.len(),
            None => spec_parse_warmup(tokens@) is None,
        },
{
    match parse_workout_step(tokens, 0) {
        Ok((step, next)) => match kind_at(tokens, next) {
            TokenKind::Warmup => match kind_at(tokens, next + 1) {
                TokenKind::Plus => Some((step, next + 2)),
                _ => Some((step, next + 1)),
            },
            _ => None,
        },
        Err(_) => None,
    }
}

/// The views of the blocks, in their order.
spec fn views(blocks: Seq<IntervalBlock>) -> Seq<IntervalBlockView> {
    blocks.map_values(|b: IntervalBlock| b@)
}

/// The blocks from index `i` on, with a `+` between one and the next, up to
/// where a cooldown or anything else stands.
fn parse_interval_blocks(tokens: &[Token], i: usize) -> (r: Result<
    (Vec<IntervalBlock>, usize),
    ParseError,
>)
    requires
        i <= tokens@.len(),
    ensures
        match r {
            Ok((blocks, next)) => spec_parse_interval_blocks(tokens@, i as int) == Ok::<
                (Seq<IntervalBlockView>, int),
                ParseError,
            >((views(blocks@), next as int)) && i < next <= tokens@.len(),
            Err(e) => spec_parse_interval_blocks(tokens@, i as int) == Err::<
                (Seq<IntervalBlockView>, int),
                ParseError,
            >(e),
        },
{
    let mut blocks: Vec<IntervalBlock> = Vec::new();
    let (first, next) = match parse_interval_block(tokens, i) {
        Err(e) => {
            return Err(e);
        },
        Ok(read) => read,
    };
    let ghost first_view = first@;
    blocks.push(first);
    assert(views(blocks@) =~= seq![first_view]);
    let mut at: usize = next;
    loop
        invariant_except_break
            i < at <= tokens@.len(),
            spec_parse_interval_blocks(tokens@, i as int) == spec_after(
                views(blocks@),
                spec_parse_more_blocks(tokens@, at as int),
            ),
        ensures
            spec_parse_interval_blocks(tokens@, i as int) == Ok::<
                (Seq<IntervalBlockView>, int),
                ParseError,
            >((views(blocks@), at as int)),
            i < at <= tokens@.len(),
        decreases tokens@.len() - at,
    {
        let follows: bool = match kind_at(tokens, at) {
            TokenKind::Plus => parse_cooldown(tokens, at).is_none(),
            _ => false,
        };
        if !follows {
            assert(views(blocks@) + Seq::<IntervalBlockView>::empty() =~= views(blocks@));
            break ;
        }
        let ghost before = views(blocks@);
        let (block, end) = match parse_interval_block(tokens, at + 1) {
            Err(e) => {
                return Err(e);
            },
            Ok(read) => read,
        };
        let ghost view = block@;
        blocks.push(block);
        proof {
            assert(views(blocks@) =~= before + seq![view]);
            if let Ok((more, last)) = spec_parse_more_blocks(tokens@, end as int) {
                assert(before + (seq![view] + more) =~= views(blocks@) + more);
            }
        }
        at = end;
    }
    Ok((blocks, at))
}

/// The error of tokens that go on at index `i` with neither a `+` nor a
/// cooldown.
fn trailing(tokens: &[Token], i: usize) -> (e: ParseError)
    requires
        i <= tokens@.len(),
    ensures
        e == spec_trailing(tokens@, i as int),
{
    match parse_workout_step(tokens, i) {
        Ok((_, next)) => unexpected(tokens, next, RuleSet::of(Rule::Cooldown)),
        Err(e) => match kind_at(tokens, i) {
            TokenKind::Number { .. } => e,
            _ => unexpected(tokens, i, RuleSet::of(Rule::Plus).with(Rule::End)),
        },
    }
}

/// The notation's parser.
pub struct DashParser;

impl DashParser {
    /// The tokens of an input, in the order in which they stand.
    pub fn tokenize(input: &str) -> (tokens: Vec<Token>)
        ensures
            tokens@ == crate::parser::lexer::spec_tokenize(input.spec_bytes()),
    {
        tokenize(input.as_bytes())
    }

    /// The workout that a list of tokens writes: a warmup where the first
    /// step is one, then the blocks, then a cooldown where the last step is
    /// one, and after that the end of the input.
    pub fn parse(tokens: &[Token]) -> (r: Result<Workout, ParseError>)
        ensures
            spec_parsed(r) == spec_parse_tokens(tokens@),
            r matches Ok(workout) ==> spec_well_formed(workout@),
    {
        proof {
            lemma_workout_read(tokens@);
        }
        let (warmup, start) = match parse_warmup(tokens) {
            Some((step, next)) => (Some(step), next),
            None => (None, 0),
        };
        let (intervals, next) = match parse_interval_blocks(tokens, start) {
            Err(e) => {
                return Err(e);
            },
            Ok(read) => read,
        };
        match parse_cooldown(tokens, next) {
            Some((step, end)) => match kind_at(tokens, end) {
                TokenKind::End => {
                    let workout = Workout { warmup, intervals, cooldown: Some(step) };
                    assert(workout@.intervals =~= views(workout.intervals@));
                    Ok(workout)
                },
                _ => Err(unexpected(tokens, end, RuleSet::of(Rule::End))),
            },
            None => match kind_at(tokens, next) {
                TokenKind::End => {
                    let workout = Workout { warmup, intervals, cooldown: None };
                    assert(workout@.intervals =~= views(workout.intervals@));
                    Ok(workout)
                },
                _ => Err(trailing(tokens, next)),
            },
        }
    }
}

/// The workout that a text in the notation writes.
///
/// The whole text has to follow the notation: where it does not, the error
/// names the byte offset of the first token that does not fit, and what could
/// have stood there.
pub fn parse_workout(input: &str) -> (r: Result<Workout, ParseError>)
    ensures
        spec_parsed(r) == spec_parse_workout(input.spec_bytes()),
        r matches Ok(workout) ==> spec_well_formed(workout@),
        r matches Err(e) ==> e.spec_position() <= input.spec_bytes().len(),
{
    let bytes = input.as_bytes();
    let tokens = tokenize(bytes);
    let r = DashParser::parse(tokens.as_slice());
    proof {
        assert(bytes@.len() == bytes.len());
        lemma_error_is_within_input(bytes@);
    }
    r
}

} // verus!
