//! Where a syntax error puts the blame, and what it asks for.
//!
//! The rules look at the tokens from left to right, and what they make of a
//! list of tokens depends on the tokens up to the furthest one they looked
//! at only: its reach. A syntax error names the token at the reach. It comes
//! neither too early nor too late: with that token, the tokens are the start
//! of no workout, whatever follows; without it they are the start of one, and
//! a token that meets any of the rules that the error names could follow
//! them. The last holds where the numbers among the tokens are ones that the
//! model can hold: a number that is too large is blamed for itself, and only
//! once the rule at hand has been read to its end.
//!
//! The file goes in three parts: the reach of each rule, with the proof that
//! nothing beyond it matters; the tokens that make something well read of
//! what was not, with the proof that they do; and the laws.

use crate::models::{
    Decimal, HeartRateZone, IntervalBlockView, LengthUnit, TimeUnit, WorkoutStep, WorkoutView,
};
use crate::parser::error::{ParseError, Rule, RuleSet};
use crate::parser::grammar::{
    spec_kind_at, spec_parse_alert, spec_parse_cooldown, spec_parse_goal,
    spec_parse_interval_block, spec_parse_interval_blocks, spec_parse_interval_step,
    spec_parse_more_blocks, spec_parse_repeated_steps, spec_parse_tokens, spec_parse_warmup,
    spec_parse_workout, spec_parse_workout_step, spec_position_at, spec_repeats,
    spec_starts_group, spec_trailing, spec_unexpected,
};
use crate::parser::laws::{
    lemma_block_read, lemma_step_read, lemma_tokens_from, lemma_warmup_read, spec_well_formed,
};
use crate::parser::lexer::{spec_is_last, spec_tokenize, Token, TokenKind};
use crate::parser::writing::{
    lemma_kinds_split, lemma_written_workout_is_read, spec_kinds_at, spec_write_workout,
};
use vstd::prelude::*;

verus! {

/// Whether the rules see in `b` what they see in `a` up to and including
/// index `k`: tokens of the same kinds at the same offsets.
pub open spec fn spec_same_through(a: Seq<Token>, b: Seq<Token>, k: int) -> bool {
    forall|j: int|
        #![trigger spec_kind_at(a, j)]
        #![trigger spec_kind_at(b, j)]
        #![trigger spec_position_at(a, j)]
        #![trigger spec_position_at(b, j)]
        0 <= j <= k ==> spec_kind_at(a, j) == spec_kind_at(b, j) && spec_position_at(a, j)
            == spec_position_at(b, j)
}

/// Whether a syntax error is one of the token at index `k`.
pub open spec fn spec_blames<T>(r: Result<T, ParseError>, tokens: Seq<Token>, k: int) -> bool {
    r matches Err(ParseError::Syntax { position, .. }) ==> position == spec_position_at(tokens, k)
}

/// Whether the token before index `k`, if the rule that starts at index `i`
/// went past it, is one that can be read: neither the end of the input nor a
/// byte that starts no token.
spec fn before_is_read(tokens: Seq<Token>, i: int, k: int) -> bool {
    i < k ==> !spec_is_last(spec_kind_at(tokens, k - 1))
}

/// Whether nothing after index `k` matters: every list of tokens that is
/// read alike up to and including index `k` is read to the same workout or
/// the same error.
pub open spec fn spec_final_at(tokens: Seq<Token>, k: int) -> bool {
    forall|others: Seq<Token>| #[trigger]
        spec_same_through(tokens, others, k) ==> spec_parse_tokens(others) == spec_parse_tokens(
            tokens,
        )
}

/// The furthest index that an alert from index `i` on is read to.
spec fn alert_reach(a: Seq<Token>, i: int) -> int {
    match spec_parse_alert(a, i) {
        Ok((_, next)) => next,
        Err(_) => if !(spec_kind_at(a, i) is Time) {
            i
        } else if spec_kind_at(a, i) matches TokenKind::Time(None) {
            i + 1
        } else if spec_kind_at(a, i + 1) is Slash {
            i + 2
        } else if !(spec_kind_at(a, i + 1) is Dash) {
            i + 1
        } else if !(spec_kind_at(a, i + 2) matches TokenKind::Time(Some(_))) {
            i + 2
        } else if !(spec_kind_at(a, i + 3) is Slash) {
            i + 3
        } else {
            i + 4
        },
    }
}

/// The furthest index that a step from index `i` on is read to.
spec fn step_reach(a: Seq<Token>, i: int) -> int {
    match spec_parse_goal(a, i) {
        Err(_) => if spec_kind_at(a, i) is Number {
            i + 1
        } else {
            i
        },
        Ok((_, next)) => if spec_kind_at(a, next) is At {
            alert_reach(a, next + 1)
        } else {
            next
        },
    }
}

/// The furthest index that a step of a block from index `i` on is read to.
spec fn interval_step_reach(a: Seq<Token>, i: int) -> int {
    match spec_parse_interval_step(a, i) {
        Ok((_, next)) => next,
        Err(_) => step_reach(a, i),
    }
}

/// The furthest index that the steps of a group from index `i` on are read
/// to.
spec fn repeated_steps_reach(a: Seq<Token>, i: int) -> int
    decreases a.len() - i,
{
    match spec_parse_interval_step(a, i) {
        Err(_) => step_reach(a, i),
        Ok((_, next)) => if spec_kind_at(a, next) is Plus && i < next < a.len() {
            repeated_steps_reach(a, next + 1)
        } else {
            next
        },
    }
}

/// The furthest index that a block from index `i` on is read to.
spec fn block_reach(a: Seq<Token>, i: int) -> int {
    if !spec_starts_group(a, i) {
        interval_step_reach(a, i)
    } else if !(spec_kind_at(a, i + 2) is Open) {
        i + 2
    } else {
        match spec_parse_repeated_steps(a, i + 3) {
            Err(_) => repeated_steps_reach(a, i + 3),
            Ok((_, next)) => if spec_parse_interval_block(a, i) is Ok {
                next + 1
            } else {
                next
            },
        }
    }
}

/// The furthest index that the further blocks from index `i` on are read
/// to.
spec fn more_blocks_reach(a: Seq<Token>, i: int) -> int
    decreases a.len() - i,
{
    if !(spec_kind_at(a, i) is Plus) {
        i
    } else if spec_parse_cooldown(a, i) is Some {
        step_reach(a, i + 1)
    } else {
        match spec_parse_interval_block(a, i + 1) {
            Err(_) => block_reach(a, i + 1),
            Ok((_, next)) => if i < next <= a.len() {
                more_blocks_reach(a, next)
            } else {
                next
            },
        }
    }
}

/// The furthest index that the blocks from index `i` on are read to.
spec fn blocks_reach(a: Seq<Token>, i: int) -> int {
    match spec_parse_interval_block(a, i) {
        Err(_) => block_reach(a, i),
        Ok((_, next)) => more_blocks_reach(a, next),
    }
}

/// The index at which the blocks start: after the warmup, where there is
/// one.
spec fn blocks_start(a: Seq<Token>) -> int {
    match spec_parse_warmup(a) {
        Some((_, next)) => next,
        None => 0,
    }
}

/// The furthest index that a list of tokens is read to.
spec fn reach(a: Seq<Token>) -> int {
    match spec_parse_interval_blocks(a, blocks_start(a)) {
        Err(_) => blocks_reach(a, blocks_start(a)),
        Ok((_, after)) => match spec_parse_cooldown(a, after) {
            Some((_, end)) => end,
            None => step_reach(a, after),
        },
    }
}

/// What an alert is read to depends on the tokens up to its reach only.
proof fn lemma_alert_reach(a: Seq<Token>, i: int)
    requires
        0 <= i,
    ensures
        i <= alert_reach(a, i),
        before_is_read(a, i, alert_reach(a, i)),
        spec_blames(spec_parse_alert(a, i), a, alert_reach(a, i)),
        forall|b: Seq<Token>| #[trigger]
            spec_same_through(a, b, alert_reach(a, i)) ==> spec_parse_alert(b, i)
                == spec_parse_alert(a, i),
{
}

/// What a step is read to depends on the tokens up to its reach only.
proof fn lemma_step_reach(a: Seq<Token>, i: int)
    requires
        0 <= i,
    ensures
        i <= step_reach(a, i),
        before_is_read(a, i, step_reach(a, i)),
        spec_kind_at(a, i) is Number ==> i < step_reach(a, i),
        !(spec_kind_at(a, i) is Number) ==> step_reach(a, i) == i,
        spec_parse_workout_step(a, i) matches Ok((_, next)) ==> step_reach(a, i) == next,
        spec_blames(spec_parse_workout_step(a, i), a, step_reach(a, i)),
        forall|b: Seq<Token>| #[trigger]
            spec_same_through(a, b, step_reach(a, i)) ==> spec_parse_workout_step(b, i)
                == spec_parse_workout_step(a, i),
{
    if let Ok((_, next)) = spec_parse_goal(a, i) {
        if spec_kind_at(a, next) is At {
            lemma_alert_reach(a, next + 1);
        }
    }
}

/// What a step of a block is read to depends on the tokens up to its reach
/// only.
proof fn lemma_interval_step_reach(a: Seq<Token>, i: int)
    requires
        0 <= i,
    ensures
        i <= interval_step_reach(a, i),
        before_is_read(a, i, interval_step_reach(a, i)),
        spec_kind_at(a, i) is Number ==> i < interval_step_reach(a, i),
        spec_parse_workout_step(a, i) matches Ok((_, next)) ==> next <= interval_step_reach(a, i),
        spec_blames(spec_parse_interval_step(a, i), a, interval_step_reach(a, i)),
        forall|b: Seq<Token>| #[trigger]
            spec_same_through(a, b, interval_step_reach(a, i)) ==> spec_parse_interval_step(b, i)
                == spec_parse_interval_step(a, i) && spec_parse_workout_step(b, i)
                == spec_parse_workout_step(a, i),
{
    lemma_step_reach(a, i);
    let k = interval_step_reach(a, i);
    assert forall|b: Seq<Token>| #[trigger] spec_same_through(a, b, k) implies
        spec_parse_interval_step(b, i) == spec_parse_interval_step(a, i)
        && spec_parse_workout_step(b, i) == spec_parse_workout_step(a, i) by {
        assert(spec_same_through(a, b, step_reach(a, i)));
    }
}

/// What the steps of a group are read to depends on the tokens up to their
/// reach only.
proof fn lemma_repeated_steps_reach(a: Seq<Token>, i: int)
    requires
        0 <= i,
    ensures
        i <= repeated_steps_reach(a, i),
        before_is_read(a, i, repeated_steps_reach(a, i)),
        spec_parse_repeated_steps(a, i) matches Ok((_, next)) ==> repeated_steps_reach(a, i)
            == next,
        spec_blames(spec_parse_repeated_steps(a, i), a, repeated_steps_reach(a, i)),
        forall|b: Seq<Token>| #[trigger]
            spec_same_through(a, b, repeated_steps_reach(a, i)) ==> spec_parse_repeated_steps(b, i)
                == spec_parse_repeated_steps(a, i),
    decreases a.len() - i,
{
    lemma_interval_step_reach(a, i);
    lemma_step_read(a, i);
    if let Ok((_, next)) = spec_parse_interval_step(a, i) {
        if spec_kind_at(a, next) is Plus && i < next < a.len() {
            lemma_repeated_steps_reach(a, next + 1);
            let k = repeated_steps_reach(a, i);
            assert forall|b: Seq<Token>| #[trigger] spec_same_through(a, b, k) implies
                spec_parse_repeated_steps(b, i) == spec_parse_repeated_steps(a, i) by {
                assert(spec_same_through(a, b, next));
                assert(spec_same_through(a, b, repeated_steps_reach(a, next + 1)));
                assert(spec_kind_at(b, next) is Plus);
            }
        }
    }
}

/// What a block is read to depends on the tokens up to its reach only, and
/// so does what the step at the same index is read to.
proof fn lemma_block_reach(a: Seq<Token>, i: int)
    requires
        0 <= i,
    ensures
        i <= block_reach(a, i),
        before_is_read(a, i, block_reach(a, i)),
        spec_parse_interval_block(a, i) matches Ok((_, next)) ==> block_reach(a, i) == next,
        spec_parse_workout_step(a, i) matches Ok((_, next)) ==> next <= block_reach(a, i),
        spec_blames(spec_parse_interval_block(a, i), a, block_reach(a, i)),
        forall|b: Seq<Token>| #[trigger]
            spec_same_through(a, b, block_reach(a, i)) ==> spec_parse_interval_block(b, i)
                == spec_parse_interval_block(a, i) && spec_parse_workout_step(b, i)
                == spec_parse_workout_step(a, i),
{
    let k = block_reach(a, i);
    if !spec_starts_group(a, i) {
        lemma_interval_step_reach(a, i);
        assert forall|b: Seq<Token>| #[trigger] spec_same_through(a, b, k) implies
            spec_parse_interval_block(b, i) == spec_parse_interval_block(a, i)
            && spec_parse_workout_step(b, i) == spec_parse_workout_step(a, i) by {
            assert(spec_kind_at(b, i) == spec_kind_at(a, i));
            if spec_kind_at(a, i) is Number {
                assert(spec_kind_at(b, i + 1) == spec_kind_at(a, i + 1));
            }
            assert(!spec_starts_group(b, i));
        }
    } else if !(spec_kind_at(a, i + 2) is Open) {
        assert forall|b: Seq<Token>| #[trigger] spec_same_through(a, b, k) implies
            spec_parse_interval_block(b, i) == spec_parse_interval_block(a, i)
            && spec_parse_workout_step(b, i) == spec_parse_workout_step(a, i) by {
            assert(spec_starts_group(b, i));
        }
    } else {
        lemma_repeated_steps_reach(a, i + 3);
        assert forall|b: Seq<Token>| #[trigger] spec_same_through(a, b, k) implies
            spec_parse_interval_block(b, i) == spec_parse_interval_block(a, i)
            && spec_parse_workout_step(b, i) == spec_parse_workout_step(a, i) by {
            assert(spec_same_through(a, b, repeated_steps_reach(a, i + 3)));
        }
    }
}

/// Whether the blocks end at index `next` as they should, having been read
/// up to index `k`: no further block stands at `next`, and where a cooldown
/// stands there, `k` is within it.
spec fn ends_well(a: Seq<Token>, next: int, k: int) -> bool {
    &&& next <= k
    &&& !(spec_kind_at(a, next) is Plus && spec_parse_cooldown(a, next) is None)
    &&& spec_parse_cooldown(a, next) matches Some((_, end)) ==> k < end
    &&& spec_parse_cooldown(a, next) is None ==> k == next
}

/// What is read alike up to the reach of a step is a cooldown in both lists
/// or in neither.
proof fn lemma_same_cooldown(a: Seq<Token>, b: Seq<Token>, i: int, k: int)
    requires
        0 <= i <= k,
        spec_same_through(a, b, k),
        spec_kind_at(a, i) is Plus ==> i < k,
        ({
            let start = if spec_kind_at(a, i) is Plus {
                i + 1
            } else {
                i
            };
            &&& spec_parse_workout_step(b, start) == spec_parse_workout_step(a, start)
            &&& spec_parse_workout_step(a, start) matches Ok((_, next)) ==> next <= k
        }),
    ensures
        spec_parse_cooldown(b, i) == spec_parse_cooldown(a, i),
{
}

/// What is read alike up to the reach of the first step and past a warmup
/// is a warmup in both lists or in neither.
proof fn lemma_same_warmup(a: Seq<Token>, b: Seq<Token>, k: int)
    requires
        spec_same_through(a, b, k),
        spec_parse_workout_step(b, 0) == spec_parse_workout_step(a, 0),
        spec_parse_workout_step(a, 0) matches Ok((_, next)) ==> next <= k,
        spec_parse_warmup(a) matches Some((_, start)) ==> start <= k,
    ensures
        spec_parse_warmup(b) == spec_parse_warmup(a),
{
}

/// What the further blocks are read to depends on the tokens up to their
/// reach only.
proof fn lemma_more_blocks_reach(a: Seq<Token>, i: int)
    requires
        0 <= i,
    ensures
        i <= more_blocks_reach(a, i),
        before_is_read(a, i, more_blocks_reach(a, i)),
        spec_parse_more_blocks(a, i) matches Ok((_, next)) ==> ends_well(
            a,
            next,
            more_blocks_reach(a, i),
        ),
        spec_blames(spec_parse_more_blocks(a, i), a, more_blocks_reach(a, i)),
        forall|b: Seq<Token>| #[trigger]
            spec_same_through(a, b, more_blocks_reach(a, i)) ==> spec_parse_more_blocks(b, i)
                == spec_parse_more_blocks(a, i),
    decreases a.len() - i,
{
    let k = more_blocks_reach(a, i);
    if !(spec_kind_at(a, i) is Plus) {
        lemma_step_read(a, i);
    } else if spec_parse_cooldown(a, i) is Some {
        lemma_step_reach(a, i + 1);
        lemma_step_read(a, i + 1);
        assert forall|b: Seq<Token>| #[trigger] spec_same_through(a, b, k) implies
            spec_parse_more_blocks(b, i) == spec_parse_more_blocks(a, i) by {
            lemma_same_cooldown(a, b, i, k);
        }
    } else {
        let first = block_reach(a, i + 1);
        lemma_block_reach(a, i + 1);
        lemma_block_read(a, i + 1);
        if let Ok((_, next)) = spec_parse_interval_block(a, i + 1) {
            lemma_more_blocks_reach(a, next);
        }
        assert forall|b: Seq<Token>| #[trigger] spec_same_through(a, b, k) implies
            spec_parse_more_blocks(b, i) == spec_parse_more_blocks(a, i) by {
            assert(spec_same_through(a, b, first));
            lemma_same_cooldown(a, b, i, first);
            lemma_block_read(b, i + 1);
            if let Ok((_, next)) = spec_parse_interval_block(a, i + 1) {
                assert(spec_same_through(a, b, more_blocks_reach(a, next)));
            }
        }
    }
}

/// What the blocks are read to depends on the tokens up to their reach
/// only, and so does what the step at the same index is read to.
proof fn lemma_blocks_reach(a: Seq<Token>, i: int)
    requires
        0 <= i,
    ensures
        i <= blocks_reach(a, i),
        before_is_read(a, i, blocks_reach(a, i)),
        spec_parse_interval_blocks(a, i) matches Ok((_, next)) ==> ends_well(
            a,
            next,
            blocks_reach(a, i),
        ),
        spec_parse_workout_step(a, i) matches Ok((_, next)) ==> next <= blocks_reach(a, i),
        spec_blames(spec_parse_interval_blocks(a, i), a, blocks_reach(a, i)),
        forall|b: Seq<Token>| #[trigger]
            spec_same_through(a, b, blocks_reach(a, i)) ==> spec_parse_interval_blocks(b, i)
                == spec_parse_interval_blocks(a, i) && spec_parse_workout_step(b, i)
                == spec_parse_workout_step(a, i),
{
    lemma_block_reach(a, i);
    if let Ok((_, next)) = spec_parse_interval_block(a, i) {
        lemma_more_blocks_reach(a, next);
        let k = blocks_reach(a, i);
        assert forall|b: Seq<Token>| #[trigger] spec_same_through(a, b, k) implies
            spec_parse_interval_blocks(b, i) == spec_parse_interval_blocks(a, i)
            && spec_parse_workout_step(b, i) == spec_parse_workout_step(a, i) by {
            assert(spec_same_through(a, b, next));
            assert(spec_same_through(a, b, more_blocks_reach(a, next)));
        }
    }
}

/// What the tokens from index `after` on make of a warmup and of blocks
/// that were read before them.
spec fn closing(
    a: Seq<Token>,
    warmup: Option<WorkoutStep>,
    intervals: Seq<IntervalBlockView>,
    after: int,
) -> Result<WorkoutView, ParseError> {
    match spec_parse_cooldown(a, after) {
        Some((step, end)) => if spec_kind_at(a, end) is End {
            Ok(WorkoutView { warmup, intervals, cooldown: Some(step) })
        } else {
            Err(spec_unexpected(a, end, RuleSet::of(Rule::End)))
        },
        None => if spec_kind_at(a, after) is End {
            Ok(WorkoutView { warmup, intervals, cooldown: None })
        } else {
            Err(spec_trailing(a, after))
        },
    }
}

/// The reach of a step: at or after its start, after a token that can be
/// read, at the end of the step if it is read, at the token of its syntax
/// error if it is not.
proof fn lemma_step_bounds(a: Seq<Token>, i: int)
    requires
        0 <= i,
    ensures
        i <= step_reach(a, i),
        before_is_read(a, i, step_reach(a, i)),
        spec_kind_at(a, i) is Number ==> i < step_reach(a, i),
        !(spec_kind_at(a, i) is Number) ==> step_reach(a, i) == i,
        spec_parse_workout_step(a, i) matches Ok((_, next)) ==> step_reach(a, i) == next && i + 2
            <= next,
        spec_blames(spec_parse_workout_step(a, i), a, step_reach(a, i)),
{
    lemma_step_reach(a, i);
    lemma_step_read(a, i);
}

/// The reach of the blocks: at or after their start, after a token that can
/// be read, where the blocks end as they should if they are read, at the
/// token of their syntax error if they are not.
proof fn lemma_blocks_bounds(a: Seq<Token>, i: int)
    requires
        0 <= i,
    ensures
        i <= blocks_reach(a, i),
        before_is_read(a, i, blocks_reach(a, i)),
        spec_parse_interval_blocks(a, i) matches Ok((_, next)) ==> ends_well(
            a,
            next,
            blocks_reach(a, i),
        ),
        spec_parse_workout_step(a, i) matches Ok((_, next)) ==> next <= blocks_reach(a, i),
        spec_blames(spec_parse_interval_blocks(a, i), a, blocks_reach(a, i)),
{
    lemma_blocks_reach(a, i);
}

/// The index at which the blocks start is after the warmup's step and the
/// word `warmup`, and after a `+` if one follows.
proof fn lemma_blocks_start(a: Seq<Token>)
    ensures
        0 <= blocks_start(a),
        spec_parse_warmup(a) matches Some((_, start)) ==> (spec_parse_workout_step(a, 0) matches Ok(
            (_, next),
        ) && next + 1 <= start <= next + 2 && spec_kind_at(a, next) is Warmup && (start == next + 2
            <==> spec_kind_at(a, next + 1) is Plus)),
{
    lemma_step_read(a, 0);
}

/// The reach of a list of tokens is at or after the reach of its blocks;
/// the token before it is one that can be read, and a syntax error is one of
/// the token at it.
proof fn lemma_reach_bounds(a: Seq<Token>)
    ensures
        0 <= blocks_start(a) <= blocks_reach(a, blocks_start(a)) <= reach(a),
        before_is_read(a, 0, reach(a)),
        spec_blames(spec_parse_tokens(a), a, reach(a)),
{
    let start = blocks_start(a);
    lemma_blocks_start(a);
    lemma_blocks_bounds(a, start);
    if let Ok((_, after)) = spec_parse_interval_blocks(a, start) {
        lemma_step_bounds(a, after);
        if spec_kind_at(a, after) is Plus {
            lemma_step_bounds(a, after + 1);
        }
    }
}

/// The tokens after the blocks are read alike in lists of tokens that are
/// the same up to the reach of the whole.
proof fn lemma_closing_same(
    a: Seq<Token>,
    b: Seq<Token>,
    warmup: Option<WorkoutStep>,
    intervals: Seq<IntervalBlockView>,
    after: int,
)
    requires
        0 <= after,
        spec_parse_interval_blocks(a, blocks_start(a)) matches Ok((_, next)) && next == after,
        spec_same_through(a, b, reach(a)),
    ensures
        closing(b, warmup, intervals, after) == closing(a, warmup, intervals, after),
{
    let from = if spec_kind_at(a, after) is Plus {
        after + 1
    } else {
        after
    };
    lemma_blocks_start(a);
    lemma_blocks_bounds(a, blocks_start(a));
    lemma_step_bounds(a, from);
    lemma_same_less(a, b, reach(a), step_reach(a, from));
    lemma_step_same(a, b, from);
    lemma_same_cooldown(a, b, after, reach(a));
}

/// A warmup, or none, is read alike in lists of tokens that are the same up
/// to the reach of one of them.
proof fn lemma_warmup_same_result(a: Seq<Token>, b: Seq<Token>)
    requires
        spec_same_through(a, b, reach(a)),
    ensures
        spec_parse_warmup(b) == spec_parse_warmup(a),
{
    let start = blocks_start(a);
    lemma_blocks_start(a);
    lemma_reach_bounds(a);
    lemma_blocks_bounds(a, start);
    lemma_step_bounds(a, 0);
    if spec_parse_warmup(a) is Some {
        lemma_same_less(a, b, reach(a), step_reach(a, 0));
        lemma_step_same(a, b, 0);
    } else {
        lemma_same_less(a, b, reach(a), blocks_reach(a, start));
        lemma_blocks_same(a, b, start);
    }
    lemma_same_warmup(a, b, blocks_reach(a, start));
}

/// Lists of tokens that are the same up to the reach of one of them are
/// read alike.
proof fn lemma_same_result(a: Seq<Token>, b: Seq<Token>)
    requires
        spec_same_through(a, b, reach(a)),
    ensures
        spec_parse_tokens(b) == spec_parse_tokens(a),
{
    let (warmup, start) = match spec_parse_warmup(a) {
        Some((step, next)) => (Some(step), next),
        None => (None, 0),
    };
    lemma_reach_bounds(a);
    lemma_warmup_same_result(a, b);
    lemma_same_less(a, b, reach(a), blocks_reach(a, start));
    lemma_blocks_same(a, b, start);
    if let Ok((intervals, after)) = spec_parse_interval_blocks(a, start) {
        assert(spec_parse_tokens(a) == closing(a, warmup, intervals, after));
        lemma_closing_same(a, b, warmup, intervals, after);
        assert(spec_parse_tokens(b) == closing(b, warmup, intervals, after));
    }
}

/// What a list of tokens is read to depends on the tokens up to its reach
/// only, and its syntax error is one of the token at its reach.
proof fn lemma_reach(a: Seq<Token>)
    ensures
        0 <= reach(a),
        before_is_read(a, 0, reach(a)),
        spec_blames(spec_parse_tokens(a), a, reach(a)),
        spec_final_at(a, reach(a)),
{
    lemma_reach_bounds(a);
    assert forall|b: Seq<Token>| #[trigger] spec_same_through(a, b, reach(a)) implies
        spec_parse_tokens(b) == spec_parse_tokens(a) by {
        lemma_same_result(a, b);
    }
}

/// A step that is read is read alike wherever the tokens before its end
/// are the same and no `@` follows.
proof fn lemma_step_stops(a: Seq<Token>, b: Seq<Token>, i: int)
    requires
        0 <= i,
        spec_parse_workout_step(a, i) matches Ok((_, next)) && spec_same_through(a, b, next - 1)
            && !(spec_kind_at(b, next) is At),
    ensures
        spec_parse_workout_step(b, i) == spec_parse_workout_step(a, i),
{
}

/// A step of a block that is read is read alike wherever the tokens before
/// its end are the same and neither `@` nor `recovery` follows.
proof fn lemma_interval_step_stops(a: Seq<Token>, b: Seq<Token>, i: int)
    requires
        0 <= i,
        spec_parse_interval_step(a, i) matches Ok((_, next)) && spec_same_through(a, b, next - 1)
            && !(spec_kind_at(b, next) is At) && !(spec_kind_at(b, next) is Recovery),
    ensures
        spec_parse_interval_step(b, i) == spec_parse_interval_step(a, i),
        spec_parse_workout_step(b, i) == spec_parse_workout_step(a, i),
{
    lemma_step_reach(a, i);
    let (_, next) = spec_parse_interval_step(a, i)->Ok_0;
    let (_, n) = spec_parse_workout_step(a, i)->Ok_0;
    if n < next {
        assert(spec_same_through(a, b, step_reach(a, i)));
    } else {
        lemma_step_stops(a, b, i);
    }
}

/// The steps of a group that are read are read alike wherever the tokens
/// before their end are the same and none of `@`, `recovery` and `+`
/// follows.
proof fn lemma_repeated_steps_stop(a: Seq<Token>, b: Seq<Token>, i: int)
    requires
        0 <= i,
        spec_parse_repeated_steps(a, i) matches Ok((_, next)) && spec_same_through(a, b, next - 1)
            && !(spec_kind_at(b, next) is At) && !(spec_kind_at(b, next) is Recovery) && !(
        spec_kind_at(b, next) is Plus),
    ensures
        spec_parse_repeated_steps(b, i) == spec_parse_repeated_steps(a, i),
    decreases a.len() - i,
{
    lemma_interval_step_reach(a, i);
    lemma_step_read(a, i);
    let (_, n) = spec_parse_interval_step(a, i)->Ok_0;
    if spec_kind_at(a, n) is Plus && i < n < a.len() {
        lemma_repeated_steps_reach(a, n + 1);
        assert(spec_same_through(a, b, interval_step_reach(a, i)));
        assert(spec_kind_at(b, n) is Plus);
        lemma_repeated_steps_stop(a, b, n + 1);
    } else {
        lemma_interval_step_stops(a, b, i);
    }
}

/// A block that is read is read alike wherever the tokens before its end are
/// the same and neither `@` nor `recovery` follows; so is the step at the
/// same index.
proof fn lemma_block_stops(a: Seq<Token>, b: Seq<Token>, i: int)
    requires
        0 <= i,
        spec_parse_interval_block(a, i) matches Ok((_, next)) && spec_same_through(a, b, next - 1)
            && !(spec_kind_at(b, next) is At) && !(spec_kind_at(b, next) is Recovery),
    ensures
        spec_parse_interval_block(b, i) == spec_parse_interval_block(a, i),
        spec_parse_workout_step(b, i) == spec_parse_workout_step(a, i),
{
    lemma_step_read(a, i);
    if spec_starts_group(a, i) {
        lemma_repeated_steps_reach(a, i + 3);
        lemma_step_reach(a, i);
        assert(spec_same_through(a, b, repeated_steps_reach(a, i + 3)));
        assert(spec_same_through(a, b, step_reach(a, i)));
        assert(spec_starts_group(b, i));
    } else {
        lemma_interval_step_stops(a, b, i);
        assert(spec_kind_at(b, i) == spec_kind_at(a, i));
        assert(spec_kind_at(b, i + 1) == spec_kind_at(a, i + 1));
        assert(!spec_starts_group(b, i));
    }
}

/// What is the same up to an index is the same up to every index before.
proof fn lemma_same_less(a: Seq<Token>, b: Seq<Token>, k: int, j: int)
    requires
        spec_same_through(a, b, k),
        j <= k,
    ensures
        spec_same_through(a, b, j),
{
}

/// What is the same up to an index is of the same kind at every index up
/// to it.
proof fn lemma_same_kind(a: Seq<Token>, b: Seq<Token>, k: int, j: int)
    requires
        spec_same_through(a, b, k),
        0 <= j <= k,
    ensures
        spec_kind_at(b, j) == spec_kind_at(a, j),
{
}

/// A block, and the step at the same index, are read alike in lists of
/// tokens that are the same up to the reach of the block.
proof fn lemma_block_same(a: Seq<Token>, b: Seq<Token>, i: int)
    requires
        0 <= i,
        spec_same_through(a, b, block_reach(a, i)),
    ensures
        spec_parse_interval_block(b, i) == spec_parse_interval_block(a, i),
        spec_parse_workout_step(b, i) == spec_parse_workout_step(a, i),
{
    lemma_block_reach(a, i);
}

/// A block that is read ends at its reach, at least two tokens on, within
/// the tokens, and no earlier than the step at the same index.
proof fn lemma_block_ends(a: Seq<Token>, i: int)
    requires
        0 <= i,
        spec_parse_interval_block(a, i) is Ok,
    ensures
        block_reach(a, i) == spec_parse_interval_block(a, i)->Ok_0.1,
        i + 2 <= block_reach(a, i) <= a.len(),
        spec_parse_workout_step(a, i) matches Ok((_, next)) ==> next <= block_reach(a, i),
{
    lemma_block_reach(a, i);
    lemma_block_read(a, i);
}

/// The further blocks that are read end at or after their start.
proof fn lemma_more_blocks_end(a: Seq<Token>, i: int)
    requires
        0 <= i,
    ensures
        spec_parse_more_blocks(a, i) matches Ok((_, end)) ==> i <= end,
    decreases a.len() - i,
{
    if spec_kind_at(a, i) is Plus && spec_parse_cooldown(a, i) is None {
        if let Ok((_, next)) = spec_parse_interval_block(a, i + 1) {
            lemma_block_ends(a, i + 1);
            lemma_more_blocks_end(a, next);
        }
    }
}

/// No cooldown stands after a `+` that is followed by a step as it is in
/// another list of tokens where no cooldown stands there, if the word
/// `cooldown` does not follow the step.
proof fn lemma_no_cooldown(a: Seq<Token>, b: Seq<Token>, i: int)
    requires
        spec_kind_at(a, i) is Plus,
        spec_kind_at(b, i) is Plus,
        spec_parse_cooldown(a, i) is None,
        spec_parse_workout_step(b, i + 1) == spec_parse_workout_step(a, i + 1),
        spec_parse_workout_step(a, i + 1) matches Ok((_, next)) ==> !(spec_kind_at(b, next)
            is Cooldown),
    ensures
        spec_parse_cooldown(b, i) is None,
{
}

/// The further blocks that are read are read alike wherever the tokens
/// before their end are the same and the end of the input follows.
proof fn lemma_more_blocks_stop(a: Seq<Token>, b: Seq<Token>, i: int)
    requires
        0 <= i,
        spec_parse_more_blocks(a, i) matches Ok((_, next)) && spec_same_through(a, b, next - 1)
            && spec_kind_at(b, next) is End,
    ensures
        spec_parse_more_blocks(b, i) == spec_parse_more_blocks(a, i),
    decreases a.len() - i,
{
    if spec_kind_at(a, i) is Plus && spec_parse_cooldown(a, i) is None {
        let (_, end) = spec_parse_more_blocks(a, i)->Ok_0;
        let (_, next) = spec_parse_interval_block(a, i + 1)->Ok_0;
        lemma_block_ends(a, i + 1);
        lemma_more_blocks_end(a, next);
        lemma_same_kind(a, b, end - 1, i);
        if next < end {
            lemma_same_less(a, b, end - 1, next);
            lemma_block_same(a, b, i + 1);
        } else {
            lemma_block_stops(a, b, i + 1);
        }
        if let Ok((_, n)) = spec_parse_workout_step(a, i + 1) {
            if n < end {
                lemma_same_kind(a, b, end - 1, n);
            }
        }
        lemma_no_cooldown(a, b, i);
        lemma_more_blocks_stop(a, b, next);
        lemma_block_ends(b, i + 1);
    } else {
        assert(spec_parse_more_blocks(a, i)->Ok_0.1 == i);
    }
}

/// The blocks that are read are read alike wherever the tokens before their
/// end are the same and the end of the input follows; so is the step at the
/// same index.
proof fn lemma_blocks_stop(a: Seq<Token>, b: Seq<Token>, i: int)
    requires
        0 <= i,
        spec_parse_interval_blocks(a, i) matches Ok((_, next)) && spec_same_through(a, b, next - 1)
            && spec_kind_at(b, next) is End,
    ensures
        spec_parse_interval_blocks(b, i) == spec_parse_interval_blocks(a, i),
        spec_parse_workout_step(b, i) == spec_parse_workout_step(a, i),
{
    let (_, end) = spec_parse_interval_blocks(a, i)->Ok_0;
    let (_, next) = spec_parse_interval_block(a, i)->Ok_0;
    lemma_block_ends(a, i);
    lemma_more_blocks_end(a, next);
    if next < end {
        lemma_same_less(a, b, end - 1, next);
        lemma_block_same(a, b, i);
    } else {
        lemma_block_stops(a, b, i);
    }
    lemma_more_blocks_stop(a, b, next);
}

/// Whether the number or the time at index `j`, if one stands there, is one
/// that the model can hold, a whole number before an `x` as a repeat count.
pub open spec fn spec_number_fits(tokens: Seq<Token>, j: int) -> bool {
    match spec_kind_at(tokens, j) {
        TokenKind::Number { integer, value } => value is Some && (integer && spec_kind_at(
            tokens,
            j + 1,
        ) is Times ==> spec_repeats(value) is Some),
        TokenKind::Time(seconds) => seconds is Some,
        _ => true,
    }
}

/// Whether the numbers and times from index `i` up to index `k` are ones
/// that the model can hold.
pub open spec fn spec_numbers_fit(tokens: Seq<Token>, i: int, k: int) -> bool {
    forall|j: int| i <= j < k ==> #[trigger] spec_number_fits(tokens, j)
}

/// The number one.
spec fn one() -> Decimal {
    Decimal::from_parts(1, 0)
}

/// The tokens of a step of one mile.
spec fn a_step() -> Seq<TokenKind> {
    seq![
        TokenKind::Number { integer: true, value: Some(one()) },
        TokenKind::Length(LengthUnit::Miles),
    ]
}

/// The kinds of token that make a step of the tokens before the reach of a
/// step that is not read. Where the error names two rules there are two
/// ways, and `second` takes the second.
spec fn step_rest(a: Seq<Token>, i: int, second: bool) -> Seq<TokenKind> {
    match spec_parse_goal(a, i) {
        Err(_) => if !(spec_kind_at(a, i) is Number) {
            a_step()
        } else if second {
            seq![TokenKind::Duration(TimeUnit::Minutes)]
        } else {
            seq![TokenKind::Length(LengthUnit::Miles)]
        },
        Ok((_, next)) => if !(spec_kind_at(a, next + 1) is Time) {
            if second {
                seq![
                    TokenKind::Time(Some(one())),
                    TokenKind::Slash,
                    TokenKind::Length(LengthUnit::Miles),
                ]
            } else {
                seq![TokenKind::Zone(HeartRateZone::Z1)]
            }
        } else if spec_kind_at(a, next + 2) is Slash {
            seq![TokenKind::Length(LengthUnit::Miles)]
        } else if !(spec_kind_at(a, next + 2) is Dash) {
            if second {
                seq![TokenKind::Slash, TokenKind::Length(LengthUnit::Miles)]
            } else {
                seq![
                    TokenKind::Dash,
                    TokenKind::Time(Some(one())),
                    TokenKind::Slash,
                    TokenKind::Length(LengthUnit::Miles),
                ]
            }
        } else if !(spec_kind_at(a, next + 3) is Time) {
            seq![
                TokenKind::Time(Some(one())),
                TokenKind::Slash,
                TokenKind::Length(LengthUnit::Miles),
            ]
        } else if !(spec_kind_at(a, next + 4) is Slash) {
            seq![TokenKind::Slash, TokenKind::Length(LengthUnit::Miles)]
        } else {
            seq![TokenKind::Length(LengthUnit::Miles)]
        },
    }
}

/// Tokens of given kinds stand one after another, each at its index.
proof fn lemma_kind_of(b: Seq<Token>, k: int, kinds: Seq<TokenKind>, j: int)
    requires
        spec_kinds_at(b, k, kinds),
        0 <= j < kinds.len(),
    ensures
        spec_kind_at(b, k + j) == kinds[j],
{
}

/// A step that is not read for its syntax is read once the tokens from its
/// reach on are those that make a step of it.
proof fn lemma_step_goes_on(a: Seq<Token>, b: Seq<Token>, i: int, second: bool)
    requires
        0 <= i,
        spec_parse_workout_step(a, i) matches Err(ParseError::Syntax { .. }),
        spec_numbers_fit(a, i, step_reach(a, i)),
        spec_same_through(a, b, step_reach(a, i) - 1),
        spec_kinds_at(b, step_reach(a, i), step_rest(a, i, second)),
        !(spec_kind_at(b, step_reach(a, i) + step_rest(a, i, second).len()) is At),
    ensures
        spec_parse_workout_step(b, i) matches Ok((_, next)) && next == step_reach(a, i)
            + step_rest(a, i, second).len(),
        step_rest(a, i, second).len() >= 1,
{
    let k = step_reach(a, i);
    let rest = step_rest(a, i, second);
    lemma_kind_of(b, k, rest, 0);
    if rest.len() > 1 {
        lemma_kind_of(b, k, rest, 1);
    }
    if rest.len() > 2 {
        lemma_kind_of(b, k, rest, 2);
    }
    if rest.len() > 3 {
        lemma_kind_of(b, k, rest, 3);
    }
    if i < k {
        assert(spec_number_fits(a, i));
    }
    match spec_parse_goal(a, i) {
        Err(_) => {},
        Ok((_, next)) => {
            assert(spec_kind_at(a, next) is At);
            if spec_kind_at(a, next + 1) is Time {
                assert(spec_number_fits(a, next + 1));
                if spec_kind_at(a, next + 2) is Dash && spec_kind_at(a, next + 3) is Time {
                    assert(spec_number_fits(a, next + 3));
                }
            }
        },
    }
}

/// The kinds of token that make the steps of a group of the tokens before
/// the reach of steps that are not read, in the first way or the second.
spec fn repeated_steps_rest(a: Seq<Token>, i: int, second: bool) -> Seq<TokenKind>
    decreases a.len() - i,
{
    match spec_parse_interval_step(a, i) {
        Err(_) => step_rest(a, i, second),
        Ok((_, next)) => if spec_kind_at(a, next) is Plus && i < next < a.len() {
            repeated_steps_rest(a, next + 1, second)
        } else {
            Seq::empty()
        },
    }
}

/// A step of a block, and the step at the same index, are read alike in
/// lists of tokens that are the same up to its reach.
proof fn lemma_interval_step_same(a: Seq<Token>, b: Seq<Token>, i: int)
    requires
        0 <= i,
        spec_same_through(a, b, interval_step_reach(a, i)),
    ensures
        spec_parse_interval_step(b, i) == spec_parse_interval_step(a, i),
        spec_parse_workout_step(b, i) == spec_parse_workout_step(a, i),
{
    lemma_interval_step_reach(a, i);
}

/// The reach of steps of a group that are not read is past every `+` between
/// them.
proof fn lemma_repeated_steps_reach_on(a: Seq<Token>, i: int)
    requires
        0 <= i,
    ensures
        i <= repeated_steps_reach(a, i),
        spec_parse_repeated_steps(a, i) matches Ok((_, next)) ==> repeated_steps_reach(a, i)
            == next,
{
    lemma_repeated_steps_reach(a, i);
}

/// The steps of a group that are not read for their syntax are read once
/// the tokens from their reach on are those that make a step of them.
proof fn lemma_repeated_steps_go_on(a: Seq<Token>, b: Seq<Token>, i: int, second: bool)
    requires
        0 <= i,
        spec_parse_repeated_steps(a, i) matches Err(ParseError::Syntax { .. }),
        spec_numbers_fit(a, i, repeated_steps_reach(a, i)),
        spec_same_through(a, b, repeated_steps_reach(a, i) - 1),
        spec_kinds_at(b, repeated_steps_reach(a, i), repeated_steps_rest(a, i, second)),
        ({
            let end = repeated_steps_reach(a, i) + repeated_steps_rest(a, i, second).len();
            !(spec_kind_at(b, end) is At) && !(spec_kind_at(b, end) is Recovery) && !(spec_kind_at(
                b,
                end,
            ) is Plus)
        }),
    ensures
        spec_parse_repeated_steps(b, i) matches Ok((_, next)) && next == repeated_steps_reach(a, i)
            + repeated_steps_rest(a, i, second).len(),
    decreases a.len() - i,
{
    let k = repeated_steps_reach(a, i);
    match spec_parse_interval_step(a, i) {
        Err(_) => {
            lemma_step_goes_on(a, b, i, second);
        },
        Ok((_, next)) => {
            lemma_step_read(a, i);
            lemma_repeated_steps_reach_on(a, next + 1);
            lemma_same_less(a, b, k - 1, next);
            lemma_same_kind(a, b, k - 1, next);
            lemma_interval_step_same(a, b, i);
            lemma_repeated_steps_go_on(a, b, next + 1, second);
        },
    }
}

/// The kinds of token that make a block of the tokens before the reach of a
/// block that is not read, in the first way or the second.
spec fn block_rest(a: Seq<Token>, i: int, second: bool) -> Seq<TokenKind> {
    if !spec_starts_group(a, i) {
        step_rest(a, i, second)
    } else if !(spec_kind_at(a, i + 2) is Open) {
        seq![TokenKind::Open] + a_step() + seq![TokenKind::Close]
    } else {
        match spec_parse_repeated_steps(a, i + 3) {
            Err(_) => repeated_steps_rest(a, i + 3, second) + seq![TokenKind::Close],
            Ok(_) => if second {
                seq![TokenKind::Plus] + a_step() + seq![TokenKind::Close]
            } else {
                seq![TokenKind::Close]
            },
        }
    }
}

/// A block that is not read for its syntax is read once the tokens from its
/// reach on are those that make a block of it; the step at the same index,
/// if it is read then, ends with the block.
proof fn lemma_block_goes_on(a: Seq<Token>, b: Seq<Token>, i: int, second: bool)
    requires
        0 <= i,
        spec_parse_interval_block(a, i) matches Err(ParseError::Syntax { .. }),
        spec_numbers_fit(a, i, block_reach(a, i)),
        spec_same_through(a, b, block_reach(a, i) - 1),
        spec_kinds_at(b, block_reach(a, i), block_rest(a, i, second)),
        ({
            let end = block_reach(a, i) + block_rest(a, i, second).len();
            !(spec_kind_at(b, end) is At) && !(spec_kind_at(b, end) is Recovery)
        }),
    ensures
        spec_parse_interval_block(b, i) matches Ok((_, next)) && next == block_reach(a, i)
            + block_rest(a, i, second).len(),
        spec_parse_workout_step(b, i) matches Ok((_, next)) ==> next == block_reach(a, i)
            + block_rest(a, i, second).len(),
{
    let k = block_reach(a, i);
    let rest = block_rest(a, i, second);
    if !spec_starts_group(a, i) {
        lemma_step_goes_on(a, b, i, second);
        lemma_kind_of(b, k, rest, 0);
        if i < k {
            lemma_same_kind(a, b, k - 1, i);
        }
        if i + 1 < k {
            lemma_same_kind(a, b, k - 1, i + 1);
        }
        assert(!spec_starts_group(b, i));
    } else {
        lemma_repeated_steps_reach_on(a, i + 3);
        lemma_same_kind(a, b, k - 1, i);
        lemma_same_kind(a, b, k - 1, i + 1);
        assert(spec_starts_group(b, i));
        assert(spec_number_fits(a, i));
        if !(spec_kind_at(a, i + 2) is Open) {
            lemma_kind_of(b, k, rest, 0);
            lemma_kind_of(b, k, rest, 1);
            lemma_kind_of(b, k, rest, 2);
            lemma_kind_of(b, k, rest, 3);
        } else {
            lemma_same_kind(a, b, k - 1, i + 2);
            match spec_parse_repeated_steps(a, i + 3) {
                Err(_) => {
                    let steps = repeated_steps_rest(a, i + 3, second);
                    lemma_kinds_split(b, k, steps, seq![TokenKind::Close]);
                    lemma_kind_of(b, k + steps.len(), seq![TokenKind::Close], 0);
                    lemma_repeated_steps_go_on(a, b, i + 3, second);
                },
                Ok((_, next)) => {
                    lemma_kind_of(b, k, rest, 0);
                    if second {
                        let plus = seq![TokenKind::Plus];
                        let close = seq![TokenKind::Close];
                        assert(rest =~= plus + (a_step() + close));
                        lemma_kinds_split(b, k, plus, a_step() + close);
                        lemma_kinds_split(b, k + 1, a_step(), close);
                        lemma_kind_of(b, k + 3, close, 0);
                        lemma_repeated_steps_join(a, b, i + 3);
                    } else {
                        lemma_repeated_steps_stop(a, b, i + 3);
                    }
                },
            }
        }
    }
}

/// The kinds of token that make blocks of the tokens before the reach of
/// further blocks that are not read, in the first way or the second.
spec fn more_blocks_rest(a: Seq<Token>, i: int, second: bool) -> Seq<TokenKind>
    decreases a.len() - i,
{
    if spec_kind_at(a, i) is Plus && spec_parse_cooldown(a, i) is None {
        match spec_parse_interval_block(a, i + 1) {
            Err(_) => block_rest(a, i + 1, second),
            Ok((_, next)) => if i < next <= a.len() {
                more_blocks_rest(a, next, second)
            } else {
                Seq::empty()
            },
        }
    } else {
        Seq::empty()
    }
}

/// No cooldown stands after a `+` where the step that follows is not
/// followed by the word `cooldown`.
proof fn lemma_no_cooldown_here(b: Seq<Token>, i: int)
    requires
        spec_kind_at(b, i) is Plus,
        spec_parse_workout_step(b, i + 1) matches Ok((_, next)) ==> !(spec_kind_at(b, next)
            is Cooldown),
    ensures
        spec_parse_cooldown(b, i) is None,
{
}

/// The reach of further blocks that are not read is past the `+` at their
/// start.
proof fn lemma_more_blocks_reach_on(a: Seq<Token>, i: int)
    requires
        0 <= i,
        spec_parse_more_blocks(a, i) is Err,
    ensures
        i < more_blocks_reach(a, i),
        spec_kind_at(a, i) is Plus,
{
    lemma_more_blocks_reach(a, i);
    lemma_block_reach(a, i + 1);
    if let Ok((_, next)) = spec_parse_interval_block(a, i + 1) {
        lemma_block_read(a, i + 1);
        lemma_more_blocks_reach(a, next);
    }
}

/// Further blocks that are not read for their syntax are read once the
/// tokens from their reach on are those that make a block of them, and the
/// end of the input follows.
proof fn lemma_more_blocks_go_on(a: Seq<Token>, b: Seq<Token>, i: int, second: bool)
    requires
        0 <= i,
        spec_parse_more_blocks(a, i) matches Err(ParseError::Syntax { .. }),
        spec_numbers_fit(a, i, more_blocks_reach(a, i)),
        spec_same_through(a, b, more_blocks_reach(a, i) - 1),
        spec_kinds_at(b, more_blocks_reach(a, i), more_blocks_rest(a, i, second)),
        spec_kind_at(b, more_blocks_reach(a, i) + more_blocks_rest(a, i, second).len()) is End,
    ensures
        spec_parse_more_blocks(b, i) matches Ok((_, next)) && next == more_blocks_reach(a, i)
            + more_blocks_rest(a, i, second).len(),
    decreases a.len() - i,
{
    let k = more_blocks_reach(a, i);
    lemma_more_blocks_reach_on(a, i);
    lemma_same_kind(a, b, k - 1, i);
    match spec_parse_interval_block(a, i + 1) {
        Err(_) => {
            lemma_block_goes_on(a, b, i + 1, second);
            lemma_no_cooldown_here(b, i);
            lemma_block_ends(b, i + 1);
            let end = k + more_blocks_rest(a, i, second).len();
            assert(spec_parse_more_blocks(b, end) matches Ok((_, next)) && next == end);
        },
        Ok((_, next)) => {
            lemma_block_ends(a, i + 1);
            lemma_more_blocks_reach_on(a, next);
            lemma_same_less(a, b, k - 1, next);
            lemma_block_same(a, b, i + 1);
            if let Ok((_, n)) = spec_parse_workout_step(a, i + 1) {
                lemma_same_kind(a, b, k - 1, n);
            }
            lemma_no_cooldown(a, b, i);
            lemma_more_blocks_go_on(a, b, next, second);
        },
    }
}

/// The kinds of token that make blocks of the tokens before the reach of
/// blocks that are not read, in the first way or the second.
spec fn blocks_rest(a: Seq<Token>, i: int, second: bool) -> Seq<TokenKind> {
    match spec_parse_interval_block(a, i) {
        Err(_) => block_rest(a, i, second),
        Ok((_, next)) => more_blocks_rest(a, next, second),
    }
}

/// Blocks that are not read for their syntax are read once the tokens from
/// their reach on are those that make a block of them, and the end of the
/// input follows; if the step at the same index was not before the word
/// `warmup`, it is not afterwards.
proof fn lemma_blocks_go_on(a: Seq<Token>, b: Seq<Token>, i: int, second: bool)
    requires
        0 <= i,
        spec_parse_interval_blocks(a, i) matches Err(ParseError::Syntax { .. }),
        spec_numbers_fit(a, i, blocks_reach(a, i)),
        spec_same_through(a, b, blocks_reach(a, i) - 1),
        spec_kinds_at(b, blocks_reach(a, i), blocks_rest(a, i, second)),
        spec_kind_at(b, blocks_reach(a, i) + blocks_rest(a, i, second).len()) is End,
    ensures
        spec_parse_interval_blocks(b, i) matches Ok((_, next)) && next == blocks_reach(a, i)
            + blocks_rest(a, i, second).len(),
        (spec_parse_workout_step(a, i) matches Ok((_, next)) ==> !(spec_kind_at(a, next)
            is Warmup)) ==> (spec_parse_workout_step(b, i) matches Ok((_, next)) ==> !(spec_kind_at(
            b,
            next,
        ) is Warmup)),
        blocks_reach(a, i) == i ==> blocks_rest(a, i, second) == a_step(),
{
    let k = blocks_reach(a, i);
    match spec_parse_interval_block(a, i) {
        Err(_) => {
            lemma_block_goes_on(a, b, i, second);
            lemma_block_ends(b, i);
            lemma_step_reach(a, i);
            lemma_repeated_steps_reach_on(a, i + 3);
            let end = k + blocks_rest(a, i, second).len();
            assert(spec_parse_more_blocks(b, end) matches Ok((_, next)) && next == end);
        },
        Ok((_, next)) => {
            lemma_block_ends(a, i);
            lemma_more_blocks_reach_on(a, next);
            lemma_same_less(a, b, k - 1, next);
            lemma_block_same(a, b, i);
            if let Ok((_, n)) = spec_parse_workout_step(a, i) {
                lemma_same_kind(a, b, k - 1, n);
            }
            lemma_more_blocks_go_on(a, b, next, second);
        },
    }
}

/// The tokens of a step of one mile are read as a step, and as a block.
proof fn lemma_a_step_is_read(b: Seq<Token>, i: int)
    requires
        0 <= i,
        spec_kinds_at(b, i, a_step()),
        !(spec_kind_at(b, i + 2) is At),
    ensures
        spec_parse_workout_step(b, i) matches Ok((_, next)) && next == i + 2,
        !(spec_kind_at(b, i + 2) is Recovery) ==> (spec_parse_interval_step(b, i) matches Ok(
            (_, next),
        ) && next == i + 2) && (spec_parse_interval_block(b, i) matches Ok((_, next)) && next == i
            + 2),
{
    lemma_kind_of(b, i, a_step(), 0);
    lemma_kind_of(b, i, a_step(), 1);
}

/// The steps of a group that are read are read with one step more once a
/// `+` and a step follow them.
proof fn lemma_repeated_steps_join(a: Seq<Token>, b: Seq<Token>, i: int)
    requires
        0 <= i,
        spec_parse_repeated_steps(a, i) matches Ok((_, next)) && spec_same_through(a, b, next - 1)
            && spec_kind_at(b, next) is Plus && spec_kinds_at(b, next + 1, a_step()) && !(
        spec_kind_at(b, next + 3) is At) && !(spec_kind_at(b, next + 3) is Recovery) && !(
        spec_kind_at(b, next + 3) is Plus),
    ensures
        spec_parse_repeated_steps(b, i) matches Ok((_, end)) && end == spec_parse_repeated_steps(
            a,
            i,
        )->Ok_0.1 + 3,
    decreases a.len() - i,
{
    lemma_interval_step_reach(a, i);
    lemma_step_read(a, i);
    let (_, end) = spec_parse_repeated_steps(a, i)->Ok_0;
    let (_, n) = spec_parse_interval_step(a, i)->Ok_0;
    if spec_kind_at(a, n) is Plus && i < n < a.len() {
        lemma_repeated_steps_reach_on(a, n + 1);
        lemma_same_less(a, b, end - 1, n);
        lemma_same_kind(a, b, end - 1, n);
        lemma_interval_step_same(a, b, i);
        lemma_repeated_steps_join(a, b, n + 1);
    } else {
        lemma_interval_step_stops(a, b, i);
        lemma_a_step_is_read(b, n + 1);
        assert(spec_parse_repeated_steps(b, n + 1) matches Ok((_, next)) && next == n + 3);
    }
}

/// The further blocks that are read are read with one block more once a
/// `+`, a step and the end of the input follow them.
proof fn lemma_more_blocks_join(a: Seq<Token>, b: Seq<Token>, i: int)
    requires
        0 <= i,
        spec_parse_more_blocks(a, i) matches Ok((_, next)) && spec_same_through(a, b, next - 1)
            && spec_kind_at(b, next) is Plus && spec_kinds_at(b, next + 1, a_step())
            && spec_kind_at(b, next + 3) is End,
    ensures
        spec_parse_more_blocks(b, i) matches Ok((_, end)) && end == spec_parse_more_blocks(
            a,
            i,
        )->Ok_0.1 + 3,
    decreases a.len() - i,
{
    let (_, end) = spec_parse_more_blocks(a, i)->Ok_0;
    if spec_kind_at(a, i) is Plus && spec_parse_cooldown(a, i) is None {
        let (_, next) = spec_parse_interval_block(a, i + 1)->Ok_0;
        lemma_block_ends(a, i + 1);
        lemma_more_blocks_end(a, next);
        lemma_same_kind(a, b, end - 1, i);
        if next < end {
            lemma_same_less(a, b, end - 1, next);
            lemma_block_same(a, b, i + 1);
        } else {
            lemma_block_stops(a, b, i + 1);
        }
        if let Ok((_, n)) = spec_parse_workout_step(a, i + 1) {
            if n < end {
                lemma_same_kind(a, b, end - 1, n);
            }
        }
        lemma_no_cooldown(a, b, i);
        lemma_more_blocks_join(a, b, next);
        lemma_block_ends(b, i + 1);
    } else {
        lemma_a_step_is_read(b, i + 1);
        lemma_no_cooldown_here(b, i);
        lemma_block_ends(b, i + 1);
        assert(spec_parse_more_blocks(b, i + 3) matches Ok((_, next)) && next == i + 3);
    }
}

/// The blocks that are read are read with one block more once a `+`, a
/// step and the end of the input follow them; the step at the same index is
/// read as before.
proof fn lemma_blocks_join(a: Seq<Token>, b: Seq<Token>, i: int)
    requires
        0 <= i,
        spec_parse_interval_blocks(a, i) matches Ok((_, next)) && spec_same_through(a, b, next - 1)
            && spec_kind_at(b, next) is Plus && spec_kinds_at(b, next + 1, a_step())
            && spec_kind_at(b, next + 3) is End,
    ensures
        spec_parse_interval_blocks(b, i) matches Ok((_, end)) && end == spec_parse_interval_blocks(
            a,
            i,
        )->Ok_0.1 + 3,
        spec_parse_workout_step(b, i) == spec_parse_workout_step(a, i),
{
    let (_, end) = spec_parse_interval_blocks(a, i)->Ok_0;
    let (_, next) = spec_parse_interval_block(a, i)->Ok_0;
    lemma_block_ends(a, i);
    lemma_more_blocks_end(a, next);
    if next < end {
        lemma_same_less(a, b, end - 1, next);
        lemma_block_same(a, b, i);
    } else {
        lemma_block_stops(a, b, i);
    }
    lemma_more_blocks_join(a, b, next);
}

/// The kinds of token that make a workout of the tokens before the reach
/// of tokens that are not read, in the first way or the second, the end of
/// the input left out.
spec fn rest(a: Seq<Token>, second: bool) -> Seq<TokenKind> {
    match spec_parse_interval_blocks(a, blocks_start(a)) {
        Err(_) => blocks_rest(a, blocks_start(a), second),
        Ok((_, after)) => match spec_parse_cooldown(a, after) {
            Some(_) => Seq::empty(),
            None => match spec_parse_workout_step(a, after) {
                Ok(_) => seq![TokenKind::Cooldown],
                Err(_) => if spec_kind_at(a, after) is Number {
                    step_rest(a, after, second) + seq![TokenKind::Cooldown]
                } else if second {
                    seq![TokenKind::Plus] + a_step()
                } else {
                    Seq::empty()
                },
            },
        },
    }
}

/// A warmup is read alike wherever the tokens it is read from are the same
/// and no `+` follows that did not before.
proof fn lemma_warmup_same(a: Seq<Token>, b: Seq<Token>)
    requires
        spec_parse_warmup(a) matches Some((_, start)) && spec_same_through(a, b, start - 1) && (
        spec_kind_at(a, start - 1) is Plus || !(spec_kind_at(b, start) is Plus)),
    ensures
        spec_parse_warmup(b) == spec_parse_warmup(a),
{
    lemma_step_reach(a, 0);
}

/// No warmup stands at the start where the first step is not followed by
/// the word `warmup`.
proof fn lemma_no_warmup(a: Seq<Token>, b: Seq<Token>)
    requires
        spec_parse_warmup(a) is None,
        spec_parse_workout_step(b, 0) matches Ok((_, next)) ==> !(spec_kind_at(b, next)
            is Warmup),
    ensures
        spec_parse_warmup(b) is None,
{
}

/// The blocks, and the step at the same index, are read alike in lists of
/// tokens that are the same up to the reach of the blocks.
proof fn lemma_blocks_same(a: Seq<Token>, b: Seq<Token>, i: int)
    requires
        0 <= i,
        spec_same_through(a, b, blocks_reach(a, i)),
    ensures
        spec_parse_interval_blocks(b, i) == spec_parse_interval_blocks(a, i),
        spec_parse_workout_step(b, i) == spec_parse_workout_step(a, i),
{
    lemma_blocks_reach(a, i);
}

/// A step is read alike in lists of tokens that are the same up to its
/// reach.
proof fn lemma_step_same(a: Seq<Token>, b: Seq<Token>, i: int)
    requires
        0 <= i,
        spec_same_through(a, b, step_reach(a, i)),
    ensures
        spec_parse_workout_step(b, i) == spec_parse_workout_step(a, i),
{
    lemma_step_reach(a, i);
}

/// Blocks that are read end at least two tokens on, no earlier than the
/// step at the same index, and as they should.
proof fn lemma_blocks_end(a: Seq<Token>, i: int)
    requires
        0 <= i,
        spec_parse_interval_blocks(a, i) is Ok,
    ensures
        i + 2 <= spec_parse_interval_blocks(a, i)->Ok_0.1,
        spec_parse_workout_step(a, i) matches Ok((_, next)) ==> next <= spec_parse_interval_blocks(
            a,
            i,
        )->Ok_0.1,
        ends_well(a, spec_parse_interval_blocks(a, i)->Ok_0.1, blocks_reach(a, i)),
{
    lemma_blocks_reach(a, i);
    lemma_block_ends(a, i);
    lemma_more_blocks_end(a, spec_parse_interval_block(a, i)->Ok_0.1);
}

/// The warmup of tokens that are not read is read alike once the tokens
/// from their reach on are other ones, if the first of these is no `+`
/// where the blocks were not read at all.
proof fn lemma_warmup_stays(a: Seq<Token>, b: Seq<Token>, k: int)
    requires
        spec_parse_warmup(a) is Some,
        blocks_start(a) <= k,
        spec_same_through(a, b, k - 1),
        k == blocks_start(a) ==> !(spec_kind_at(b, k) is Plus),
    ensures
        spec_parse_warmup(b) == spec_parse_warmup(a),
{
    let start = blocks_start(a);
    lemma_warmup_read(a);
    lemma_same_less(a, b, k - 1, start - 1);
    if start < k {
        lemma_same_kind(a, b, k - 1, start);
    }
    lemma_warmup_same(a, b);
}

/// Tokens whose blocks are not read for their syntax are read as a workout
/// once the tokens from their reach on are those that make a workout of
/// them.
proof fn lemma_goes_on_in_blocks(a: Seq<Token>, b: Seq<Token>, second: bool)
    requires
        spec_parse_interval_blocks(a, blocks_start(a)) matches Err(ParseError::Syntax { .. }),
        spec_numbers_fit(a, 0, reach(a)),
        spec_same_through(a, b, reach(a) - 1),
        spec_kinds_at(b, reach(a), rest(a, second)),
        spec_kind_at(b, reach(a) + rest(a, second).len()) is End,
    ensures
        spec_parse_tokens(b) is Ok,
{
    let start = blocks_start(a);
    let k = reach(a);
    lemma_warmup_read(a);
    lemma_blocks_reach(a, start);
    lemma_blocks_go_on(a, b, start, second);
    if spec_parse_warmup(a) is Some {
        if k == start {
            lemma_kind_of(b, k, rest(a, second), 0);
        }
        lemma_warmup_stays(a, b, k);
    } else {
        lemma_no_warmup(a, b);
    }
    let end = k + rest(a, second).len();
    assert(spec_parse_cooldown(b, end) is None);
}

/// The warmup and the blocks are read alike wherever the tokens up to the
/// reach of the blocks are the same.
proof fn lemma_start_same(a: Seq<Token>, b: Seq<Token>)
    requires
        spec_parse_interval_blocks(a, blocks_start(a)) is Ok,
        spec_same_through(a, b, blocks_reach(a, blocks_start(a))),
    ensures
        spec_parse_warmup(b) == spec_parse_warmup(a),
        spec_parse_interval_blocks(b, blocks_start(a)) == spec_parse_interval_blocks(
            a,
            blocks_start(a),
        ),
{
    let start = blocks_start(a);
    lemma_blocks_start(a);
    lemma_blocks_bounds(a, start);
    lemma_blocks_same(a, b, start);
    lemma_step_bounds(a, 0);
    if spec_parse_warmup(a) is Some {
        lemma_same_less(a, b, blocks_reach(a, start), step_reach(a, 0));
        lemma_step_same(a, b, 0);
    }
    lemma_same_warmup(a, b, blocks_reach(a, start));
}

/// Tokens that go on after their blocks with what is neither a `+` nor a
/// number are read as a workout once the end of the input stands there.
proof fn lemma_goes_on_at_end(a: Seq<Token>, b: Seq<Token>)
    requires
        spec_parse_interval_blocks(a, blocks_start(a)) matches Ok((_, after))
            && spec_parse_cooldown(a, after) is None && !(spec_kind_at(a, after) is Number),
        spec_same_through(a, b, reach(a) - 1),
        spec_kind_at(b, reach(a)) is End,
    ensures
        spec_parse_tokens(b) is Ok,
{
    let start = blocks_start(a);
    let k = reach(a);
    let (_, after) = spec_parse_interval_blocks(a, start)->Ok_0;
    lemma_blocks_start(a);
    lemma_blocks_end(a, start);
    lemma_step_bounds(a, after);
    lemma_blocks_stop(a, b, start);
    if spec_parse_warmup(a) is Some {
        lemma_warmup_stays(a, b, k);
    } else {
        if let Ok((_, n)) = spec_parse_workout_step(a, 0) {
            if n < k {
                lemma_same_kind(a, b, k - 1, n);
            }
        }
        lemma_no_warmup(a, b);
    }
    assert(spec_parse_cooldown(b, after) is None);
}

/// Tokens that go on after their blocks with what is neither a `+` nor a
/// number are read as a workout once a `+`, a step and the end of the input
/// stand there.
proof fn lemma_goes_on_with_block(a: Seq<Token>, b: Seq<Token>)
    requires
        spec_parse_interval_blocks(a, blocks_start(a)) matches Ok((_, after))
            && spec_parse_cooldown(a, after) is None && !(spec_kind_at(a, after) is Number),
        spec_same_through(a, b, reach(a) - 1),
        spec_kinds_at(b, reach(a), seq![TokenKind::Plus] + a_step()),
        spec_kind_at(b, reach(a) + 3) is End,
    ensures
        spec_parse_tokens(b) is Ok,
{
    let start = blocks_start(a);
    let k = reach(a);
    let (_, after) = spec_parse_interval_blocks(a, start)->Ok_0;
    lemma_blocks_start(a);
    lemma_blocks_end(a, start);
    lemma_step_bounds(a, after);
    lemma_kinds_split(b, k, seq![TokenKind::Plus], a_step());
    lemma_kind_of(b, k, seq![TokenKind::Plus], 0);
    lemma_blocks_join(a, b, start);
    if spec_parse_warmup(a) is Some {
        lemma_warmup_stays(a, b, k);
    } else {
        if let Ok((_, n)) = spec_parse_workout_step(a, 0) {
            if n < k {
                lemma_same_kind(a, b, k - 1, n);
            }
        }
        lemma_no_warmup(a, b);
    }
    assert(spec_parse_cooldown(b, after + 3) is None);
}

/// Tokens that go on after their cooldown are read as a workout once the
/// end of the input stands there.
proof fn lemma_goes_on_after_cooldown(a: Seq<Token>, b: Seq<Token>)
    requires
        spec_parse_interval_blocks(a, blocks_start(a)) matches Ok((_, after))
            && spec_parse_cooldown(a, after) is Some,
        spec_same_through(a, b, reach(a) - 1),
        spec_kind_at(b, reach(a)) is End,
    ensures
        spec_parse_tokens(b) is Ok,
{
    let start = blocks_start(a);
    let k = reach(a);
    let (_, after) = spec_parse_interval_blocks(a, start)->Ok_0;
    let from = if spec_kind_at(a, after) is Plus {
        after + 1
    } else {
        after
    };
    lemma_blocks_start(a);
    lemma_blocks_end(a, start);
    lemma_same_less(a, b, k - 1, blocks_reach(a, start));
    lemma_start_same(a, b);
    lemma_step_bounds(a, from);
    lemma_step_same(a, b, from);
    lemma_same_cooldown(a, b, after, k - 1);
}

/// Tokens with the warmup and the blocks of a list that has blocks, then a
/// cooldown and the end of the input, are read as a workout.
proof fn lemma_read_with_cooldown(a: Seq<Token>, b: Seq<Token>)
    requires
        spec_parse_warmup(b) == spec_parse_warmup(a),
        spec_parse_interval_blocks(a, blocks_start(a)) matches Ok((_, after))
            && spec_parse_interval_blocks(b, blocks_start(a)) == spec_parse_interval_blocks(
            a,
            blocks_start(a),
        ) && (spec_parse_cooldown(b, after) matches Some((_, end)) && spec_kind_at(b, end) is End),
    ensures
        spec_parse_tokens(b) is Ok,
{
}

/// A step that is followed by the word `cooldown` is a cooldown.
proof fn lemma_cooldown_here(b: Seq<Token>, i: int)
    requires
        !(spec_kind_at(b, i) is Plus),
        spec_parse_workout_step(b, i) matches Ok((_, next)) && spec_kind_at(b, next) is Cooldown,
    ensures
        spec_parse_cooldown(b, i) matches Some((_, end)) && end == spec_parse_workout_step(
            b,
            i,
        )->Ok_0.1 + 1,
{
}

/// The step after the blocks, which could only be the cooldown, is read as
/// one once the tokens from its reach on are those that make a cooldown of
/// it.
proof fn lemma_step_goes_on_to_cooldown(
    a: Seq<Token>,
    b: Seq<Token>,
    after: int,
    second: bool,
)
    requires
        0 <= after,
        spec_kind_at(a, after) is Number,
        spec_parse_workout_step(a, after) matches Ok(_) || spec_parse_workout_step(
            a,
            after,
        ) matches Err(ParseError::Syntax { .. }),
        spec_numbers_fit(a, after, step_reach(a, after)),
        spec_same_through(a, b, step_reach(a, after) - 1),
        ({
            let more = match spec_parse_workout_step(a, after) {
                Ok(_) => seq![TokenKind::Cooldown],
                Err(_) => step_rest(a, after, second) + seq![TokenKind::Cooldown],
            };
            spec_kinds_at(b, step_reach(a, after), more) && spec_kind_at(
                b,
                step_reach(a, after) + more.len(),
            ) is End
        }),
    ensures
        spec_parse_cooldown(b, after) matches Some((_, end)) && spec_kind_at(b, end) is End,
{
    let k = step_reach(a, after);
    lemma_step_bounds(a, after);
    lemma_same_kind(a, b, k - 1, after);
    match spec_parse_workout_step(a, after) {
        Ok(_) => {
            lemma_kind_of(b, k, seq![TokenKind::Cooldown], 0);
            lemma_step_stops(a, b, after);
        },
        Err(_) => {
            let more = step_rest(a, after, second);
            lemma_kinds_split(b, k, more, seq![TokenKind::Cooldown]);
            lemma_kind_of(b, k + more.len(), seq![TokenKind::Cooldown], 0);
            lemma_step_goes_on(a, b, after, second);
        },
    }
    lemma_cooldown_here(b, after);
}

/// Tokens that go on after their blocks with a number, and so with a step
/// that could only be the cooldown, are read as a workout once the tokens
/// from their reach on are those that make a cooldown of the step.
proof fn lemma_goes_on_to_cooldown(a: Seq<Token>, b: Seq<Token>, second: bool)
    requires
        spec_parse_interval_blocks(a, blocks_start(a)) matches Ok((_, after))
            && spec_parse_cooldown(a, after) is None && spec_kind_at(a, after) is Number,
        spec_parse_tokens(a) matches Err(ParseError::Syntax { .. }),
        spec_numbers_fit(a, 0, reach(a)),
        spec_same_through(a, b, reach(a) - 1),
        spec_kinds_at(b, reach(a), rest(a, second)),
        spec_kind_at(b, reach(a) + rest(a, second).len()) is End,
    ensures
        spec_parse_tokens(b) is Ok,
{
    let start = blocks_start(a);
    let k = reach(a);
    let (_, after) = spec_parse_interval_blocks(a, start)->Ok_0;
    lemma_blocks_start(a);
    lemma_blocks_end(a, start);
    lemma_step_bounds(a, after);
    lemma_same_less(a, b, k - 1, blocks_reach(a, start));
    lemma_start_same(a, b);
    lemma_step_goes_on_to_cooldown(a, b, after, second);
    lemma_read_with_cooldown(a, b);
}

/// Tokens that are not read for their syntax are read as a workout once the
/// tokens from their reach on are those that make a workout of them.
proof fn lemma_goes_on(a: Seq<Token>, b: Seq<Token>, second: bool)
    requires
        spec_parse_tokens(a) matches Err(ParseError::Syntax { .. }),
        spec_numbers_fit(a, 0, reach(a)),
        spec_same_through(a, b, reach(a) - 1),
        spec_kinds_at(b, reach(a), rest(a, second)),
        spec_kind_at(b, reach(a) + rest(a, second).len()) is End,
    ensures
        spec_parse_tokens(b) is Ok,
{
    match spec_parse_interval_blocks(a, blocks_start(a)) {
        Err(_) => {
            lemma_goes_on_in_blocks(a, b, second);
        },
        Ok((_, after)) => {
            if spec_parse_cooldown(a, after) is Some {
                lemma_goes_on_after_cooldown(a, b);
            } else if spec_kind_at(a, after) is Number {
                lemma_goes_on_to_cooldown(a, b, second);
            } else {
                lemma_blocks_start(a);
                lemma_blocks_end(a, blocks_start(a));
                lemma_step_bounds(a, after);
                if second {
                    lemma_goes_on_with_block(a, b);
                } else {
                    lemma_goes_on_at_end(a, b);
                }
            }
        },
    }
}

/// What a list of tokens is read to depends on its tokens up to some index
/// only, and a syntax error blames the token at that index: the furthest
/// token that was looked at. So no syntax error comes too early: whatever
/// follows the token it names, the input is no workout.
pub proof fn lemma_syntax_error_is_final(tokens: Seq<Token>)
    ensures
        exists|k: int|
            0 <= k <= tokens.len() && spec_blames(spec_parse_tokens(tokens), tokens, k)
                && #[trigger] spec_final_at(tokens, k),
{
    lemma_reach(tokens);
    let k = reach(tokens);
    assert(spec_final_at(tokens, k));
}

/// Whether the tokens up to and including index `k` are of the kinds that
/// stand at the same indices in `written`, as far as `written` goes.
pub open spec fn spec_starts_like(tokens: Seq<Token>, k: int, written: Seq<TokenKind>) -> bool {
    forall|j: int|
        0 <= j <= k && j < written.len() ==> spec_kind_at(tokens, j) == #[trigger] written[j]
}

/// Whether no well-formed workout is written with the kinds of the tokens up
/// to and including index `k` at its start.
pub open spec fn spec_starts_no_workout(tokens: Seq<Token>, k: int) -> bool {
    forall|workout: WorkoutView, plus_after_warmup: bool, plus_before_cooldown: bool|
        spec_well_formed(workout) ==> !spec_starts_like(
            tokens,
            k,
            #[trigger] spec_write_workout(workout, plus_after_warmup, plus_before_cooldown),
        )
}

/// Tokens that are not read as a workout are, up to and including the
/// furthest token that was looked at, the start of no workout; a syntax error
/// names that token.
pub proof fn lemma_blamed_tokens_start_no_workout(tokens: Seq<Token>)
    requires
        spec_parse_tokens(tokens) is Err,
    ensures
        exists|k: int|
            0 <= k <= tokens.len() && spec_blames(spec_parse_tokens(tokens), tokens, k)
                && #[trigger] spec_starts_no_workout(tokens, k),
{
    lemma_reach(tokens);
    let k = reach(tokens);
    assert forall|workout: WorkoutView, plus_after_warmup: bool, plus_before_cooldown: bool|
        spec_well_formed(workout) implies !spec_starts_like(
        tokens,
        k,
        #[trigger] spec_write_workout(workout, plus_after_warmup, plus_before_cooldown),
    ) by {
        let written = spec_write_workout(workout, plus_after_warmup, plus_before_cooldown);
        if spec_starts_like(tokens, k, written) {
            if written.len() <= k {
                assert(spec_kinds_at(tokens, 0, written));
                lemma_written_workout_is_read(
                    tokens,
                    workout,
                    plus_after_warmup,
                    plus_before_cooldown,
                );
            } else {
                let others = Seq::new(
                    written.len(),
                    |j: int|
                        Token {
                            kind: written[j],
                            start: spec_position_at(tokens, j),
                            end: spec_position_at(tokens, j),
                        },
                );
                assert(spec_kinds_at(others, 0, written));
                assert(spec_same_through(tokens, others, k));
                lemma_written_workout_is_read(
                    others,
                    workout,
                    plus_after_warmup,
                    plus_before_cooldown,
                );
            }
        }
    }
    assert(spec_starts_no_workout(tokens, k));
}

/// The rule that a token of this kind meets; a byte that starts no token
/// meets none.
pub open spec fn spec_rule_of(kind: TokenKind) -> Option<Rule> {
    match kind {
        TokenKind::Number { .. } => Some(Rule::Number),
        TokenKind::Time(_) => Some(Rule::Time),
        TokenKind::Length(_) => Some(Rule::LengthUnit),
        TokenKind::Duration(_) => Some(Rule::TimeUnit),
        TokenKind::Zone(_) => Some(Rule::Zone),
        TokenKind::Warmup => Some(Rule::Warmup),
        TokenKind::Cooldown => Some(Rule::Cooldown),
        TokenKind::Recovery => Some(Rule::Recovery),
        TokenKind::Times => Some(Rule::Times),
        TokenKind::Plus => Some(Rule::Plus),
        TokenKind::Open => Some(Rule::Open),
        TokenKind::Close => Some(Rule::Close),
        TokenKind::At => Some(Rule::At),
        TokenKind::Dash => Some(Rule::Dash),
        TokenKind::Slash => Some(Rule::Slash),
        TokenKind::End => Some(Rule::End),
        TokenKind::Invalid => None,
    }
}

/// Whether a syntax error names no rule but those that tokens of the two
/// kinds meet.
spec fn names<T>(r: Result<T, ParseError>, first: TokenKind, second: TokenKind) -> bool {
    r matches Err(ParseError::Syntax { expected, .. }) ==> forall|rule: Rule| #[trigger]
        expected.spec_contains(rule) ==> spec_rule_of(first) == Some(rule) || spec_rule_of(second)
            == Some(rule)
}

/// A set of one or two rules holds those and no others.
proof fn lemma_one_or_two(x: Rule, y: Rule, rule: Rule)
    ensures
        RuleSet::spec_of(x).spec_contains(rule) == (rule == x),
        RuleSet::spec_of(x).spec_with(y).spec_contains(rule) == (rule == x || rule == y),
{
    RuleSet::lemma_empty_holds_nothing(rule);
    RuleSet::spec_empty().lemma_with_holds(x, rule);
    RuleSet::spec_of(x).lemma_with_holds(y, rule);
}

/// The syntax error of a step names the rules that the first tokens of the
/// two ways to go on meet.
proof fn lemma_step_names(a: Seq<Token>, i: int)
    requires
        0 <= i,
    ensures
        names(spec_parse_workout_step(a, i), step_rest(a, i, false)[0], step_rest(a, i, true)[0]),
        names(spec_parse_interval_step(a, i), step_rest(a, i, false)[0], step_rest(a, i, true)[0]),
        step_rest(a, i, false).len() >= 1,
        step_rest(a, i, true).len() >= 1,
{
    if let Err(ParseError::Syntax { expected, .. }) = spec_parse_workout_step(a, i) {
        assert forall|rule: Rule| #[trigger] expected.spec_contains(rule) implies spec_rule_of(
            step_rest(a, i, false)[0],
        ) == Some(rule) || spec_rule_of(step_rest(a, i, true)[0]) == Some(rule) by {
            lemma_one_or_two(Rule::Number, Rule::Number, rule);
            lemma_one_or_two(Rule::LengthUnit, Rule::TimeUnit, rule);
            lemma_one_or_two(Rule::Zone, Rule::Time, rule);
            lemma_one_or_two(Rule::Dash, Rule::Slash, rule);
            lemma_one_or_two(Rule::Time, Rule::Time, rule);
            lemma_one_or_two(Rule::Slash, Rule::Slash, rule);
            lemma_one_or_two(Rule::LengthUnit, Rule::LengthUnit, rule);
        }
    }
}

/// The syntax error of the steps of a group names the rules that the first
/// tokens of the two ways to go on meet.
proof fn lemma_repeated_steps_names(a: Seq<Token>, i: int)
    requires
        0 <= i,
    ensures
        names(
            spec_parse_repeated_steps(a, i),
            repeated_steps_rest(a, i, false)[0],
            repeated_steps_rest(a, i, true)[0],
        ),
        spec_parse_repeated_steps(a, i) is Err ==> repeated_steps_rest(a, i, false).len() >= 1
            && repeated_steps_rest(a, i, true).len() >= 1,
    decreases a.len() - i,
{
    lemma_step_names(a, i);
    lemma_step_read(a, i);
    if let Ok((_, next)) = spec_parse_interval_step(a, i) {
        if spec_kind_at(a, next) is Plus && i < next < a.len() {
            lemma_repeated_steps_names(a, next + 1);
        }
    }
}

/// The syntax error of a block names the rules that the first tokens of the
/// two ways to go on meet.
proof fn lemma_block_names(a: Seq<Token>, i: int)
    requires
        0 <= i,
    ensures
        names(
            spec_parse_interval_block(a, i),
            block_rest(a, i, false)[0],
            block_rest(a, i, true)[0],
        ),
        block_rest(a, i, false).len() >= 1,
        block_rest(a, i, true).len() >= 1,
{
    lemma_step_names(a, i);
    lemma_repeated_steps_names(a, i + 3);
    if let Err(ParseError::Syntax { expected, .. }) = spec_parse_interval_block(a, i) {
        assert forall|rule: Rule| #[trigger] expected.spec_contains(rule) implies spec_rule_of(
            block_rest(a, i, false)[0],
        ) == Some(rule) || spec_rule_of(block_rest(a, i, true)[0]) == Some(rule) by {
            lemma_one_or_two(Rule::Open, Rule::Open, rule);
            lemma_one_or_two(Rule::Plus, Rule::Close, rule);
        }
    }
}

/// The syntax error of further blocks names the rules that the first tokens
/// of the two ways to go on meet.
proof fn lemma_more_blocks_names(a: Seq<Token>, i: int)
    requires
        0 <= i,
    ensures
        names(
            spec_parse_more_blocks(a, i),
            more_blocks_rest(a, i, false)[0],
            more_blocks_rest(a, i, true)[0],
        ),
        spec_parse_more_blocks(a, i) is Err ==> more_blocks_rest(a, i, false).len() >= 1
            && more_blocks_rest(a, i, true).len() >= 1,
    decreases a.len() - i,
{
    if spec_kind_at(a, i) is Plus && spec_parse_cooldown(a, i) is None {
        lemma_block_names(a, i + 1);
        if let Ok((_, next)) = spec_parse_interval_block(a, i + 1) {
            lemma_block_read(a, i + 1);
            lemma_more_blocks_names(a, next);
        }
    }
}

/// The kind of the token that stands at the reach of tokens that are not
/// read, once they are made a workout.
spec fn mends_with(a: Seq<Token>, second: bool) -> TokenKind {
    if rest(a, second).len() > 0 {
        rest(a, second)[0]
    } else {
        TokenKind::End
    }
}

/// The syntax error of a list of tokens names the rules that the first
/// tokens of the two ways to go on meet.
proof fn lemma_names(a: Seq<Token>)
    ensures
        names(spec_parse_tokens(a), mends_with(a, false), mends_with(a, true)),
{
    let start = blocks_start(a);
    lemma_blocks_start(a);
    lemma_block_names(a, start);
    match spec_parse_interval_blocks(a, start) {
        Err(_) => {
            if let Ok((_, next)) = spec_parse_interval_block(a, start) {
                lemma_block_read(a, start);
                lemma_more_blocks_names(a, next);
            }
        },
        Ok((_, after)) => {
            lemma_blocks_end(a, start);
            lemma_step_names(a, after);
            let one = step_rest(a, after, false);
            let other = step_rest(a, after, true);
            assert((one + seq![TokenKind::Cooldown])[0] == one[0]);
            assert((other + seq![TokenKind::Cooldown])[0] == other[0]);
            assert((seq![TokenKind::Plus] + a_step())[0] == TokenKind::Plus);
            if let Err(ParseError::Syntax { expected, .. }) = spec_parse_tokens(a) {
                assert forall|rule: Rule| #[trigger]
                    expected.spec_contains(rule) implies spec_rule_of(mends_with(a, false))
                    == Some(rule) || spec_rule_of(mends_with(a, true)) == Some(rule) by {
                    lemma_one_or_two(Rule::End, Rule::End, rule);
                    lemma_one_or_two(Rule::Cooldown, Rule::Cooldown, rule);
                    lemma_one_or_two(Rule::Plus, Rule::End, rule);
                }
            }
        },
    }
}

/// The tokens of `a` before its reach, then tokens of the kinds that make a
/// workout of them, then the end of the input, each at the offset that `a`
/// has at its index.
spec fn mended(a: Seq<Token>, second: bool) -> Seq<Token> {
    Seq::new(
        (reach(a) + rest(a, second).len() + 1) as nat,
        |j: int|
            Token {
                kind: if j < reach(a) {
                    spec_kind_at(a, j)
                } else if j < reach(a) + rest(a, second).len() {
                    rest(a, second)[j - reach(a)]
                } else {
                    TokenKind::End
                },
                start: spec_position_at(a, j),
                end: spec_position_at(a, j),
            },
    )
}

/// Whether the tokens before index `k` are the start of a workout: a list of
/// tokens that is read as a workout has the same tokens before index `k`.
pub open spec fn spec_starts_a_workout(tokens: Seq<Token>, k: int) -> bool {
    exists|others: Seq<Token>|
        spec_same_through(tokens, others, k - 1) && #[trigger] spec_parse_tokens(others) is Ok
}

/// Whether a token that meets `rule` could stand at index `k`: a list of
/// tokens that is read as a workout has the same tokens before index `k`,
/// and at index `k`, at the same offset, a token that meets the rule.
pub open spec fn spec_could_stand(tokens: Seq<Token>, k: int, rule: Rule) -> bool {
    exists|others: Seq<Token>|
        spec_same_through(tokens, others, k - 1) && spec_position_at(others, k) == spec_position_at(
            tokens,
            k,
        ) && spec_rule_of(spec_kind_at(others, k)) == Some(rule) && #[trigger] spec_parse_tokens(
            others,
        ) is Ok
}

/// Whether every rule that the syntax error of the tokens names could stand
/// at index `k`.
pub open spec fn spec_names_what_could_stand(tokens: Seq<Token>, k: int) -> bool {
    spec_parse_tokens(tokens) matches Err(ParseError::Syntax { expected, .. }) ==> forall|
        rule: Rule,
    | #[trigger]
        expected.spec_contains(rule) ==> spec_could_stand(tokens, k, rule)
}

/// Tokens that are not read for their syntax are read as a workout once
/// they are mended, in the one way or the other.
proof fn lemma_mended(tokens: Seq<Token>, second: bool)
    requires
        spec_parse_tokens(tokens) matches Err(ParseError::Syntax { .. }),
        spec_numbers_fit(tokens, 0, reach(tokens)),
    ensures
        spec_same_through(tokens, mended(tokens, second), reach(tokens) - 1),
        spec_position_at(mended(tokens, second), reach(tokens)) == spec_position_at(
            tokens,
            reach(tokens),
        ),
        spec_kind_at(mended(tokens, second), reach(tokens)) == mends_with(tokens, second),
        spec_parse_tokens(mended(tokens, second)) is Ok,
{
    let k = reach(tokens);
    let others = mended(tokens, second);
    lemma_reach_bounds(tokens);
    assert(spec_same_through(tokens, others, k - 1));
    assert(spec_kinds_at(others, k, rest(tokens, second)));
    assert(spec_kind_at(others, k + rest(tokens, second).len()) is End);
    lemma_goes_on(tokens, others, second);
}

/// Every rule that the syntax error of the tokens names could stand at
/// their reach, if the numbers before it are ones that the model can hold;
/// so the tokens before it are the start of a workout.
proof fn lemma_names_what_could_stand(tokens: Seq<Token>)
    requires
        spec_parse_tokens(tokens) matches Err(ParseError::Syntax { .. }),
        spec_numbers_fit(tokens, 0, reach(tokens)),
    ensures
        spec_names_what_could_stand(tokens, reach(tokens)),
        spec_starts_a_workout(tokens, reach(tokens)),
{
    let k = reach(tokens);
    let expected = spec_parse_tokens(tokens)->Err_0->expected;
    lemma_names(tokens);
    lemma_mended(tokens, false);
    lemma_mended(tokens, true);
    assert forall|rule: Rule| #[trigger] expected.spec_contains(rule) implies spec_could_stand(
        tokens,
        k,
        rule,
    ) by {
        if spec_rule_of(mends_with(tokens, false)) == Some(rule) {
            assert(spec_parse_tokens(mended(tokens, false)) is Ok);
        } else {
            assert(spec_parse_tokens(mended(tokens, true)) is Ok);
        }
    }
}

/// A syntax error names the very token at which the tokens stop being the
/// start of a workout, and the rules it names are rules that a token there
/// could have met. With the token that is there the tokens are the start of
/// no workout, whatever follows. With a token that meets one of the rules in
/// its place they are the start of one, if the numbers before it are ones
/// that the model can hold.
pub proof fn lemma_syntax_error_is_exact(tokens: Seq<Token>)
    requires
        spec_parse_tokens(tokens) matches Err(ParseError::Syntax { .. }),
    ensures
        exists|k: int|
            0 <= k <= tokens.len() && spec_blames(spec_parse_tokens(tokens), tokens, k)
                && #[trigger] spec_final_at(tokens, k) && (spec_numbers_fit(tokens, 0, k)
                ==> spec_names_what_could_stand(tokens, k) && spec_starts_a_workout(tokens, k)),
{
    lemma_reach(tokens);
    let k = reach(tokens);
    if spec_numbers_fit(tokens, 0, k) {
        lemma_names_what_could_stand(tokens);
    }
    assert(spec_final_at(tokens, k));
}

/// The syntax error of an input names the offset of one of the input's
/// tokens, the end of the input counted as one. Nothing after that token
/// matters; and if the numbers before it are ones that the model can hold,
/// the tokens before it are the start of a workout, in which a token that
/// meets any of the rules that the error names could follow them.
pub proof fn lemma_syntax_error_names_a_token(input: Seq<u8>)
    requires
        input.len() <= usize::MAX,
    ensures
        exists|k: int|
            0 <= k < spec_tokenize(input).len() && #[trigger] spec_final_at(spec_tokenize(input), k)
                && (spec_parse_workout(input) matches Err(ParseError::Syntax { position, .. })
                ==> position == spec_tokenize(input)[k].start && (spec_numbers_fit(
                spec_tokenize(input),
                0,
                k,
            ) ==> spec_names_what_could_stand(spec_tokenize(input), k) && spec_starts_a_workout(
                spec_tokenize(input),
                k,
            ))),
{
    let tokens = spec_tokenize(input);
    lemma_tokens_from(input, 0);
    lemma_reach(tokens);
    let k = reach(tokens);
    if spec_parse_tokens(tokens) matches Err(ParseError::Syntax { .. }) && spec_numbers_fit(
        tokens,
        0,
        k,
    ) {
        lemma_names_what_could_stand(tokens);
    }
    assert(spec_final_at(tokens, k));
    if k == tokens.len() {
        assert(spec_is_last(spec_kind_at(tokens, k - 1)));
    }
}

} // verus!
