//! What holds of every list of tokens and of every parsed workout.

use crate::models::{Alert, IntervalBlockView, WorkoutStep, WorkoutView};
use crate::parser::grammar::{
    spec_kind_at, spec_parse_alert, spec_parse_cooldown, spec_parse_goal,
    spec_parse_interval_block, spec_parse_interval_blocks, spec_parse_interval_step,
    spec_parse_more_blocks, spec_parse_repeated_steps, spec_parse_tokens, spec_parse_warmup,
    spec_parse_workout, spec_parse_workout_step, spec_position_at,
};
use crate::parser::lexer::{
    lemma_digits_end_bounds, spec_digits_end, spec_is_blank, spec_is_last, spec_skip_blanks,
    spec_token_at, spec_tokenize, spec_tokens_from, Token,
};
use vstd::prelude::*;
use vstd::string::StringSliceAdditionalSpecFns;

verus! {

/// The lengths of the notation's words.
proof fn lemma_word_lengths()
    ensures
        "warmup".spec_bytes().len() == 6,
        "cooldown".spec_bytes().len() == 8,
        "recovery".spec_bytes().len() == 8,
        "x".spec_bytes().len() == 1,
        "miles".spec_bytes().len() == 5,
        "mile".spec_bytes().len() == 4,
        "yards".spec_bytes().len() == 5,
        "yard".spec_bytes().len() == 4,
        "feet".spec_bytes().len() == 4,
        "foot".spec_bytes().len() == 4,
        "meters".spec_bytes().len() == 6,
        "meter".spec_bytes().len() == 5,
        "kilometers".spec_bytes().len() == 10,
        "kilometer".spec_bytes().len() == 9,
        "km".spec_bytes().len() == 2,
        "seconds".spec_bytes().len() == 7,
        "second".spec_bytes().len() == 6,
        "minutes".spec_bytes().len() == 7,
        "minute".spec_bytes().len() == 6,
        "hours".spec_bytes().len() == 5,
        "hour".spec_bytes().len() == 4,
        "z1".spec_bytes().len() == 2,
        "z2".spec_bytes().len() == 2,
        "z3".spec_bytes().len() == 2,
        "z4".spec_bytes().len() == 2,
        "z5".spec_bytes().len() == 2,
{
    reveal_strlit("warmup");
    reveal_strlit("cooldown");
    reveal_strlit("recovery");
    reveal_strlit("x");
    reveal_strlit("miles");
    reveal_strlit("mile");
    reveal_strlit("yards");
    reveal_strlit("yard");
    reveal_strlit("feet");
    reveal_strlit("foot");
    reveal_strlit("meters");
    reveal_strlit("meter");
    reveal_strlit("kilometers");
    reveal_strlit("kilometer");
    reveal_strlit("km");
    reveal_strlit("seconds");
    reveal_strlit("second");
    reveal_strlit("minutes");
    reveal_strlit("minute");
    reveal_strlit("hours");
    reveal_strlit("hour");
    reveal_strlit("z1");
    reveal_strlit("z2");
    reveal_strlit("z3");
    reveal_strlit("z4");
    reveal_strlit("z5");
    vstd::string::is_ascii_spec_bytes("warmup");
    vstd::string::is_ascii_spec_bytes("cooldown");
    vstd::string::is_ascii_spec_bytes("recovery");
    vstd::string::is_ascii_spec_bytes("x");
    vstd::string::is_ascii_spec_bytes("miles");
    vstd::string::is_ascii_spec_bytes("mile");
    vstd::string::is_ascii_spec_bytes("yards");
    vstd::string::is_ascii_spec_bytes("yard");
    vstd::string::is_ascii_spec_bytes("feet");
    vstd::string::is_ascii_spec_bytes("foot");
    vstd::string::is_ascii_spec_bytes("meters");
    vstd::string::is_ascii_spec_bytes("meter");
    vstd::string::is_ascii_spec_bytes("kilometers");
    vstd::string::is_ascii_spec_bytes("kilometer");
    vstd::string::is_ascii_spec_bytes("km");
    vstd::string::is_ascii_spec_bytes("seconds");
    vstd::string::is_ascii_spec_bytes("second");
    vstd::string::is_ascii_spec_bytes("minutes");
    vstd::string::is_ascii_spec_bytes("minute");
    vstd::string::is_ascii_spec_bytes("hours");
    vstd::string::is_ascii_spec_bytes("hour");
    vstd::string::is_ascii_spec_bytes("z1");
    vstd::string::is_ascii_spec_bytes("z2");
    vstd::string::is_ascii_spec_bytes("z3");
    vstd::string::is_ascii_spec_bytes("z4");
    vstd::string::is_ascii_spec_bytes("z5");
}

/// Skipping blanks ends within the input, at a byte that is no blank, and
/// passes over blanks only.
pub proof fn lemma_skip_blanks(input: Seq<u8>, pos: int)
    requires
        0 <= pos <= input.len(),
    ensures
        pos <= spec_skip_blanks(input, pos) <= input.len(),
        spec_skip_blanks(input, pos) < input.len() ==> !spec_is_blank(
            input[spec_skip_blanks(input, pos)],
        ),
        forall|k: int|
            pos <= k < spec_skip_blanks(input, pos) ==> spec_is_blank(#[trigger] input[k]),
    decreases input.len() - pos,
{
    if pos < input.len() && spec_is_blank(input[pos]) {
        lemma_skip_blanks(input, pos + 1);
    }
}

/// A token starts where it is read and ends within the input; but for the
/// end of the input and a byte that starts no token, it is not empty.
pub proof fn lemma_token_span(input: Seq<u8>, pos: int)
    requires
        0 <= pos <= input.len() <= usize::MAX,
    ensures
        spec_token_at(input, pos).start == pos,
        pos <= spec_token_at(input, pos).end <= input.len(),
        !spec_is_last(spec_token_at(input, pos).kind) ==> pos < spec_token_at(input, pos).end,
        spec_token_at(input, pos).kind is End <==> pos == input.len(),
{
    lemma_word_lengths();
    if pos < input.len() {
        lemma_digits_end_bounds(input, pos + 1);
        let whole_end = spec_digits_end(input, pos);
        if whole_end + 1 <= input.len() {
            lemma_digits_end_bounds(input, whole_end + 1);
        }
    }
}

/// The tokens of an input: there is a last one, which is the end of the
/// input or a byte that starts no token, and no token before it is either;
/// the tokens stand within the input, each after the one before.
pub proof fn lemma_tokens_from(input: Seq<u8>, pos: int)
    requires
        0 <= pos <= input.len() <= usize::MAX,
    ensures
        spec_tokens_from(input, pos).len() >= 1,
        spec_is_last(spec_tokens_from(input, pos).last().kind),
        forall|k: int|
            0 <= k < spec_tokens_from(input, pos).len() - 1 ==> !spec_is_last(
                (#[trigger] spec_tokens_from(input, pos)[k]).kind,
            ),
        forall|k: int|
            0 <= k < spec_tokens_from(input, pos).len() ==> pos <= (#[trigger] spec_tokens_from(
                input,
                pos,
            )[k]).start <= spec_tokens_from(input, pos)[k].end <= input.len(),
        forall|k: int|
            0 <= k < spec_tokens_from(input, pos).len() - 1 ==> (#[trigger] spec_tokens_from(
                input,
                pos,
            )[k]).end <= spec_tokens_from(input, pos)[k + 1].start,
    decreases input.len() - pos,
{
    let start = spec_skip_blanks(input, pos);
    lemma_skip_blanks(input, pos);
    lemma_token_span(input, start);
    let token = spec_token_at(input, start);
    if !spec_is_last(token.kind) {
        let rest = spec_tokens_from(input, token.end as int);
        lemma_tokens_from(input, token.end as int);
        let all = spec_tokens_from(input, pos);
        assert(all =~= seq![token] + rest);
        assert forall|k: int| 0 <= k < all.len() - 1 implies !spec_is_last(
            (#[trigger] all[k]).kind,
        ) by {
            if k > 0 {
                assert(all[k] == rest[k - 1]);
            }
        }
        assert forall|k: int| 0 <= k < all.len() implies pos <= (#[trigger] all[k]).start
            <= all[k].end <= input.len() by {
            if k > 0 {
                assert(all[k] == rest[k - 1]);
            }
        }
        assert forall|k: int| 0 <= k < all.len() - 1 implies (#[trigger] all[k]).end <= all[k
            + 1].start by {
            assert(all[k + 1] == rest[k]);
            if k > 0 {
                assert(all[k] == rest[k - 1]);
            }
        }
    }
}

/// Whether the tokens from index `i` up to index `j` are all there and none
/// of them is the end of the input or a byte that starts no token.
pub open spec fn spec_all_read(tokens: Seq<Token>, i: int, j: int) -> bool {
    &&& 0 <= i <= j <= tokens.len()
    &&& forall|k: int| i <= k < j ==> !spec_is_last((#[trigger] tokens[k]).kind)
}

proof fn lemma_read_more(tokens: Seq<Token>, i: int, j: int, k: int)
    requires
        spec_all_read(tokens, i, j),
        spec_all_read(tokens, j, k),
    ensures
        spec_all_read(tokens, i, k),
{
}

/// Whether a step is one that the notation can write: its pace band, if it
/// has one, is in one unit.
pub open spec fn spec_step_well_formed(step: WorkoutStep) -> bool {
    step.alert matches Some(Alert::PaceRange { min, max }) ==> min.unit == max.unit
}

/// Whether a block is one that the notation can write: it has a step, and
/// without a repeat count it has one step only; each step is well formed.
pub open spec fn spec_block_well_formed(block: IntervalBlockView) -> bool {
    &&& block.steps.len() >= 1
    &&& block.repeats is None ==> block.steps.len() == 1
    &&& forall|j: int|
        0 <= j < block.steps.len() ==> spec_step_well_formed((#[trigger] block.steps[j]).step)
}

/// Whether a workout is one that the notation can write: it has a block,
/// and its blocks and steps are well formed.
pub open spec fn spec_well_formed(workout: WorkoutView) -> bool {
    &&& workout.intervals.len() >= 1
    &&& forall|i: int|
        0 <= i < workout.intervals.len() ==> spec_block_well_formed(
            #[trigger] workout.intervals[i],
        )
    &&& workout.warmup matches Some(step) ==> spec_step_well_formed(step)
    &&& workout.cooldown matches Some(step) ==> spec_step_well_formed(step)
}

/// A step that is read is well formed, and the tokens it is read from are
/// all there: at least two of them.
pub proof fn lemma_step_read(tokens: Seq<Token>, i: int)
    ensures
        spec_parse_workout_step(tokens, i) matches Ok((step, next)) ==> spec_step_well_formed(step)
            && i + 2 <= next && spec_all_read(tokens, i, next),
        spec_parse_interval_step(tokens, i) matches Ok((step, next)) ==> spec_step_well_formed(
            step.step,
        ) && i + 2 <= next && spec_all_read(tokens, i, next),
{
    if let Ok((goal, j)) = spec_parse_goal(tokens, i) {
        assert(spec_all_read(tokens, i, j));
        if spec_kind_at(tokens, j) is At {
            if let Ok((alert, k)) = spec_parse_alert(tokens, j + 1) {
                assert(spec_all_read(tokens, j, k));
            }
        }
    }
}

/// The steps of a group that are read are well formed and at least one, and
/// the tokens they are read from are all there.
pub proof fn lemma_repeated_steps_read(tokens: Seq<Token>, i: int)
    ensures
        spec_parse_repeated_steps(tokens, i) matches Ok((steps, next)) ==> steps.len() >= 1
            && i + 2 <= next && spec_all_read(tokens, i, next) && forall|j: int|
            0 <= j < steps.len() ==> spec_step_well_formed((#[trigger] steps[j]).step),
    decreases tokens.len() - i,
{
    lemma_step_read(tokens, i);
    if let Ok((step, next)) = spec_parse_interval_step(tokens, i) {
        if spec_kind_at(tokens, next) is Plus && i < next < tokens.len() {
            lemma_repeated_steps_read(tokens, next + 1);
            if let Ok((more, end)) = spec_parse_repeated_steps(tokens, next + 1) {
                let steps = seq![step] + more;
                assert forall|j: int| 0 <= j < steps.len() implies spec_step_well_formed(
                    (#[trigger] steps[j]).step,
                ) by {
                    if j > 0 {
                        assert(steps[j] == more[j - 1]);
                    }
                }
                assert(spec_all_read(tokens, next, next + 1));
            }
        }
    }
}

/// A block that is read is well formed, and the tokens it is read from are
/// all there.
pub proof fn lemma_block_read(tokens: Seq<Token>, i: int)
    ensures
        spec_parse_interval_block(tokens, i) matches Ok((block, next)) ==> spec_block_well_formed(
            block,
        ) && i + 2 <= next && spec_all_read(tokens, i, next),
{
    lemma_step_read(tokens, i);
    lemma_repeated_steps_read(tokens, i + 3);
    if let Ok((block, next)) = spec_parse_interval_block(tokens, i) {
        if block.repeats is Some {
            assert(spec_all_read(tokens, i, i + 3));
            assert(spec_all_read(tokens, next - 1, next));
        }
    }
}

/// The blocks that are read after the first are well formed, and the tokens
/// they are read from are all there.
pub proof fn lemma_more_blocks_read(tokens: Seq<Token>, i: int)
    requires
        0 <= i <= tokens.len(),
    ensures
        spec_parse_more_blocks(tokens, i) matches Ok((blocks, next)) ==> spec_all_read(
            tokens,
            i,
            next,
        ) && forall|k: int| 0 <= k < blocks.len() ==> spec_block_well_formed(#[trigger] blocks[k]),
    decreases tokens.len() - i,
{
    if spec_kind_at(tokens, i) is Plus && spec_parse_cooldown(tokens, i) is None {
        lemma_block_read(tokens, i + 1);
        if let Ok((block, next)) = spec_parse_interval_block(tokens, i + 1) {
            assert(spec_all_read(tokens, i, i + 1));
            if i < next <= tokens.len() {
                lemma_more_blocks_read(tokens, next);
                if let Ok((more, end)) = spec_parse_more_blocks(tokens, next) {
                    let blocks = seq![block] + more;
                    assert forall|k: int| 0 <= k < blocks.len() implies spec_block_well_formed(
                        #[trigger] blocks[k],
                    ) by {
                        if k > 0 {
                            assert(blocks[k] == more[k - 1]);
                        }
                    }
                }
            }
        }
    }
}

/// The blocks that are read are well formed and at least one, and the
/// tokens they are read from are all there.
pub proof fn lemma_blocks_read(tokens: Seq<Token>, i: int)
    requires
        0 <= i <= tokens.len(),
    ensures
        spec_parse_interval_blocks(tokens, i) matches Ok((blocks, next)) ==> blocks.len() >= 1
            && spec_all_read(tokens, i, next) && forall|k: int|
            0 <= k < blocks.len() ==> spec_block_well_formed(#[trigger] blocks[k]),
{
    lemma_block_read(tokens, i);
    if let Ok((first, next)) = spec_parse_interval_block(tokens, i) {
        lemma_more_blocks_read(tokens, next);
        if let Ok((more, after)) = spec_parse_more_blocks(tokens, next) {
            let blocks = seq![first] + more;
            assert forall|k: int| 0 <= k < blocks.len() implies spec_block_well_formed(
                #[trigger] blocks[k],
            ) by {
                if k > 0 {
                    assert(blocks[k] == more[k - 1]);
                }
            }
            lemma_read_more(tokens, i, next, after);
        }
    }
}

/// A warmup that is read is well formed, and the tokens it is read from are
/// all there.
pub proof fn lemma_warmup_read(tokens: Seq<Token>)
    ensures
        spec_parse_warmup(tokens) matches Some((step, next)) ==> spec_step_well_formed(step)
            && spec_all_read(tokens, 0, next),
{
    lemma_step_read(tokens, 0);
    if let Some((step, next)) = spec_parse_warmup(tokens) {
        let after = spec_parse_workout_step(tokens, 0)->Ok_0.1;
        assert(spec_all_read(tokens, after, next));
        lemma_read_more(tokens, 0, after, next);
    }
}

/// A cooldown that is read is well formed, and the tokens it is read from
/// are all there.
pub proof fn lemma_cooldown_read(tokens: Seq<Token>, i: int)
    requires
        0 <= i <= tokens.len(),
    ensures
        spec_parse_cooldown(tokens, i) matches Some((step, next)) ==> spec_step_well_formed(step)
            && spec_all_read(tokens, i, next),
{
    if let Some((step, next)) = spec_parse_cooldown(tokens, i) {
        let from = if spec_kind_at(tokens, i) is Plus {
            i + 1
        } else {
            i
        };
        lemma_step_read(tokens, from);
        assert(spec_all_read(tokens, i, from));
        assert(spec_all_read(tokens, next - 1, next));
        lemma_read_more(tokens, i, from, next - 1);
        lemma_read_more(tokens, i, next - 1, next);
    }
}

/// A workout that is read is well formed, and it is read from all the
/// tokens up to one that is the end of the input.
pub proof fn lemma_workout_read(tokens: Seq<Token>)
    ensures
        spec_parse_tokens(tokens) matches Ok(workout) ==> spec_well_formed(workout) && exists|
            end: int,
        |
            spec_all_read(tokens, 0, end) && #[trigger] spec_kind_at(tokens, end) is End,
{
    if let Ok(workout) = spec_parse_tokens(tokens) {
        lemma_warmup_read(tokens);
        let start = match spec_parse_warmup(tokens) {
            Some((_, next)) => next,
            None => 0,
        };
        assert(spec_all_read(tokens, 0, start));
        lemma_blocks_read(tokens, start);
        let (blocks, after) = spec_parse_interval_blocks(tokens, start)->Ok_0;
        lemma_read_more(tokens, 0, start, after);
        lemma_cooldown_read(tokens, after);
        let end = match spec_parse_cooldown(tokens, after) {
            Some((_, end)) => end,
            None => after,
        };
        assert(spec_all_read(tokens, after, end));
        lemma_read_more(tokens, 0, after, end);
        assert(spec_kind_at(tokens, end) is End);
    }
}

/// The whole of an input is read: an input that writes a workout is made of
/// tokens of the notation and blanks from its first byte to its last, with
/// no byte that starts no token, and every token is part of the workout.
pub proof fn lemma_whole_input_is_read(input: Seq<u8>)
    requires
        input.len() <= usize::MAX,
    ensures
        spec_parse_workout(input) matches Ok(workout) ==> spec_well_formed(workout)
            && spec_tokenize(input).last().kind is End && spec_all_read(
            spec_tokenize(input),
            0,
            spec_tokenize(input).len() - 1,
        ),
{
    let tokens = spec_tokenize(input);
    lemma_tokens_from(input, 0);
    lemma_workout_read(tokens);
    if let Ok(workout) = spec_parse_tokens(tokens) {
        let end = choose|end: int|
            spec_all_read(tokens, 0, end) && #[trigger] spec_kind_at(tokens, end) is End;
        if end < tokens.len() - 1 {
            assert(!spec_is_last(tokens[end].kind));
        }
        if end == tokens.len() {
            assert(!spec_is_last(tokens[tokens.len() - 1].kind));
        }
    }
}

/// Whether a byte offset is one that an error can name: the offset of a
/// token, or the offset at which the last token ends.
pub open spec fn spec_names_a_token(tokens: Seq<Token>, position: usize) -> bool {
    exists|k: int| position == #[trigger] spec_position_at(tokens, k)
}

proof fn lemma_names_a_token(tokens: Seq<Token>, k: int)
    ensures
        spec_names_a_token(tokens, spec_position_at(tokens, k)),
{
}

/// The error of a step that is not read names a token.
pub proof fn lemma_step_error(tokens: Seq<Token>, i: int)
    ensures
        spec_parse_workout_step(tokens, i) matches Err(e) ==> spec_names_a_token(
            tokens,
            e.spec_position(),
        ),
        spec_parse_interval_step(tokens, i) matches Err(e) ==> spec_names_a_token(
            tokens,
            e.spec_position(),
        ),
{
    lemma_names_a_token(tokens, i);
    lemma_names_a_token(tokens, i + 1);
    lemma_names_a_token(tokens, i + 2);
    lemma_names_a_token(tokens, i + 3);
    lemma_names_a_token(tokens, i + 4);
    lemma_names_a_token(tokens, i + 5);
    lemma_names_a_token(tokens, i + 6);
    lemma_names_a_token(tokens, i + 7);
}

/// The error of steps of a group that are not read names a token.
pub proof fn lemma_repeated_steps_error(tokens: Seq<Token>, i: int)
    ensures
        spec_parse_repeated_steps(tokens, i) matches Err(e) ==> spec_names_a_token(
            tokens,
            e.spec_position(),
        ),
    decreases tokens.len() - i,
{
    lemma_step_error(tokens, i);
    if let Ok((step, next)) = spec_parse_interval_step(tokens, i) {
        if spec_kind_at(tokens, next) is Plus && i < next < tokens.len() {
            lemma_repeated_steps_error(tokens, next + 1);
        }
    }
}

/// The error of a block that is not read names a token.
pub proof fn lemma_block_error(tokens: Seq<Token>, i: int)
    ensures
        spec_parse_interval_block(tokens, i) matches Err(e) ==> spec_names_a_token(
            tokens,
            e.spec_position(),
        ),
{
    lemma_step_error(tokens, i);
    lemma_repeated_steps_error(tokens, i + 3);
    lemma_names_a_token(tokens, i);
    lemma_names_a_token(tokens, i + 2);
    if let Ok((_, next)) = spec_parse_repeated_steps(tokens, i + 3) {
        lemma_names_a_token(tokens, next);
    }
}

/// The error of further blocks that are not read names a token.
pub proof fn lemma_more_blocks_error(tokens: Seq<Token>, i: int)
    ensures
        spec_parse_more_blocks(tokens, i) matches Err(e) ==> spec_names_a_token(
            tokens,
            e.spec_position(),
        ),
    decreases tokens.len() - i,
{
    if spec_kind_at(tokens, i) is Plus && spec_parse_cooldown(tokens, i) is None {
        lemma_block_error(tokens, i + 1);
        if let Ok((block, next)) = spec_parse_interval_block(tokens, i + 1) {
            if i < next <= tokens.len() {
                lemma_more_blocks_error(tokens, next);
            }
        }
    }
}

/// The error of tokens that are not read as a workout names a token.
pub proof fn lemma_workout_error(tokens: Seq<Token>)
    ensures
        spec_parse_tokens(tokens) matches Err(e) ==> spec_names_a_token(
            tokens,
            e.spec_position(),
        ),
{
    let start = match spec_parse_warmup(tokens) {
        Some((_, next)) => next,
        None => 0,
    };
    lemma_block_error(tokens, start);
    if let Ok((first, next)) = spec_parse_interval_block(tokens, start) {
        lemma_more_blocks_error(tokens, next);
        if let Ok((rest, after)) = spec_parse_more_blocks(tokens, next) {
            lemma_names_a_token(tokens, after);
            lemma_step_error(tokens, after);
            match spec_parse_cooldown(tokens, after) {
                Some((_, end)) => {
                    lemma_names_a_token(tokens, end);
                },
                None => {
                    if let Ok((_, end)) = spec_parse_workout_step(tokens, after) {
                        lemma_names_a_token(tokens, end);
                    }
                },
            }
        }
    }
}

/// The error of an input that writes no workout names a byte offset within
/// the input, or the offset of its end.
pub proof fn lemma_error_is_within_input(input: Seq<u8>)
    requires
        input.len() <= usize::MAX,
    ensures
        spec_parse_workout(input) matches Err(e) ==> e.spec_position() <= input.len(),
{
    let tokens = spec_tokenize(input);
    lemma_tokens_from(input, 0);
    lemma_workout_error(tokens);
    if let Err(e) = spec_parse_tokens(tokens) {
        let k = choose|k: int| e.spec_position() == #[trigger] spec_position_at(tokens, k);
        if 0 <= k < tokens.len() {
            assert(tokens[k].start <= input.len());
        } else {
            assert(tokens[tokens.len() - 1].end <= input.len());
        }
    }
}

} // verus!
