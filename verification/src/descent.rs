//! Why the levels that `compile` allows are enough.
//!
//! Whether a run is lowered within some number of levels depends on that number only
//! through the branches that it may take: those whose own run is lowered within one level
//! less. More levels never take a branch away. And once one more level gives no new branch,
//! no number of levels gives one. A program with `n` instructions has at most `n` branches,
//! so this happens after `n` levels at the latest: a program that is not lowered within `n`
//! levels is not lowered within any.

use crate::compiler::{
    initial_state, is_branch, lemma_deeper_is_the_same, location_operand, lower_run, lowered,
    straight_state, with_blocks, LoweringState,
};
use crate::parser::{InstructionView, Opcode};
use vstd::prelude::*;
use vstd::set_lib::{lemma_int_range, lemma_len_subset, set_int_range};

verus! {

/// The run from `index` meets no branch but those in `allowed`.
pub open spec fn completes(
    program: Seq<InstructionView>,
    from_line: nat,
    index: int,
    allowed: Set<int>,
) -> bool
    decreases program.len() - index,
{
    if index < 0 || index >= program.len() {
        true
    } else if program[index].lineno < from_line {
        completes(program, from_line, index + 1, allowed)
    } else if program[index].opcode == Opcode::STP {
        true
    } else if program[index].opcode == Opcode::BRU {
        allowed.contains(index)
    } else if is_branch(program[index].opcode) {
        allowed.contains(index) && completes(program, from_line, index + 1, allowed)
    } else {
        completes(program, from_line, index + 1, allowed)
    }
}

/// The run that the branch at `index` goes to is lowered within `depth` levels.
pub open spec fn target_lowers(program: Seq<InstructionView>, index: int, depth: nat) -> bool {
    lower_run(
        program,
        location_operand(program[index]) as nat,
        0,
        initial_state(),
        depth,
    ) is Some
}

/// The branches that a run may take where `depth` levels are left.
pub open spec fn taken(program: Seq<InstructionView>, depth: nat) -> Set<int> {
    Set::new(
        |index: int|
            0 <= index < program.len() && is_branch(program[index].opcode) && depth > 0
                && target_lowers(program, index, (depth - 1) as nat),
    )
}

/// A run is lowered within `depth` levels where it meets only branches that may be taken
/// with `depth` levels left, whatever the state is.
pub proof fn lemma_lowers_iff_completes(
    program: Seq<InstructionView>,
    from_line: nat,
    index: int,
    state: LoweringState,
    depth: nat,
)
    ensures
        lower_run(program, from_line, index, state, depth) is Some <==> completes(
            program,
            from_line,
            index,
            taken(program, depth),
        ),
    decreases depth, program.len() - index,
{
    if index < 0 || index >= program.len() {
    } else if program[index].lineno < from_line {
        lemma_lowers_iff_completes(program, from_line, index + 1, state, depth);
    } else {
        let i = program[index];
        let target = location_operand(i) as nat;
        if i.opcode == Opcode::STP {
        } else if is_branch(i.opcode) {
            if depth > 0 {
                let below = (depth - 1) as nat;
                let blocks: nat = if i.opcode == Opcode::BRU {
                    1
                } else {
                    3
                };
                lemma_lowers_iff_completes(program, target, 0, with_blocks(state, blocks), below);
                lemma_lowers_iff_completes(program, target, 0, initial_state(), below);
                assert(taken(program, depth).contains(index) == target_lowers(
                    program,
                    index,
                    below,
                ));
                if i.opcode != Opcode::BRU {
                    match lower_run(program, target, 0, with_blocks(state, 3), below) {
                        Some(then_run) => {
                            lemma_lowers_iff_completes(
                                program,
                                from_line,
                                index + 1,
                                then_run.state,
                                depth,
                            );
                        },
                        None => {},
                    }
                }
            } else {
                assert(!taken(program, depth).contains(index));
            }
        } else {
            lemma_lowers_iff_completes(
                program,
                from_line,
                index + 1,
                straight_state(i, state),
                depth,
            );
        }
    }
}

/// One more level takes no branch away.
pub proof fn lemma_taken_grows(program: Seq<InstructionView>, depth: nat)
    ensures
        taken(program, depth).subset_of(taken(program, depth + 1)),
        taken(program, depth).subset_of(set_int_range(0, program.len() as int)),
        taken(program, depth).finite(),
        taken(program, depth).len() <= program.len(),
{
    assert forall|index: int| taken(program, depth).contains(index) implies taken(
        program,
        depth + 1,
    ).contains(index) by {
        lemma_deeper_is_the_same(
            program,
            location_operand(program[index]) as nat,
            0,
            initial_state(),
            (depth - 1) as nat,
            depth,
        );
    }
    lemma_int_range(0, program.len() as int);
    lemma_len_subset(taken(program, depth), set_int_range(0, program.len() as int));
}

/// Where one more level gives no new branch, the next level gives none either.
pub proof fn lemma_taken_stays(program: Seq<InstructionView>, depth: nat)
    requires
        taken(program, depth + 1) == taken(program, depth),
    ensures
        taken(program, depth + 2) == taken(program, depth + 1),
{
    assert forall|index: int|
        #[trigger] taken(program, depth + 2).contains(index) == taken(
            program,
            depth + 1,
        ).contains(index) by {
        if 0 <= index < program.len() && is_branch(program[index].opcode) {
            let target = location_operand(program[index]) as nat;
            lemma_lowers_iff_completes(program, target, 0, initial_state(), depth + 1);
            lemma_lowers_iff_completes(program, target, 0, initial_state(), depth);
        }
    }
    assert(taken(program, depth + 2) =~= taken(program, depth + 1));
}

/// Where one more level gives no new branch, no number of levels gives one.
pub proof fn lemma_taken_stays_for_good(program: Seq<InstructionView>, depth: nat, later: nat)
    requires
        taken(program, depth + 1) == taken(program, depth),
        depth <= later,
    ensures
        taken(program, later) == taken(program, depth),
    decreases later - depth,
{
    if later > depth {
        lemma_taken_stays_for_good(program, depth, (later - 1) as nat);
        if later - 1 > depth {
            lemma_taken_stays_for_good(program, depth, (later - 2) as nat);
            lemma_taken_stays(program, (later - 2) as nat);
        }
    }
}

/// Some level up to `depth` gave no new branch.
pub open spec fn settled_by(program: Seq<InstructionView>, depth: nat) -> bool {
    exists|level: nat|
        level < depth && #[trigger] taken(program, level + 1) == taken(program, level)
}

/// As long as every level gives a new branch, there are as many branches as levels.
pub proof fn lemma_settles_or_counts(program: Seq<InstructionView>, depth: nat)
    ensures
        settled_by(program, depth) || taken(program, depth).len() >= depth,
    decreases depth,
{
    if depth > 0 {
        let before = (depth - 1) as nat;
        lemma_settles_or_counts(program, before);
        if settled_by(program, before) {
            let level = choose|level: nat|
                level < before && #[trigger] taken(program, level + 1) == taken(program, level);
            assert(level < depth);
        } else if taken(program, before + 1) == taken(program, before) {
            assert(before < depth);
        } else {
            lemma_taken_grows(program, before);
            lemma_taken_grows(program, depth);
            let smaller = taken(program, before);
            let larger = taken(program, depth);
            assert(!(smaller =~= larger));
            let index = choose|index: int| smaller.contains(index) != larger.contains(index);
            smaller.lemma_subset_not_in_lt(larger, index);
        }
    }
}

/// A run that is lowered within some number of levels is lowered within as many levels as
/// the program has instructions.
pub proof fn lemma_enough_levels(
    program: Seq<InstructionView>,
    from_line: nat,
    index: int,
    state: LoweringState,
    depth: nat,
)
    requires
        lower_run(program, from_line, index, state, depth) is Some,
    ensures
        lower_run(program, from_line, index, state, program.len()) == lower_run(
            program,
            from_line,
            index,
            state,
            depth,
        ),
{
    let enough = program.len();
    if depth <= enough {
        lemma_deeper_is_the_same(program, from_line, index, state, depth, enough);
    } else {
        lemma_settles_or_counts(program, enough + 1);
        lemma_taken_grows(program, enough + 1);
        let level = choose|level: nat|
            level < enough + 1 && #[trigger] taken(program, level + 1) == taken(program, level);
        lemma_taken_stays_for_good(program, level, enough);
        lemma_taken_stays_for_good(program, level, depth);
        lemma_lowers_iff_completes(program, from_line, index, state, depth);
        lemma_lowers_iff_completes(program, from_line, index, state, enough);
        lemma_deeper_is_the_same(program, from_line, index, state, enough, depth);
    }
}

/// A program without a lowering has none within any number of levels: a cycle stays a
/// cycle.
pub proof fn lemma_cycle_at_every_depth(program: Seq<InstructionView>, depth: nat)
    requires
        lowered(program) is None,
    ensures
        lower_run(program, 0, 0, initial_state(), depth) is None,
{
    if lower_run(program, 0, 0, initial_state(), depth) is Some {
        lemma_enough_levels(program, 0, 0, initial_state(), depth);
    }
}

} // verus!
