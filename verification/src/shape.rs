//! The shape of a lowered program.
//!
//! Whoever hands the operations to a backend keeps a table of blocks and a table of cells,
//! and looks up in them what an operation names. This module proves that the look-ups never
//! miss: blocks and cells are numbered in the order in which the operations create and
//! declare them, and an operation names only what came before it. A constant names an
//! instruction of the program that holds a value.

use crate::compiler::{
    branch_head, branch_tail, cell_of, condition_of, initial_state, is_branch, jump_ops,
    location_operand, lower_run, lowered, materialize, prologue, referenced, straight_ops,
    straight_state, with_blocks, LoweringState, Op, ACCUMULATOR,
};
use crate::parser::{takes_value, InstructionView, Opcode};
use vstd::prelude::*;

verus! {

/// How many blocks and cells the operations read so far have made.
pub struct Made {
    pub blocks: nat,
    pub cells: nat,
}

/// The operation names only blocks and cells that were made, and makes the next one in
/// turn; a constant names a value instruction of the program.
pub open spec fn admits(op: Op, made: Made, program: Seq<InstructionView>) -> bool {
    match op {
        Op::CreateBlock { block } => block == made.blocks as usize,
        Op::SwitchTo { block } => block < made.blocks,
        Op::Seal { block } => block < made.blocks,
        Op::Jump { block } => block < made.blocks,
        Op::Branch { condition, then_block, else_block } => then_block < made.blocks && else_block
            < made.blocks && ACCUMULATOR < made.cells,
        Op::Declare { cell } => cell == made.cells as usize,
        Op::Initialize => true,
        Op::Copy { from, to } => from < made.cells && to < made.cells,
        Op::Constant { instruction } => instruction < program.len() && takes_value(
            program[instruction as int].opcode,
        ) && ACCUMULATOR < made.cells,
        Op::AddConstant { instruction } => instruction < program.len() && takes_value(
            program[instruction as int].opcode,
        ) && ACCUMULATOR < made.cells,
        Op::Input { cell } => cell < made.cells,
        Op::Output => ACCUMULATOR < made.cells,
        Op::Arithmetic { operation, cell } => cell < made.cells && ACCUMULATOR < made.cells,
        Op::Return => true,
    }
}

/// What is made once the operation is read.
pub open spec fn made_by(op: Op, made: Made) -> Made {
    match op {
        Op::CreateBlock { block } => Made { blocks: made.blocks + 1, cells: made.cells },
        Op::Declare { cell } => Made { blocks: made.blocks, cells: made.cells + 1 },
        _ => made,
    }
}

/// What is made once the operations are read.
pub open spec fn made_after(ops: Seq<Op>, made: Made) -> Made
    decreases ops.len(),
{
    if ops.len() == 0 {
        made
    } else {
        made_by(ops.last(), made_after(ops.drop_last(), made))
    }
}

/// Each operation is admitted by what the operations before it made.
pub open spec fn orderly(ops: Seq<Op>, made: Made, program: Seq<InstructionView>) -> bool
    decreases ops.len(),
{
    if ops.len() == 0 {
        true
    } else {
        orderly(ops.drop_last(), made, program) && admits(
            ops.last(),
            made_after(ops.drop_last(), made),
            program,
        )
    }
}

/// The operations of a whole program are in order: nothing is made before them.
pub open spec fn well_formed(ops: Seq<Op>, program: Seq<InstructionView>) -> bool {
    orderly(ops, Made { blocks: 0, cells: 0 }, program)
}

/// The state of the lowering agrees with what was made.
pub open spec fn agrees(state: LoweringState, made: Made) -> bool {
    &&& state.next_block == made.blocks
    &&& state.next_cell == made.cells
    &&& ACCUMULATOR < made.cells
    &&& forall|location: u32| #[trigger]
        state.cells.contains_key(location) ==> state.cells[location] < made.cells
}

pub proof fn lemma_orderly_push(
    ops: Seq<Op>,
    op: Op,
    made: Made,
    program: Seq<InstructionView>,
)
    ensures
        orderly(ops.push(op), made, program) == (orderly(ops, made, program) && admits(
            op,
            made_after(ops, made),
            program,
        )),
        made_after(ops.push(op), made) == made_by(op, made_after(ops, made)),
{
    assert(ops.push(op).drop_last() =~= ops);
}

/// Operations in order, followed by operations in order from what the first made, are in
/// order.
pub proof fn lemma_orderly_concat(
    first: Seq<Op>,
    second: Seq<Op>,
    made: Made,
    program: Seq<InstructionView>,
)
    ensures
        orderly(first + second, made, program) == (orderly(first, made, program) && orderly(
            second,
            made_after(first, made),
            program,
        )),
        made_after(first + second, made) == made_after(second, made_after(first, made)),
    decreases second.len(),
{
    if second.len() == 0 {
        assert(first + second =~= first);
    } else {
        lemma_orderly_concat(first, second.drop_last(), made, program);
        assert((first + second).drop_last() =~= first + second.drop_last());
        assert((first + second).last() == second.last());
    }
}

/// A reference to a location is in order, and the state agrees with what it made.
pub proof fn lemma_reference(
    state: LoweringState,
    location: u32,
    made: Made,
    program: Seq<InstructionView>,
)
    requires
        agrees(state, made),
    ensures
        orderly(materialize(state, location), made, program),
        agrees(referenced(state, location), made_after(materialize(state, location), made)),
        cell_of(state, location) < made_after(materialize(state, location), made).cells,
{
    let ops = materialize(state, location);
    if state.cells.contains_key(location) {
    } else {
        let op = Op::Declare { cell: state.next_cell as usize };
        lemma_orderly_push(Seq::empty(), op, made, program);
        assert(ops =~= Seq::<Op>::empty().push(op));
        let after = referenced(state, location);
        assert forall|other: u32| #[trigger] after.cells.contains_key(other) implies after.cells[other]
            < made.cells + 1 by {
            if other != location {
                assert(state.cells.contains_key(other));
            }
        }
    }
}

/// The operations of an instruction that neither branches nor stops are in order.
pub proof fn lemma_straight(
    program: Seq<InstructionView>,
    index: int,
    state: LoweringState,
    made: Made,
)
    requires
        0 <= index < program.len() <= usize::MAX,
        !is_branch(program[index].opcode),
        program[index].opcode != Opcode::STP,
        agrees(state, made),
    ensures
        orderly(straight_ops(program[index], index, state), made, program),
        agrees(
            straight_state(program[index], state),
            made_after(straight_ops(program[index], index, state), made),
        ),
        made_after(straight_ops(program[index], index, state), made).cells <= made.cells + 1,
        made_after(straight_ops(program[index], index, state), made).blocks == made.blocks,
{
    let i = program[index];
    let location = location_operand(i);
    let declared = materialize(state, location);
    let cell = cell_of(state, location);
    let ops = straight_ops(i, index, state);
    if takes_value(i.opcode) {
        let op = if i.opcode == Opcode::LDC {
            Op::Constant { instruction: index as usize }
        } else {
            Op::AddConstant { instruction: index as usize }
        };
        lemma_orderly_push(Seq::empty(), op, made, program);
        assert(ops =~= Seq::<Op>::empty().push(op));
    } else {
        lemma_reference(state, location, made, program);
        if i.opcode == Opcode::OUT {
            let copy = Op::Copy { from: cell, to: ACCUMULATOR };
            lemma_orderly_push(declared, copy, made, program);
            lemma_orderly_push(declared.push(copy), Op::Output, made, program);
        } else {
            lemma_orderly_push(declared, ops.last(), made, program);
            assert(ops =~= declared.push(ops.last()));
        }
    }
}

/// What a branch emits around the run it goes to is in order.
pub proof fn lemma_frames(state: LoweringState, made: Made, program: Seq<InstructionView>, op: Opcode)
    requires
        agrees(state, made),
    ensures
        orderly(jump_ops(state.next_block), made, program),
        made_after(jump_ops(state.next_block), made) == (Made {
            blocks: made.blocks + 1,
            cells: made.cells,
        }),
        orderly(branch_head(condition_of(op), state.next_block), made, program),
        made_after(branch_head(condition_of(op), state.next_block), made) == (Made {
            blocks: made.blocks + 3,
            cells: made.cells,
        }),
        forall|later: Made|
            later.blocks >= made.blocks + 3 ==> orderly(
                branch_tail(state.next_block),
                later,
                program,
            ) && #[trigger] made_after(branch_tail(state.next_block), later) == later,
{
    reveal_with_fuel(orderly, 8);
    reveal_with_fuel(made_after, 8);
    let jump = jump_ops(state.next_block);
    assert(jump.drop_last() =~= jump.subrange(0, 3));
    assert(jump.subrange(0, 3).drop_last() =~= jump.subrange(0, 2));
    assert(jump.subrange(0, 2).drop_last() =~= jump.subrange(0, 1));
    assert(jump.subrange(0, 1).drop_last() =~= Seq::<Op>::empty());
    let head = branch_head(condition_of(op), state.next_block);
    assert(head.drop_last() =~= head.subrange(0, 5));
    assert(head.subrange(0, 5).drop_last() =~= head.subrange(0, 4));
    assert(head.subrange(0, 4).drop_last() =~= head.subrange(0, 3));
    assert(head.subrange(0, 3).drop_last() =~= head.subrange(0, 2));
    assert(head.subrange(0, 2).drop_last() =~= head.subrange(0, 1));
    assert(head.subrange(0, 1).drop_last() =~= Seq::<Op>::empty());
    let tail = branch_tail(state.next_block);
    assert(tail.drop_last() =~= tail.subrange(0, 4));
    assert(tail.subrange(0, 4).drop_last() =~= tail.subrange(0, 3));
    assert(tail.subrange(0, 3).drop_last() =~= tail.subrange(0, 2));
    assert(tail.subrange(0, 2).drop_last() =~= tail.subrange(0, 1));
    assert(tail.subrange(0, 1).drop_last() =~= Seq::<Op>::empty());
}

/// The operations of a run are in order from what was made before it, and the state behind
/// the run agrees with what is made behind it.
pub proof fn lemma_run(
    program: Seq<InstructionView>,
    from_line: nat,
    index: int,
    state: LoweringState,
    depth: nat,
    made: Made,
)
    requires
        program.len() <= usize::MAX,
        0 <= index,
        agrees(state, made),
        lower_run(program, from_line, index, state, depth) is Some,
    ensures
        orderly(lower_run(program, from_line, index, state, depth).unwrap().ops, made, program),
        agrees(
            lower_run(program, from_line, index, state, depth).unwrap().state,
            made_after(
                lower_run(program, from_line, index, state, depth).unwrap().ops,
                made,
            ),
        ),
    decreases depth, program.len() - index,
{
    let run = lower_run(program, from_line, index, state, depth).unwrap();
    if index >= program.len() {
    } else if program[index].lineno < from_line {
        lemma_run(program, from_line, index + 1, state, depth, made);
    } else {
        let i = program[index];
        let target = location_operand(i) as nat;
        if i.opcode == Opcode::STP {
            lemma_orderly_push(Seq::empty(), Op::Return, made, program);
            assert(run.ops =~= Seq::<Op>::empty().push(Op::Return));
        } else if i.opcode == Opcode::BRU {
            lemma_frames(state, made, program, i.opcode);
            let head = jump_ops(state.next_block);
            let inner = lower_run(
                program,
                target,
                0,
                with_blocks(state, 1),
                (depth - 1) as nat,
            ).unwrap();
            lemma_run(
                program,
                target,
                0,
                with_blocks(state, 1),
                (depth - 1) as nat,
                made_after(head, made),
            );
            lemma_orderly_concat(head, inner.ops, made, program);
        } else if is_branch(i.opcode) {
            lemma_frames(state, made, program, i.opcode);
            let head = branch_head(condition_of(i.opcode), state.next_block);
            let tail = branch_tail(state.next_block);
            let then_run = lower_run(
                program,
                target,
                0,
                with_blocks(state, 3),
                (depth - 1) as nat,
            ).unwrap();
            let entered = made_after(head, made);
            lemma_run(program, target, 0, with_blocks(state, 3), (depth - 1) as nat, entered);
            lemma_made_grows(then_run.ops, entered);
            let left = made_after(then_run.ops, entered);
            assert(made_after(tail, left) == left);
            let rest = lower_run(program, from_line, index + 1, then_run.state, depth).unwrap();
            lemma_run(program, from_line, index + 1, then_run.state, depth, left);
            lemma_orderly_concat(head, then_run.ops, made, program);
            lemma_orderly_concat(head + then_run.ops, tail, made, program);
            lemma_orderly_concat(head + then_run.ops + tail, rest.ops, made, program);
        } else {
            lemma_straight(program, index, state, made);
            let ops = straight_ops(i, index, state);
            let rest = lower_run(
                program,
                from_line,
                index + 1,
                straight_state(i, state),
                depth,
            ).unwrap();
            lemma_run(
                program,
                from_line,
                index + 1,
                straight_state(i, state),
                depth,
                made_after(ops, made),
            );
            lemma_orderly_concat(ops, rest.ops, made, program);
        }
    }
}

/// Operations take nothing back that was made.
pub proof fn lemma_made_grows(ops: Seq<Op>, made: Made)
    ensures
        made_after(ops, made).blocks >= made.blocks,
        made_after(ops, made).cells >= made.cells,
        made_after(ops, made).blocks + made_after(ops, made).cells <= made.blocks + made.cells
            + ops.len(),
    decreases ops.len(),
{
    if ops.len() > 0 {
        lemma_made_grows(ops.drop_last(), made);
    }
}

/// The operations of a program are well formed: blocks and cells are numbered in the order
/// in which they are made, nothing is named before it is made, and every constant names a
/// value instruction of the program. No more blocks and cells are made than there are
/// operations.
pub proof fn lemma_lowered_is_well_formed(program: Seq<InstructionView>)
    requires
        program.len() <= usize::MAX,
        lowered(program) is Some,
    ensures
        well_formed(lowered(program).unwrap(), program),
        made_after(lowered(program).unwrap(), Made { blocks: 0, cells: 0 }).blocks <= lowered(
            program,
        ).unwrap().len(),
        made_after(lowered(program).unwrap(), Made { blocks: 0, cells: 0 }).cells <= lowered(
            program,
        ).unwrap().len(),
{
    let nothing = Made { blocks: 0, cells: 0 };
    let begun = Made { blocks: 1, cells: 1 };
    let run = lower_run(program, 0, 0, initial_state(), program.len()).unwrap();
    let first = prologue();
    reveal_with_fuel(orderly, 8);
    reveal_with_fuel(made_after, 8);
    assert(first.drop_last() =~= first.subrange(0, 4));
    assert(first.subrange(0, 4).drop_last() =~= first.subrange(0, 3));
    assert(first.subrange(0, 3).drop_last() =~= first.subrange(0, 2));
    assert(first.subrange(0, 2).drop_last() =~= first.subrange(0, 1));
    assert(first.subrange(0, 1).drop_last() =~= Seq::<Op>::empty());
    assert(orderly(first, nothing, program));
    assert(made_after(first, nothing) == begun);
    lemma_run(program, 0, 0, initial_state(), program.len(), begun);
    lemma_orderly_concat(first, run.ops, nothing, program);
    lemma_made_grows(first + run.ops, nothing);
}

} // verus!
