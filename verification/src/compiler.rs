//! Lowering of instructions to operations of a code generator.
//!
//! The result is a flat list of operations for a backend that has blocks, mutable cells and
//! jumps. Cell 0 is the accumulator. Every other cell belongs to a location and is declared,
//! and seeded, where lowering first meets the location. Blocks are numbered in the order in
//! which they are created, and block 0 is the entry.
//!
//! A branch is lowered by lowering once more, behind the jump, every instruction from the
//! line it goes to: a line reached on several paths is lowered once per path, and no block is
//! shared between paths. So a program whose branches lead back into themselves has no finite
//! lowering. Each branch within a branch nests the descent one level deeper, and a descent
//! that stays finite never nests deeper than the program has instructions (`descent` holds
//! the proof). `compile` allows that many levels and reports a cycle where they do not
//! suffice.

use crate::parser::{ascending, views, Instruction, InstructionView, Opcode, Operand};
use crate::shape::{lemma_lowered_is_well_formed, well_formed};
use std::collections::HashMap;
use vstd::prelude::*;

verus! {

broadcast use vstd::std_specs::hash::group_hash_axioms;

/// The cell of the accumulator.
pub const ACCUMULATOR: usize = 0;

#[derive(Clone, Copy, Debug, PartialEq, Eq, Structural)]
pub enum Arithmetic {
    Add,
    Subtract,
    Multiply,
    Divide,
}

/// A test of the accumulator against zero.
#[derive(Clone, Copy, Debug, PartialEq, Eq, Structural)]
pub enum Condition {
    Positive,
    Negative,
    Zero,
}

/// One operation of the backend.
#[derive(Clone, Copy, Debug, PartialEq, Eq, Structural)]
pub enum Op {
    /// Create the block with this number.
    CreateBlock { block: usize },
    /// Emit what follows into this block.
    SwitchTo { block: usize },
    /// Declare that no further jump will lead to this block.
    Seal { block: usize },
    Jump { block: usize },
    /// Go to `then_block` if the accumulator meets the condition, else to `else_block`.
    Branch { condition: Condition, then_block: usize, else_block: usize },
    /// Declare this cell and seed it with a random number from the runtime.
    Declare { cell: usize },
    /// Call the runtime's initialization hook.
    Initialize,
    Copy { from: usize, to: usize },
    /// Put into the accumulator the value of the instruction at this index of the program.
    Constant { instruction: usize },
    /// Add to the accumulator the value of the instruction at this index of the program.
    AddConstant { instruction: usize },
    /// Ask the runtime for a number and put it into this cell.
    Input { cell: usize },
    /// Hand the accumulator to the runtime's output.
    Output,
    /// Replace the accumulator by the result of the operation on it and this cell.
    Arithmetic { operation: Arithmetic, cell: usize },
    /// Return from the program with the code for success.
    Return,
}

#[derive(Clone, Copy, Debug, PartialEq, Eq, Structural)]
pub enum CompileError {
    /// A branch leads back into the run of instructions that is being lowered for it.
    BranchCycle,
}

/// What lowering keeps from one instruction to the next.
pub struct LoweringState {
    /// The cell of each location met so far.
    pub cells: Map<u32, usize>,
    /// The number of cells declared so far.
    pub next_cell: nat,
    /// The number of blocks created so far.
    pub next_block: nat,
}

/// The operations of a run of instructions, and the state behind it.
pub struct Run {
    pub ops: Seq<Op>,
    pub state: LoweringState,
}

/// The state behind a reference to `location`.
pub open spec fn referenced(state: LoweringState, location: u32) -> LoweringState {
    if state.cells.contains_key(location) {
        state
    } else {
        LoweringState {
            cells: state.cells.insert(location, state.next_cell as usize),
            next_cell: state.next_cell + 1,
            next_block: state.next_block,
        }
    }
}

/// What a reference to `location` emits: the declaration of its cell, if this is the first.
pub open spec fn materialize(state: LoweringState, location: u32) -> Seq<Op> {
    if state.cells.contains_key(location) {
        Seq::empty()
    } else {
        seq![Op::Declare { cell: state.next_cell as usize }]
    }
}

/// The cell of `location` once it is referenced.
pub open spec fn cell_of(state: LoweringState, location: u32) -> usize {
    referenced(state, location).cells[location]
}

/// The state after `count` more blocks are created.
pub open spec fn with_blocks(state: LoweringState, count: nat) -> LoweringState {
    LoweringState {
        cells: state.cells,
        next_cell: state.next_cell,
        next_block: state.next_block + count,
    }
}

/// The location that an instruction names, or 0 if it names none.
pub open spec fn location_operand(i: InstructionView) -> u32 {
    match i.operand {
        Operand::Location(location) => location,
        _ => 0,
    }
}

pub open spec fn is_branch(op: Opcode) -> bool {
    op == Opcode::BRU || op == Opcode::BPA || op == Opcode::BNA || op == Opcode::BZA
}

/// The test of a conditional branch.
pub open spec fn condition_of(op: Opcode) -> Condition {
    match op {
        Opcode::BPA => Condition::Positive,
        Opcode::BNA => Condition::Negative,
        _ => Condition::Zero,
    }
}

/// The operations of an instruction that neither branches nor stops, where `index` is its
/// place in the program.
pub open spec fn straight_ops(i: InstructionView, index: int, state: LoweringState) -> Seq<Op> {
    let location = location_operand(i);
    let cell = cell_of(state, location);
    match i.opcode {
        Opcode::LDA => materialize(state, location).push(Op::Copy { from: cell, to: ACCUMULATOR }),
        Opcode::STA => materialize(state, location).push(Op::Copy { from: ACCUMULATOR, to: cell }),
        Opcode::INP => materialize(state, location).push(Op::Input { cell }),
        Opcode::OUT => materialize(state, location).push(
            Op::Copy { from: cell, to: ACCUMULATOR },
        ).push(Op::Output),
        Opcode::LDC => seq![Op::Constant { instruction: index as usize }],
        Opcode::ADC => seq![Op::AddConstant { instruction: index as usize }],
        Opcode::ADD => materialize(state, location).push(
            Op::Arithmetic { operation: Arithmetic::Add, cell },
        ),
        Opcode::SUB => materialize(state, location).push(
            Op::Arithmetic { operation: Arithmetic::Subtract, cell },
        ),
        Opcode::MUL => materialize(state, location).push(
            Op::Arithmetic { operation: Arithmetic::Multiply, cell },
        ),
        Opcode::DIV => materialize(state, location).push(
            Op::Arithmetic { operation: Arithmetic::Divide, cell },
        ),
        _ => Seq::empty(),
    }
}

/// The state behind an instruction that neither branches nor stops.
pub open spec fn straight_state(i: InstructionView, state: LoweringState) -> LoweringState {
    match i.opcode {
        Opcode::LDC => state,
        Opcode::ADC => state,
        _ => referenced(state, location_operand(i)),
    }
}

/// What `BRU` emits before the run it goes to: a new block, entered by a jump.
pub open spec fn jump_ops(block: nat) -> Seq<Op> {
    let block = block as usize;
    seq![
        Op::CreateBlock { block },
        Op::Jump { block },
        Op::SwitchTo { block },
        Op::Seal { block },
    ]
}

/// What a conditional branch emits before the run it goes to: three new blocks, the first
/// for that run, the second for the other case and the third for what follows the branch.
pub open spec fn branch_head(condition: Condition, block: nat) -> Seq<Op> {
    let then_block = block as usize;
    let else_block = (block + 1) as usize;
    let merge_block = (block + 2) as usize;
    seq![
        Op::CreateBlock { block: then_block },
        Op::CreateBlock { block: else_block },
        Op::CreateBlock { block: merge_block },
        Op::Branch { condition, then_block, else_block },
        Op::SwitchTo { block: then_block },
        Op::Seal { block: then_block },
    ]
}

/// What a conditional branch emits behind the run it goes to: the other case jumps to the
/// block in which the next instruction is lowered.
pub open spec fn branch_tail(block: nat) -> Seq<Op> {
    let else_block = (block + 1) as usize;
    let merge_block = (block + 2) as usize;
    seq![
        Op::SwitchTo { block: else_block },
        Op::Seal { block: else_block },
        Op::Jump { block: merge_block },
        Op::SwitchTo { block: merge_block },
        Op::Seal { block: merge_block },
    ]
}

pub open spec fn prepend(ops: Seq<Op>, run: Option<Run>) -> Option<Run> {
    match run {
        Some(run) => Some(Run { ops: ops + run.ops, state: run.state }),
        None => None,
    }
}

/// The run that begins at the instruction `index` and takes in every later instruction whose
/// line is `from_line` or greater, up to the first `STP` or `BRU`. `depth` is the number of
/// levels that branches may still nest; the result is `None` where they do not suffice.
pub open spec fn lower_run(
    program: Seq<InstructionView>,
    from_line: nat,
    index: int,
    state: LoweringState,
    depth: nat,
) -> Option<Run>
    decreases depth, program.len() - index,
{
    if index < 0 || index >= program.len() {
        Some(Run { ops: Seq::empty(), state })
    } else if program[index].lineno < from_line {
        lower_run(program, from_line, index + 1, state, depth)
    } else {
        let i = program[index];
        let target = location_operand(i) as nat;
        if i.opcode == Opcode::STP {
            Some(Run { ops: seq![Op::Return], state })
        } else if i.opcode == Opcode::BRU {
            if depth == 0 {
                None
            } else {
                prepend(
                    jump_ops(state.next_block),
                    lower_run(program, target, 0, with_blocks(state, 1), (depth - 1) as nat),
                )
            }
        } else if is_branch(i.opcode) {
            if depth == 0 {
                None
            } else {
                match lower_run(program, target, 0, with_blocks(state, 3), (depth - 1) as nat) {
                    None => None,
                    Some(then_run) => prepend(
                        branch_head(condition_of(i.opcode), state.next_block) + then_run.ops
                            + branch_tail(state.next_block),
                        lower_run(program, from_line, index + 1, then_run.state, depth),
                    ),
                }
            }
        } else {
            prepend(
                straight_ops(i, index, state),
                lower_run(program, from_line, index + 1, straight_state(i, state), depth),
            )
        }
    }
}

/// The state in which the first instruction is lowered: the accumulator is declared and the
/// entry block created.
pub open spec fn initial_state() -> LoweringState {
    LoweringState { cells: Map::empty(), next_cell: 1, next_block: 1 }
}

/// What every program begins with: the entry block, the accumulator with its seed, and the
/// call of the initialization hook.
pub open spec fn prologue() -> Seq<Op> {
    seq![
        Op::CreateBlock { block: 0 },
        Op::SwitchTo { block: 0 },
        Op::Seal { block: 0 },
        Op::Declare { cell: ACCUMULATOR },
        Op::Initialize,
    ]
}

/// The operations of a program, or `None` if its branches form a cycle.
pub open spec fn lowered(program: Seq<InstructionView>) -> Option<Seq<Op>> {
    match lower_run(program, 0, 0, initial_state(), program.len()) {
        Some(run) => Some(prologue() + run.ops),
        None => None,
    }
}

pub proof fn lemma_prepend_twice(first: Seq<Op>, second: Seq<Op>, run: Option<Run>)
    ensures
        prepend(first, prepend(second, run)) == prepend(first + second, run),
{
    match run {
        Some(r) => {
            assert(first + (second + r.ops) =~= (first + second) + r.ops);
        },
        None => {},
    }
}

/// The cells, the counters and the operations emitted so far.
struct Lowering {
    cells: HashMap<u32, usize>,
    next_cell: usize,
    next_block: usize,
    ops: Vec<Op>,
}

impl Lowering {
    spec fn state(&self) -> LoweringState {
        LoweringState {
            cells: self.cells@,
            next_cell: self.next_cell as nat,
            next_block: self.next_block as nat,
        }
    }

    /// Every cell and every block was announced by an operation of its own.
    spec fn counted(&self) -> bool {
        self.next_cell <= self.ops@.len() && self.next_block <= self.ops@.len()
    }

    fn emit(&mut self, op: Op)
        requires
            old(self).counted(),
        ensures
            final(self).ops@ == old(self).ops@.push(op),
            final(self).state() == old(self).state(),
            final(self).counted(),
            final(self).ops@.len() <= usize::MAX,
    {
        self.ops.push(op);
        let _ = self.ops.len();
    }

    /// The cell of a location, declared first if the location is new.
    fn reference(&mut self, location: u32) -> (cell: usize)
        requires
            old(self).counted(),
        ensures
            cell == cell_of(old(self).state(), location),
            final(self).ops@ == old(self).ops@ + materialize(old(self).state(), location),
            final(self).state() == referenced(old(self).state(), location),
            final(self).counted(),
    {
        match self.cells.get(&location) {
            Some(cell) => {
                assert(self.ops@ =~= old(self).ops@ + Seq::<Op>::empty());
                *cell
            },
            None => {
                let cell = self.next_cell;
                self.emit(Op::Declare { cell });
                self.cells.insert(location, cell);
                self.next_cell = cell + 1;
                assert(self.ops@ =~= old(self).ops@ + seq![Op::Declare { cell }]);
                cell
            },
        }
    }

    /// Creates the next block and returns its number.
    fn create_block(&mut self) -> (block: usize)
        requires
            old(self).counted(),
        ensures
            block == old(self).next_block,
            final(self).ops@ == old(self).ops@.push(Op::CreateBlock { block }),
            final(self).state() == with_blocks(old(self).state(), 1),
            final(self).counted(),
    {
        let block = self.next_block;
        self.emit(Op::CreateBlock { block });
        self.next_block = block + 1;
        block
    }
}

fn location_of(instruction: &Instruction) -> (r: u32)
    ensures
        r == location_operand(instruction@),
{
    match instruction.location() {
        Some(location) => location,
        None => 0,
    }
}

/// Lowers one instruction that neither branches nor stops.
fn lower_straight(instruction: &Instruction, index: usize, lowering: &mut Lowering)
    requires
        old(lowering).counted(),
        !is_branch(instruction@.opcode),
        instruction@.opcode != Opcode::STP,
    ensures
        final(lowering).ops@ == old(lowering).ops@ + straight_ops(
            instruction@,
            index as int,
            old(lowering).state(),
        ),
        final(lowering).state() == straight_state(instruction@, old(lowering).state()),
        final(lowering).counted(),
{
    let ghost before = lowering.ops@;
    let ghost declared = materialize(lowering.state(), location_operand(instruction@));
    match instruction.kind() {
        Opcode::LDC => {
            lowering.emit(Op::Constant { instruction: index });
            assert(lowering.ops@ =~= before + seq![Op::Constant { instruction: index }]);
        },
        Opcode::ADC => {
            lowering.emit(Op::AddConstant { instruction: index });
            assert(lowering.ops@ =~= before + seq![Op::AddConstant { instruction: index }]);
        },
        Opcode::LDA => {
            let cell = lowering.reference(location_of(instruction));
            let op = Op::Copy { from: cell, to: ACCUMULATOR };
            lowering.emit(op);
            assert(lowering.ops@ =~= before + declared.push(op));
        },
        Opcode::STA => {
            let cell = lowering.reference(location_of(instruction));
            let op = Op::Copy { from: ACCUMULATOR, to: cell };
            lowering.emit(op);
            assert(lowering.ops@ =~= before + declared.push(op));
        },
        Opcode::INP => {
            let cell = lowering.reference(location_of(instruction));
            let op = Op::Input { cell };
            lowering.emit(op);
            assert(lowering.ops@ =~= before + declared.push(op));
        },
        Opcode::OUT => {
            let cell = lowering.reference(location_of(instruction));
            let op = Op::Copy { from: cell, to: ACCUMULATOR };
            lowering.emit(op);
            lowering.emit(Op::Output);
            assert(lowering.ops@ =~= before + declared.push(op).push(Op::Output));
        },
        Opcode::ADD => {
            let cell = lowering.reference(location_of(instruction));
            let op = Op::Arithmetic { operation: Arithmetic::Add, cell };
            lowering.emit(op);
            assert(lowering.ops@ =~= before + declared.push(op));
        },
        Opcode::SUB => {
            let cell = lowering.reference(location_of(instruction));
            let op = Op::Arithmetic { operation: Arithmetic::Subtract, cell };
            lowering.emit(op);
            assert(lowering.ops@ =~= before + declared.push(op));
        },
        Opcode::MUL => {
            let cell = lowering.reference(location_of(instruction));
            let op = Op::Arithmetic { operation: Arithmetic::Multiply, cell };
            lowering.emit(op);
            assert(lowering.ops@ =~= before + declared.push(op));
        },
        _ => {
            let cell = lowering.reference(location_of(instruction));
            let op = Op::Arithmetic { operation: Arithmetic::Divide, cell };
            lowering.emit(op);
            assert(lowering.ops@ =~= before + declared.push(op));
        },
    }
}

/// Emits what `BRU` emits before the run it goes to.
fn lower_jump(lowering: &mut Lowering)
    requires
        old(lowering).counted(),
    ensures
        final(lowering).ops@ == old(lowering).ops@ + jump_ops(old(lowering).state().next_block),
        final(lowering).state() == with_blocks(old(lowering).state(), 1),
        final(lowering).counted(),
{
    let block = lowering.create_block();
    lowering.emit(Op::Jump { block });
    lowering.emit(Op::SwitchTo { block });
    lowering.emit(Op::Seal { block });
    assert(lowering.ops@ =~= old(lowering).ops@ + jump_ops(old(lowering).state().next_block));
}

/// Emits what a conditional branch emits before the run it goes to, and returns the number
/// of the first of its three blocks.
fn lower_branch_head(condition: Condition, lowering: &mut Lowering) -> (block: usize)
    requires
        old(lowering).counted(),
    ensures
        block == old(lowering).state().next_block,
        block + 2 <= usize::MAX,
        final(lowering).ops@ == old(lowering).ops@ + branch_head(
            condition,
            old(lowering).state().next_block,
        ),
        final(lowering).state() == with_blocks(old(lowering).state(), 3),
        final(lowering).counted(),
{
    let then_block = lowering.create_block();
    let else_block = lowering.create_block();
    let _ = lowering.create_block();
    lowering.emit(Op::Branch { condition, then_block, else_block });
    lowering.emit(Op::SwitchTo { block: then_block });
    lowering.emit(Op::Seal { block: then_block });
    assert(lowering.ops@ =~= old(lowering).ops@ + branch_head(
        condition,
        old(lowering).state().next_block,
    ));
    then_block
}

/// Emits what a conditional branch emits behind the run it goes to.
fn lower_branch_tail(block: usize, lowering: &mut Lowering)
    requires
        old(lowering).counted(),
        block + 2 <= usize::MAX,
    ensures
        final(lowering).ops@ == old(lowering).ops@ + branch_tail(block as nat),
        final(lowering).state() == old(lowering).state(),
        final(lowering).counted(),
{
    let else_block = block + 1;
    let merge_block = block + 2;
    lowering.emit(Op::SwitchTo { block: else_block });
    lowering.emit(Op::Seal { block: else_block });
    lowering.emit(Op::Jump { block: merge_block });
    lowering.emit(Op::SwitchTo { block: merge_block });
    lowering.emit(Op::Seal { block: merge_block });
    assert(lowering.ops@ =~= old(lowering).ops@ + branch_tail(block as nat));
}

fn condition(op: Opcode) -> (r: Condition)
    ensures
        r == condition_of(op),
{
    match op {
        Opcode::BPA => Condition::Positive,
        Opcode::BNA => Condition::Negative,
        _ => Condition::Zero,
    }
}

/// Lowers the run of the instructions whose line is `from_line` or greater. Returns whether
/// `depth` levels sufficed.
fn lower_from(program: &Vec<Instruction>, from_line: usize, lowering: &mut Lowering, depth: usize) -> (ok:
    bool)
    requires
        old(lowering).counted(),
    ensures
        match lower_run(views(program@), from_line as nat, 0, old(lowering).state(), depth as nat) {
            Some(run) => {
                &&& ok
                &&& final(lowering).ops@ == old(lowering).ops@ + run.ops
                &&& final(lowering).state() == run.state
                &&& final(lowering).counted()
            },
            None => !ok,
        },
    decreases depth,
{
    let ghost all = views(program@);
    let ghost whole = lower_run(all, from_line as nat, 0, lowering.state(), depth as nat);
    let ghost before = lowering.ops@;
    let ghost emitted = Seq::<Op>::empty();
    let mut index: usize = 0;
    proof {
        assert(lowering.ops@ =~= before + emitted);
        match lower_run(all, from_line as nat, 0, lowering.state(), depth as nat) {
            Some(r) => {
                assert(emitted + r.ops =~= r.ops);
            },
            None => {},
        }
    }
    while index < program.len()
        invariant
            index <= program@.len(),
            all == views(program@),
            before == old(lowering).ops@,
            whole == lower_run(all, from_line as nat, 0, old(lowering).state(), depth as nat),
            lowering.counted(),
            lowering.ops@ == before + emitted,
            whole == prepend(
                emitted,
                lower_run(all, from_line as nat, index as int, lowering.state(), depth as nat),
            ),
        decreases program@.len() - index,
    {
        let instruction = &program[index];
        let ghost view = all[index as int];
        assert(view == instruction@);
        let ghost state = lowering.state();
        let ghost rest = lower_run(all, from_line as nat, index as int, state, depth as nat);
        if instruction.lineno() >= from_line {
            let kind = instruction.kind();
            match kind {
                Opcode::STP => {
                    lowering.emit(Op::Return);
                    proof {
                        assert(lowering.ops@ =~= before + (emitted + seq![Op::Return]));
                    }
                    return true;
                },
                Opcode::BRU => {
                    if depth == 0 {
                        return false;
                    }
                    lower_jump(lowering);
                    let ghost head = jump_ops(state.next_block);
                    let ghost inner = lower_run(
                        all,
                        location_operand(view) as nat,
                        0,
                        lowering.state(),
                        (depth - 1) as nat,
                    );
                    let ghost middle = lowering.ops@;
                    let ok = lower_from(
                        program,
                        location_of(instruction) as usize,
                        lowering,
                        depth - 1,
                    );
                    proof {
                        assert(rest == prepend(head, inner));
                        lemma_prepend_twice(emitted, head, inner);
                        if ok {
                            assert(lowering.ops@ =~= before + ((emitted + head)
                                + inner.unwrap().ops));
                        }
                    }
                    return ok;
                },
                Opcode::BPA | Opcode::BNA | Opcode::BZA => {
                    if depth == 0 {
                        return false;
                    }
                    let ghost head = branch_head(condition_of(kind), state.next_block);
                    let ghost tail = branch_tail(state.next_block);
                    let block = lower_branch_head(condition(kind), lowering);
                    let ghost inner = lower_run(
                        all,
                        location_operand(view) as nat,
                        0,
                        lowering.state(),
                        (depth - 1) as nat,
                    );
                    let ok = lower_from(
                        program,
                        location_of(instruction) as usize,
                        lowering,
                        depth - 1,
                    );
                    if !ok {
                        return false;
                    }
                    lower_branch_tail(block, lowering);
                    proof {
                        let then_run = inner.unwrap();
                        let after = lower_run(
                            all,
                            from_line as nat,
                            index + 1,
                            then_run.state,
                            depth as nat,
                        );
                        assert(rest == prepend(head + then_run.ops + tail, after));
                        lemma_prepend_twice(emitted, head + then_run.ops + tail, after);
                        assert(lowering.ops@ =~= before + (emitted + (head + then_run.ops
                            + tail)));
                        emitted = emitted + (head + then_run.ops + tail);
                    }
                },
                _ => {
                    let ghost ops = straight_ops(view, index as int, state);
                    lower_straight(instruction, index, lowering);
                    proof {
                        let after = lower_run(
                            all,
                            from_line as nat,
                            index + 1,
                            straight_state(view, state),
                            depth as nat,
                        );
                        assert(rest == prepend(ops, after));
                        lemma_prepend_twice(emitted, ops, after);
                        assert(lowering.ops@ =~= before + (emitted + ops));
                        emitted = emitted + ops;
                    }
                },
            }
        }
        index = index + 1;
    }
    proof {
        assert(emitted + Seq::<Op>::empty() =~= emitted);
    }
    true
}

/// Lowers a program.
///
/// The operations are those of `lowered`: the prologue, then the run from the first
/// instruction. The result is `BranchCycle` where the descent through the branches would
/// nest deeper than the program has instructions, which is where it would never end. A
/// program whose branches all go forward is always lowered.
pub fn compile(instructions: &Vec<Instruction>) -> (r: Result<Vec<Op>, CompileError>)
    ensures
        match lowered(views(instructions@)) {
            Some(ops) => r matches Ok(v) && v@ == ops,
            None => r == Err::<Vec<Op>, CompileError>(CompileError::BranchCycle),
        },
        r matches Ok(v) ==> well_formed(v@, views(instructions@)),
{
    let mut lowering = Lowering {
        cells: HashMap::new(),
        next_cell: 0,
        next_block: 0,
        ops: Vec::new(),
    };
    let entry = lowering.create_block();
    lowering.emit(Op::SwitchTo { block: entry });
    lowering.emit(Op::Seal { block: entry });
    lowering.emit(Op::Declare { cell: ACCUMULATOR });
    lowering.next_cell = 1;
    lowering.emit(Op::Initialize);
    assert(lowering.ops@ =~= prologue());
    assert(lowering.state() == initial_state());
    assert(views(instructions@).len() == instructions@.len());
    let ok = lower_from(instructions, 0, &mut lowering, instructions.len());
    proof {
        if ok {
            lemma_lowered_is_well_formed(views(instructions@));
        }
    }
    if ok {
        Ok(lowering.ops)
    } else {
        Err(CompileError::BranchCycle)
    }
}

/// Every branch goes to a line behind its own.
pub open spec fn branches_forward(program: Seq<InstructionView>) -> bool {
    forall|i: int|
        0 <= i < program.len() && is_branch((#[trigger] program[i]).opcode) ==> location_operand(
            program[i],
        ) > program[i].lineno
}

/// More levels than a run needs do not change it.
pub proof fn lemma_deeper_is_the_same(
    program: Seq<InstructionView>,
    from_line: nat,
    index: int,
    state: LoweringState,
    depth: nat,
    deeper: nat,
)
    requires
        lower_run(program, from_line, index, state, depth) is Some,
        depth <= deeper,
    ensures
        lower_run(program, from_line, index, state, deeper) == lower_run(
            program,
            from_line,
            index,
            state,
            depth,
        ),
    decreases depth, program.len() - index,
{
    if index < 0 || index >= program.len() {
    } else if program[index].lineno < from_line {
        lemma_deeper_is_the_same(program, from_line, index + 1, state, depth, deeper);
    } else {
        let i = program[index];
        let target = location_operand(i) as nat;
        if i.opcode == Opcode::STP {
        } else if i.opcode == Opcode::BRU {
            lemma_deeper_is_the_same(
                program,
                target,
                0,
                with_blocks(state, 1),
                (depth - 1) as nat,
                (deeper - 1) as nat,
            );
        } else if is_branch(i.opcode) {
            lemma_deeper_is_the_same(
                program,
                target,
                0,
                with_blocks(state, 3),
                (depth - 1) as nat,
                (deeper - 1) as nat,
            );
            let then_run = lower_run(
                program,
                target,
                0,
                with_blocks(state, 3),
                (depth - 1) as nat,
            ).unwrap();
            lemma_deeper_is_the_same(
                program,
                from_line,
                index + 1,
                then_run.state,
                depth,
                deeper,
            );
        } else {
            lemma_deeper_is_the_same(
                program,
                from_line,
                index + 1,
                straight_state(i, state),
                depth,
                deeper,
            );
        }
    }
}

/// A run whose branches all go forward is lowered with as many levels as there are
/// instructions from `floor` on, where every instruction before `floor` stands on a line
/// before `from_line`.
proof fn lemma_forward_run(
    program: Seq<InstructionView>,
    from_line: nat,
    index: int,
    state: LoweringState,
    depth: nat,
    floor: int,
)
    requires
        ascending(program),
        branches_forward(program),
        0 <= floor <= program.len(),
        0 <= index <= program.len(),
        forall|k: int| 0 <= k < floor ==> (#[trigger] program[k]).lineno < from_line,
        depth >= program.len() - floor,
    ensures
        lower_run(program, from_line, index, state, depth) is Some,
    decreases depth, program.len() - index,
{
    if index >= program.len() {
    } else if program[index].lineno < from_line {
        lemma_forward_run(program, from_line, index + 1, state, depth, floor);
    } else {
        let i = program[index];
        let target = location_operand(i) as nat;
        if i.opcode == Opcode::STP {
        } else if is_branch(i.opcode) {
            assert(index >= floor);
            assert forall|k: int| 0 <= k < index + 1 implies (#[trigger] program[k]).lineno
                < target by {
                if k < index {
                    assert(program[k].lineno < program[index].lineno);
                }
            }
            let blocks: nat = if i.opcode == Opcode::BRU {
                1
            } else {
                3
            };
            lemma_forward_run(
                program,
                target,
                0,
                with_blocks(state, blocks),
                (depth - 1) as nat,
                index + 1,
            );
            if i.opcode != Opcode::BRU {
                let then_run = lower_run(
                    program,
                    target,
                    0,
                    with_blocks(state, 3),
                    (depth - 1) as nat,
                ).unwrap();
                lemma_forward_run(program, from_line, index + 1, then_run.state, depth, floor);
            }
        } else {
            lemma_forward_run(
                program,
                from_line,
                index + 1,
                straight_state(i, state),
                depth,
                floor,
            );
        }
    }
}

/// A program on ascending lines whose branches all go forward has a lowering.
pub proof fn lemma_forward_programs_lower(program: Seq<InstructionView>)
    requires
        ascending(program),
        branches_forward(program),
    ensures
        lowered(program) is Some,
{
    lemma_forward_run(program, 0, 0, initial_state(), program.len(), 0);
}

/// Lowering is a function of the program: two results for one program are the same.
pub proof fn lemma_compile_is_a_function(
    program: Seq<InstructionView>,
    first: Result<Vec<Op>, CompileError>,
    second: Result<Vec<Op>, CompileError>,
)
    requires
        match lowered(program) {
            Some(ops) => first matches Ok(v) && v@ == ops,
            None => first == Err::<Vec<Op>, CompileError>(CompileError::BranchCycle),
        },
        match lowered(program) {
            Some(ops) => second matches Ok(v) && v@ == ops,
            None => second == Err::<Vec<Op>, CompileError>(CompileError::BranchCycle),
        },
    ensures
        first is Ok <==> second is Ok,
        first matches Ok(a) ==> second matches Ok(b) && a@ == b@,
{
}

} // verus!
