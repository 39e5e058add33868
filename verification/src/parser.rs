//! The instruction parser.
//!
//! A source holds one instruction per line: a mnemonic and at most one operand, separated by
//! white space. Empty lines and lines that begin with `#` are passed over. Every other line
//! gives an instruction, or diagnostics, or both; a fault in one line never touches another.
//! A source without `STP` gets one more diagnostic, at its end.
//!
//! What `parse` returns is stated by `parsed_instructions` and `parsed_diagnostics`, two
//! functions of the source's bytes.

use crate::literal::{
    check_value_literal, is_value_literal, lemma_value_literal_is_ascii, location_of,
    parse_location,
};
use crate::text::{
    find_line_end, find_token_end, find_token_start, lemma_boundary_beside_ascii,
    lemma_line_end_bounds, lemma_skip_blanks_bounds, lemma_token_end_bounds, line_end,
    is_blank, skip_blanks, slice_text, token_end, HASH, LINE_FEED,
};
use vstd::prelude::*;
use vstd::slice::slice_subrange;
use vstd::string::StringSliceAdditionalSpecFns;
use vstd::utf8::{encode_utf8, encode_utf8_valid_utf8};

verus! {

/// The fifteen operations of the machine.
#[derive(Clone, Copy, Debug, PartialEq, Eq, Structural)]
pub enum Opcode {
    LDA,
    LDC,
    STA,
    INP,
    OUT,
    ADC,
    ADD,
    SUB,
    MUL,
    DIV,
    BRU,
    BPA,
    BNA,
    BZA,
    STP,
}

/// Load the value at a location into the accumulator.
#[derive(Debug)]
pub struct LDA {
    pub location: u32,
    lineno: usize,
}

/// Load a constant into the accumulator. `value` holds the literal as it is written in the
/// source; it is a value literal of the grammar in `literal`.
#[derive(Debug)]
pub struct LDC {
    pub value: String,
    lineno: usize,
}

/// Store the accumulator at a location.
#[derive(Debug)]
pub struct STA {
    pub location: u32,
    lineno: usize,
}

/// Read a number from the keyboard and store it at a location.
#[derive(Debug)]
pub struct INP {
    pub location: u32,
    lineno: usize,
}

/// Print the value at a location.
#[derive(Debug)]
pub struct OUT {
    pub location: u32,
    lineno: usize,
}

/// Add a constant to the accumulator. `value` holds the literal as it is written in the
/// source; it is a value literal of the grammar in `literal`.
#[derive(Debug)]
pub struct ADC {
    pub value: String,
    lineno: usize,
}

/// Add the value at a location to the accumulator.
#[derive(Debug)]
pub struct ADD {
    pub location: u32,
    lineno: usize,
}

/// Subtract the value at a location from the accumulator.
#[derive(Debug)]
pub struct SUB {
    pub location: u32,
    lineno: usize,
}

/// Multiply the accumulator by the value at a location.
#[derive(Debug)]
pub struct MUL {
    pub location: u32,
    lineno: usize,
}

/// Divide the accumulator by the value at a location.
#[derive(Debug)]
pub struct DIV {
    pub location: u32,
    lineno: usize,
}

/// Continue at the line `location`.
#[derive(Debug)]
pub struct BRU {
    pub location: u32,
    lineno: usize,
}

/// Continue at the line `location` if the accumulator is greater than zero.
#[derive(Debug)]
pub struct BPA {
    pub location: u32,
    lineno: usize,
}

/// Continue at the line `location` if the accumulator is less than zero.
#[derive(Debug)]
pub struct BNA {
    pub location: u32,
    lineno: usize,
}

/// Continue at the line `location` if the accumulator is zero.
#[derive(Debug)]
pub struct BZA {
    pub location: u32,
    lineno: usize,
}

/// Stop.
#[derive(Debug)]
pub struct STP {
    lineno: usize,
}

#[derive(Debug)]
pub enum Instruction {
    LDA(LDA),
    LDC(LDC),
    STA(STA),
    INP(INP),
    OUT(OUT),
    ADC(ADC),
    ADD(ADD),
    SUB(SUB),
    MUL(MUL),
    DIV(DIV),
    BRU(BRU),
    BPA(BPA),
    BNA(BNA),
    BZA(BZA),
    STP(STP),
}

/// What an instruction operates on.
pub enum Operand {
    Absent,
    /// A memory cell, or the line that a branch goes to.
    Location(u32),
    /// The bytes of a value literal.
    Value(Seq<u8>),
}

/// An instruction as the contracts see it.
pub struct InstructionView {
    pub opcode: Opcode,
    pub operand: Operand,
    /// The line of the source that the instruction stands on, counted from 1.
    pub lineno: nat,
}

#[derive(Clone, Copy, Debug, PartialEq, Eq, Structural)]
pub enum DiagnosticType {
    InvalidOpcode,
    InvalidOperand,
    MissingOperand,
    TooManyOperands,
    MissingStp,
}

/// A fault in the source and the bytes `[start, end)` that it is about.
#[derive(Clone, Copy, Debug, PartialEq, Eq, Structural)]
pub struct Diagnostic {
    pub ty: DiagnosticType,
    pub start: usize,
    pub end: usize,
}

pub struct ParseResult {
    pub instructions: Vec<Instruction>,
    pub diagnostics: Vec<Diagnostic>,
    pub code: String,
}

/// What one line gives.
pub struct LineView {
    pub instruction: Option<InstructionView>,
    pub diagnostics: Seq<Diagnostic>,
}

/// The three letters of an opcode, as bytes.
pub open spec fn mnemonic_bytes(op: Opcode) -> Seq<u8> {
    match op {
        Opcode::LDA => seq![76u8, 68u8, 65u8],
        Opcode::LDC => seq![76u8, 68u8, 67u8],
        Opcode::STA => seq![83u8, 84u8, 65u8],
        Opcode::INP => seq![73u8, 78u8, 80u8],
        Opcode::OUT => seq![79u8, 85u8, 84u8],
        Opcode::ADC => seq![65u8, 68u8, 67u8],
        Opcode::ADD => seq![65u8, 68u8, 68u8],
        Opcode::SUB => seq![83u8, 85u8, 66u8],
        Opcode::MUL => seq![77u8, 85u8, 76u8],
        Opcode::DIV => seq![68u8, 73u8, 86u8],
        Opcode::BRU => seq![66u8, 82u8, 85u8],
        Opcode::BPA => seq![66u8, 80u8, 65u8],
        Opcode::BNA => seq![66u8, 78u8, 65u8],
        Opcode::BZA => seq![66u8, 90u8, 65u8],
        Opcode::STP => seq![83u8, 84u8, 80u8],
    }
}

/// The mnemonic of an opcode.
pub open spec fn mnemonic(op: Opcode) -> Seq<char> {
    match op {
        Opcode::LDA => "LDA"@,
        Opcode::LDC => "LDC"@,
        Opcode::STA => "STA"@,
        Opcode::INP => "INP"@,
        Opcode::OUT => "OUT"@,
        Opcode::ADC => "ADC"@,
        Opcode::ADD => "ADD"@,
        Opcode::SUB => "SUB"@,
        Opcode::MUL => "MUL"@,
        Opcode::DIV => "DIV"@,
        Opcode::BRU => "BRU"@,
        Opcode::BPA => "BPA"@,
        Opcode::BNA => "BNA"@,
        Opcode::BZA => "BZA"@,
        Opcode::STP => "STP"@,
    }
}

/// The opcode that a token spells, if it spells one. Mnemonics are in upper case.
pub open spec fn opcode_of(t: Seq<u8>) -> Option<Opcode> {
    if t == mnemonic_bytes(Opcode::LDA) {
        Some(Opcode::LDA)
    } else if t == mnemonic_bytes(Opcode::LDC) {
        Some(Opcode::LDC)
    } else if t == mnemonic_bytes(Opcode::STA) {
        Some(Opcode::STA)
    } else if t == mnemonic_bytes(Opcode::INP) {
        Some(Opcode::INP)
    } else if t == mnemonic_bytes(Opcode::OUT) {
        Some(Opcode::OUT)
    } else if t == mnemonic_bytes(Opcode::ADC) {
        Some(Opcode::ADC)
    } else if t == mnemonic_bytes(Opcode::ADD) {
        Some(Opcode::ADD)
    } else if t == mnemonic_bytes(Opcode::SUB) {
        Some(Opcode::SUB)
    } else if t == mnemonic_bytes(Opcode::MUL) {
        Some(Opcode::MUL)
    } else if t == mnemonic_bytes(Opcode::DIV) {
        Some(Opcode::DIV)
    } else if t == mnemonic_bytes(Opcode::BRU) {
        Some(Opcode::BRU)
    } else if t == mnemonic_bytes(Opcode::BPA) {
        Some(Opcode::BPA)
    } else if t == mnemonic_bytes(Opcode::BNA) {
        Some(Opcode::BNA)
    } else if t == mnemonic_bytes(Opcode::BZA) {
        Some(Opcode::BZA)
    } else if t == mnemonic_bytes(Opcode::STP) {
        Some(Opcode::STP)
    } else {
        None
    }
}

/// The opcodes whose operand is a value; the operand of every other opcode but `STP` is a
/// location.
pub open spec fn takes_value(op: Opcode) -> bool {
    op == Opcode::LDC || op == Opcode::ADC
}

/// The operand that a token stands for under an opcode, if it is well typed.
pub open spec fn operand_of(op: Opcode, t: Seq<u8>) -> Option<Operand> {
    if takes_value(op) {
        if is_value_literal(t) {
            Some(Operand::Value(t))
        } else {
            None
        }
    } else {
        match location_of(t) {
            Some(location) => Some(Operand::Location(location)),
            None => None,
        }
    }
}

pub open spec fn diagnostic(ty: DiagnosticType, start: int, end: int) -> Diagnostic {
    Diagnostic { ty, start: start as usize, end: end as usize }
}

/// A line that the parser passes over: an empty one, or a comment.
pub open spec fn is_skipped(s: Seq<u8>, start: int, end: int) -> bool {
    start >= end || s[start] == HASH
}

/// What the line `[start, end)` of `s` gives, where `lineno` is its number.
///
/// The opcode is the first token of the line and the operand the second. Tokens behind the
/// operand (behind the opcode, for `STP`) are surplus: they give `TooManyOperands` from the
/// first of them to the end of the line, and the rest of the line is still read.
#[verifier::opaque]
pub open spec fn read_line(s: Seq<u8>, start: int, end: int, lineno: nat) -> LineView {
    let opcode_start = skip_blanks(s, start, end);
    let opcode_end = token_end(s, opcode_start, end);
    let operand_start = skip_blanks(s, opcode_end, end);
    let operand_end = token_end(s, operand_start, end);
    let third_start = skip_blanks(s, operand_end, end);
    let opcode = opcode_of(s.subrange(opcode_start, opcode_end));
    let surplus_start = if opcode == Some(Opcode::STP) {
        operand_start
    } else {
        third_start
    };
    let surplus = if surplus_start < end {
        seq![diagnostic(DiagnosticType::TooManyOperands, surplus_start, end)]
    } else {
        Seq::empty()
    };
    if is_skipped(s, start, end) {
        LineView { instruction: None, diagnostics: Seq::empty() }
    } else if opcode_start >= end {
        LineView {
            instruction: None,
            diagnostics: seq![diagnostic(DiagnosticType::InvalidOpcode, start, start)],
        }
    } else {
        match opcode {
            None => LineView {
                instruction: None,
                diagnostics: surplus.push(
                    diagnostic(DiagnosticType::InvalidOpcode, opcode_start, opcode_end),
                ),
            },
            Some(Opcode::STP) => LineView {
                instruction: Some(
                    InstructionView { opcode: Opcode::STP, operand: Operand::Absent, lineno },
                ),
                diagnostics: surplus,
            },
            Some(op) => if operand_start >= end {
                LineView {
                    instruction: None,
                    diagnostics: surplus.push(
                        diagnostic(DiagnosticType::MissingOperand, opcode_end, opcode_end),
                    ),
                }
            } else {
                match operand_of(op, s.subrange(operand_start, operand_end)) {
                    Some(operand) => LineView {
                        instruction: Some(InstructionView { opcode: op, operand, lineno }),
                        diagnostics: surplus,
                    },
                    None => LineView {
                        instruction: None,
                        diagnostics: surplus.push(
                            diagnostic(
                                DiagnosticType::InvalidOperand,
                                operand_start,
                                operand_end,
                            ),
                        ),
                    },
                }
            },
        }
    }
}

pub open spec fn optional<T>(item: Option<T>) -> Seq<T> {
    match item {
        Some(item) => seq![item],
        None => Seq::empty(),
    }
}

/// The instructions of the lines from the one that starts at `start` on, where `lineno` is
/// the number of that line.
pub open spec fn instructions_from(s: Seq<u8>, start: int, lineno: nat) -> Seq<InstructionView>
    decreases s.len() - start,
{
    let end = line_end(s, start);
    let here = optional(read_line(s, start, end, lineno).instruction);
    if 0 <= start <= end < s.len() {
        here + instructions_from(s, end + 1, lineno + 1)
    } else {
        here
    }
}

/// The diagnostics of the lines from the one that starts at `start` on.
pub open spec fn diagnostics_from(s: Seq<u8>, start: int, lineno: nat) -> Seq<Diagnostic>
    decreases s.len() - start,
{
    let end = line_end(s, start);
    let here = read_line(s, start, end, lineno).diagnostics;
    if 0 <= start <= end < s.len() {
        here + diagnostics_from(s, end + 1, lineno + 1)
    } else {
        here
    }
}

/// One of the instructions is `STP`.
pub open spec fn has_stop(instructions: Seq<InstructionView>) -> bool {
    exists|i: int| 0 <= i < instructions.len() && (#[trigger] instructions[i]).opcode == Opcode::STP
}

/// The instructions of a source, in the order of their lines.
pub open spec fn parsed_instructions(s: Seq<u8>) -> Seq<InstructionView> {
    instructions_from(s, 0, 1)
}

/// The diagnostics of a source: those of its lines, in the order of the lines, and behind them
/// `MissingStp` at the end of the source if no line gave `STP`.
pub open spec fn parsed_diagnostics(s: Seq<u8>) -> Seq<Diagnostic> {
    if has_stop(parsed_instructions(s)) {
        diagnostics_from(s, 0, 1)
    } else {
        diagnostics_from(s, 0, 1).push(
            diagnostic(DiagnosticType::MissingStp, s.len() as int, s.len() as int),
        )
    }
}

pub open spec fn views(instructions: Seq<Instruction>) -> Seq<InstructionView> {
    instructions.map_values(|i: Instruction| i@)
}

impl Opcode {
    pub fn takes_value(self) -> (r: bool)
        ensures
            r == takes_value(self),
    {
        match self {
            Opcode::LDC => true,
            Opcode::ADC => true,
            _ => false,
        }
    }

    pub fn mnemonic(self) -> (r: &'static str)
        ensures
            r@ == mnemonic(self),
    {
        match self {
            Opcode::LDA => "LDA",
            Opcode::LDC => "LDC",
            Opcode::STA => "STA",
            Opcode::INP => "INP",
            Opcode::OUT => "OUT",
            Opcode::ADC => "ADC",
            Opcode::ADD => "ADD",
            Opcode::SUB => "SUB",
            Opcode::MUL => "MUL",
            Opcode::DIV => "DIV",
            Opcode::BRU => "BRU",
            Opcode::BPA => "BPA",
            Opcode::BNA => "BNA",
            Opcode::BZA => "BZA",
            Opcode::STP => "STP",
        }
    }
}

impl LDA {
    pub fn opcode(self: &Self) -> (r: &'static str)
        ensures
            r@ == mnemonic(Opcode::LDA),
    {
        "LDA"
    }
}

impl LDC {
    pub fn opcode(self: &Self) -> (r: &'static str)
        ensures
            r@ == mnemonic(Opcode::LDC),
    {
        "LDC"
    }
}

impl STA {
    pub fn opcode(self: &Self) -> (r: &'static str)
        ensures
            r@ == mnemonic(Opcode::STA),
    {
        "STA"
    }
}

impl INP {
    pub fn opcode(self: &Self) -> (r: &'static str)
        ensures
            r@ == mnemonic(Opcode::INP),
    {
        "INP"
    }
}

impl OUT {
    pub fn opcode(self: &Self) -> (r: &'static str)
        ensures
            r@ == mnemonic(Opcode::OUT),
    {
        "OUT"
    }
}

impl ADC {
    pub fn opcode(self: &Self) -> (r: &'static str)
        ensures
            r@ == mnemonic(Opcode::ADC),
    {
        "ADC"
    }
}

impl ADD {
    pub fn opcode(self: &Self) -> (r: &'static str)
        ensures
            r@ == mnemonic(Opcode::ADD),
    {
        "ADD"
    }
}

impl SUB {
    pub fn opcode(self: &Self) -> (r: &'static str)
        ensures
            r@ == mnemonic(Opcode::SUB),
    {
        "SUB"
    }
}

impl MUL {
    pub fn opcode(self: &Self) -> (r: &'static str)
        ensures
            r@ == mnemonic(Opcode::MUL),
    {
        "MUL"
    }
}

impl DIV {
    pub fn opcode(self: &Self) -> (r: &'static str)
        ensures
            r@ == mnemonic(Opcode::DIV),
    {
        "DIV"
    }
}

impl BRU {
    pub fn opcode(self: &Self) -> (r: &'static str)
        ensures
            r@ == mnemonic(Opcode::BRU),
    {
        "BRU"
    }
}

impl BPA {
    pub fn opcode(self: &Self) -> (r: &'static str)
        ensures
            r@ == mnemonic(Opcode::BPA),
    {
        "BPA"
    }
}

impl BNA {
    pub fn opcode(self: &Self) -> (r: &'static str)
        ensures
            r@ == mnemonic(Opcode::BNA),
    {
        "BNA"
    }
}

impl BZA {
    pub fn opcode(self: &Self) -> (r: &'static str)
        ensures
            r@ == mnemonic(Opcode::BZA),
    {
        "BZA"
    }
}

impl STP {
    pub fn opcode(self: &Self) -> (r: &'static str)
        ensures
            r@ == mnemonic(Opcode::STP),
    {
        "STP"
    }
}

impl View for Instruction {
    type V = InstructionView;

    closed spec fn view(&self) -> InstructionView {
        match self {
            Instruction::LDA(i) => InstructionView {
                opcode: Opcode::LDA,
                operand: Operand::Location(i.location),
                lineno: i.lineno as nat,
            },
            Instruction::LDC(i) => InstructionView {
                opcode: Opcode::LDC,
                operand: Operand::Value(encode_utf8(i.value@)),
                lineno: i.lineno as nat,
            },
            Instruction::STA(i) => InstructionView {
                opcode: Opcode::STA,
                operand: Operand::Location(i.location),
                lineno: i.lineno as nat,
            },
            Instruction::INP(i) => InstructionView {
                opcode: Opcode::INP,
                operand: Operand::Location(i.location),
                lineno: i.lineno as nat,
            },
            Instruction::OUT(i) => InstructionView {
                opcode: Opcode::OUT,
                operand: Operand::Location(i.location),
                lineno: i.lineno as nat,
            },
            Instruction::ADC(i) => InstructionView {
                opcode: Opcode::ADC,
                operand: Operand::Value(encode_utf8(i.value@)),
                lineno: i.lineno as nat,
            },
            Instruction::ADD(i) => InstructionView {
                opcode: Opcode::ADD,
                operand: Operand::Location(i.location),
                lineno: i.lineno as nat,
            },
            Instruction::SUB(i) => InstructionView {
                opcode: Opcode::SUB,
                operand: Operand::Location(i.location),
                lineno: i.lineno as nat,
            },
            Instruction::MUL(i) => InstructionView {
                opcode: Opcode::MUL,
                operand: Operand::Location(i.location),
                lineno: i.lineno as nat,
            },
            Instruction::DIV(i) => InstructionView {
                opcode: Opcode::DIV,
                operand: Operand::Location(i.location),
                lineno: i.lineno as nat,
            },
            Instruction::BRU(i) => InstructionView {
                opcode: Opcode::BRU,
                operand: Operand::Location(i.location),
                lineno: i.lineno as nat,
            },
            Instruction::BPA(i) => InstructionView {
                opcode: Opcode::BPA,
                operand: Operand::Location(i.location),
                lineno: i.lineno as nat,
            },
            Instruction::BNA(i) => InstructionView {
                opcode: Opcode::BNA,
                operand: Operand::Location(i.location),
                lineno: i.lineno as nat,
            },
            Instruction::BZA(i) => InstructionView {
                opcode: Opcode::BZA,
                operand: Operand::Location(i.location),
                lineno: i.lineno as nat,
            },
            Instruction::STP(i) => InstructionView {
                opcode: Opcode::STP,
                operand: Operand::Absent,
                lineno: i.lineno as nat,
            },
        }
    }
}

impl Instruction {
    pub fn lineno(self: &Self) -> (r: usize)
        ensures
            r == self@.lineno,
    {
        match self {
            Instruction::LDA(lda) => lda.lineno,
            Instruction::LDC(ldc) => ldc.lineno,
            Instruction::STA(sta) => sta.lineno,
            Instruction::INP(inp) => inp.lineno,
            Instruction::OUT(out) => out.lineno,
            Instruction::ADC(adc) => adc.lineno,
            Instruction::ADD(add) => add.lineno,
            Instruction::SUB(sub) => sub.lineno,
            Instruction::MUL(mul) => mul.lineno,
            Instruction::DIV(div) => div.lineno,
            Instruction::BRU(bru) => bru.lineno,
            Instruction::BPA(bpa) => bpa.lineno,
            Instruction::BNA(bna) => bna.lineno,
            Instruction::BZA(bza) => bza.lineno,
            Instruction::STP(stp) => stp.lineno,
        }
    }

    pub fn opcode(self: &Self) -> (r: &'static str)
        ensures
            r@ == mnemonic(self@.opcode),
    {
        match self {
            Instruction::LDA(lda) => lda.opcode(),
            Instruction::LDC(ldc) => ldc.opcode(),
            Instruction::STA(sta) => sta.opcode(),
            Instruction::INP(inp) => inp.opcode(),
            Instruction::OUT(out) => out.opcode(),
            Instruction::ADC(adc) => adc.opcode(),
            Instruction::ADD(add) => add.opcode(),
            Instruction::SUB(sub) => sub.opcode(),
            Instruction::MUL(mul) => mul.opcode(),
            Instruction::DIV(div) => div.opcode(),
            Instruction::BRU(bru) => bru.opcode(),
            Instruction::BPA(bpa) => bpa.opcode(),
            Instruction::BNA(bna) => bna.opcode(),
            Instruction::BZA(bza) => bza.opcode(),
            Instruction::STP(stp) => stp.opcode(),
        }
    }

    /// The operation of the instruction.
    pub fn kind(self: &Self) -> (r: Opcode)
        ensures
            r == self@.opcode,
    {
        match self {
            Instruction::LDA(_) => Opcode::LDA,
            Instruction::LDC(_) => Opcode::LDC,
            Instruction::STA(_) => Opcode::STA,
            Instruction::INP(_) => Opcode::INP,
            Instruction::OUT(_) => Opcode::OUT,
            Instruction::ADC(_) => Opcode::ADC,
            Instruction::ADD(_) => Opcode::ADD,
            Instruction::SUB(_) => Opcode::SUB,
            Instruction::MUL(_) => Opcode::MUL,
            Instruction::DIV(_) => Opcode::DIV,
            Instruction::BRU(_) => Opcode::BRU,
            Instruction::BPA(_) => Opcode::BPA,
            Instruction::BNA(_) => Opcode::BNA,
            Instruction::BZA(_) => Opcode::BZA,
            Instruction::STP(_) => Opcode::STP,
        }
    }

    /// The location that the instruction names: a memory cell, or for a branch the line it
    /// goes to.
    pub fn location(self: &Self) -> (r: Option<u32>)
        ensures
            r == match self@.operand {
                Operand::Location(location) => Some(location),
                _ => None,
            },
    {
        match self {
            Instruction::LDA(lda) => Some(lda.location),
            Instruction::LDC(_) => None,
            Instruction::STA(sta) => Some(sta.location),
            Instruction::INP(inp) => Some(inp.location),
            Instruction::OUT(out) => Some(out.location),
            Instruction::ADC(_) => None,
            Instruction::ADD(add) => Some(add.location),
            Instruction::SUB(sub) => Some(sub.location),
            Instruction::MUL(mul) => Some(mul.location),
            Instruction::DIV(div) => Some(div.location),
            Instruction::BRU(bru) => Some(bru.location),
            Instruction::BPA(bpa) => Some(bpa.location),
            Instruction::BNA(bna) => Some(bna.location),
            Instruction::BZA(bza) => Some(bza.location),
            Instruction::STP(_) => None,
        }
    }

    /// An instruction whose operand is a location.
    fn with_location(op: Opcode, location: u32, lineno: usize) -> (r: Instruction)
        requires
            !takes_value(op),
            op != Opcode::STP,
        ensures
            r@ == (InstructionView {
                opcode: op,
                operand: Operand::Location(location),
                lineno: lineno as nat,
            }),
    {
        match op {
            Opcode::LDA => Instruction::LDA(LDA { location, lineno }),
            Opcode::STA => Instruction::STA(STA { location, lineno }),
            Opcode::INP => Instruction::INP(INP { location, lineno }),
            Opcode::OUT => Instruction::OUT(OUT { location, lineno }),
            Opcode::ADD => Instruction::ADD(ADD { location, lineno }),
            Opcode::SUB => Instruction::SUB(SUB { location, lineno }),
            Opcode::MUL => Instruction::MUL(MUL { location, lineno }),
            Opcode::DIV => Instruction::DIV(DIV { location, lineno }),
            Opcode::BRU => Instruction::BRU(BRU { location, lineno }),
            Opcode::BPA => Instruction::BPA(BPA { location, lineno }),
            Opcode::BNA => Instruction::BNA(BNA { location, lineno }),
            _ => Instruction::BZA(BZA { location, lineno }),
        }
    }

    /// An instruction whose operand is a value.
    fn with_value(op: Opcode, value: String, lineno: usize) -> (r: Instruction)
        requires
            takes_value(op),
        ensures
            r@ == (InstructionView {
                opcode: op,
                operand: Operand::Value(encode_utf8(value@)),
                lineno: lineno as nat,
            }),
    {
        match op {
            Opcode::LDC => Instruction::LDC(LDC { value, lineno }),
            _ => Instruction::ADC(ADC { value, lineno }),
        }
    }
}

impl Diagnostic {
    pub fn new(ty: DiagnosticType, start: usize, end: usize) -> (r: Self)
        ensures
            r == (Diagnostic { ty, start, end }),
    {
        Diagnostic { ty, start, end }
    }
}

impl ParseResult {
    pub fn new(instructions: Vec<Instruction>, diagnostics: Vec<Diagnostic>, code: String) -> (r:
        Self)
        ensures
            r.instructions == instructions,
            r.diagnostics == diagnostics,
            r.code == code,
    {
        ParseResult { instructions, diagnostics, code }
    }

    /// Every diagnostic is about a range of bytes of `code`.
    pub open spec fn is_renderable(&self) -> bool {
        forall|k: int|
            0 <= k < self.diagnostics@.len() ==> {
                let d = #[trigger] self.diagnostics@[k];
                d.start <= d.end <= encode_utf8(self.code@).len()
            }
    }

    /// The instructions, if there is no diagnostic: any diagnostic keeps a program from
    /// being lowered.
    pub fn into_program(self) -> (r: Option<Vec<Instruction>>)
        ensures
            r == if self.diagnostics@.len() == 0 {
                Some(self.instructions)
            } else {
                None
            },
    {
        if self.diagnostics.len() == 0 {
            Some(self.instructions)
        } else {
            None
        }
    }
}

/// The mnemonic of an opcode is spelled by the three letters that the parser reads it from.
pub proof fn lemma_mnemonic_letters(op: Opcode)
    ensures
        mnemonic(op) == mnemonic_bytes(op).map_values(|b: u8| b as char),
        opcode_of(mnemonic_bytes(op)) == Some(op),
{
    reveal_strlit("LDA");
    reveal_strlit("LDC");
    reveal_strlit("STA");
    reveal_strlit("INP");
    reveal_strlit("OUT");
    reveal_strlit("ADC");
    reveal_strlit("ADD");
    reveal_strlit("SUB");
    reveal_strlit("MUL");
    reveal_strlit("DIV");
    reveal_strlit("BRU");
    reveal_strlit("BPA");
    reveal_strlit("BNA");
    reveal_strlit("BZA");
    reveal_strlit("STP");
    assert(mnemonic(op) =~= mnemonic_bytes(op).map_values(|b: u8| b as char));
    let t = mnemonic_bytes(op);
    assert(t[0] == mnemonic_bytes(op)[0]);
    assert(t[1] == mnemonic_bytes(op)[1]);
    assert(t[2] == mnemonic_bytes(op)[2]);
}

/// An empty line gives nothing.
pub proof fn lemma_empty_line(s: Seq<u8>, start: int, lineno: nat)
    ensures
        read_line(s, start, start, lineno) == (LineView {
            instruction: None,
            diagnostics: Seq::empty(),
        }),
{
    reveal(read_line);
}

/// A list of instructions with one more behind it holds `STP` if the list did or the new
/// one is `STP`.
pub proof fn lemma_has_stop_push(instructions: Seq<InstructionView>, last: InstructionView)
    ensures
        has_stop(instructions.push(last)) == (has_stop(instructions) || last.opcode
            == Opcode::STP),
{
    let longer = instructions.push(last);
    if has_stop(instructions) {
        let k = choose|k: int|
            0 <= k < instructions.len() && (#[trigger] instructions[k]).opcode == Opcode::STP;
        assert(longer[k].opcode == Opcode::STP);
    }
    if last.opcode == Opcode::STP {
        assert(longer[instructions.len() as int].opcode == Opcode::STP);
    }
    if has_stop(longer) {
        let k = choose|k: int|
            0 <= k < longer.len() && (#[trigger] longer[k]).opcode == Opcode::STP;
        if k < instructions.len() {
            assert(instructions[k].opcode == Opcode::STP);
        }
    }
}

/// Reads the opcode that a token spells.
pub fn recognize(t: &[u8]) -> (r: Option<Opcode>)
    ensures
        r == opcode_of(t@),
{
    if t.len() != 3 {
        return None;
    }
    let a = t[0];
    let b = t[1];
    let c = t[2];
    let r = if a == 76 && b == 68 && c == 65 {
        Some(Opcode::LDA)
    } else if a == 76 && b == 68 && c == 67 {
        Some(Opcode::LDC)
    } else if a == 83 && b == 84 && c == 65 {
        Some(Opcode::STA)
    } else if a == 73 && b == 78 && c == 80 {
        Some(Opcode::INP)
    } else if a == 79 && b == 85 && c == 84 {
        Some(Opcode::OUT)
    } else if a == 65 && b == 68 && c == 67 {
        Some(Opcode::ADC)
    } else if a == 65 && b == 68 && c == 68 {
        Some(Opcode::ADD)
    } else if a == 83 && b == 85 && c == 66 {
        Some(Opcode::SUB)
    } else if a == 77 && b == 85 && c == 76 {
        Some(Opcode::MUL)
    } else if a == 68 && b == 73 && c == 86 {
        Some(Opcode::DIV)
    } else if a == 66 && b == 82 && c == 85 {
        Some(Opcode::BRU)
    } else if a == 66 && b == 80 && c == 65 {
        Some(Opcode::BPA)
    } else if a == 66 && b == 78 && c == 65 {
        Some(Opcode::BNA)
    } else if a == 66 && b == 90 && c == 65 {
        Some(Opcode::BZA)
    } else if a == 83 && b == 84 && c == 80 {
        Some(Opcode::STP)
    } else {
        None
    };
    proof {
        match r {
            Some(op) => {
                assert(t@ =~= mnemonic_bytes(op));
            },
            None => {},
        }
    }
    r
}

/// Reads the operand that stands in `[start, end)` of the source, for an opcode other than
/// `STP`.
fn parse_operand(source: &str, bytes: &[u8], op: Opcode, start: usize, end: usize, lineno: usize) -> (r:
    Result<Instruction, Diagnostic>)
    requires
        bytes@ == source.spec_bytes(),
        start < end <= bytes@.len(),
        op != Opcode::STP,
        end == bytes@.len() || bytes@[end as int] < 0x80,
    ensures
        match operand_of(op, bytes@.subrange(start as int, end as int)) {
            Some(operand) => r matches Ok(i) && i@ == (InstructionView {
                opcode: op,
                operand,
                lineno: lineno as nat,
            }),
            None => r == Err::<Instruction, Diagnostic>(
                diagnostic(DiagnosticType::InvalidOperand, start as int, end as int),
            ),
        },
{
    let token = slice_subrange(bytes, start, end);
    if op.takes_value() {
        if check_value_literal(token) {
            proof {
                encode_utf8_valid_utf8(source@);
                lemma_value_literal_is_ascii(token@);
                assert(token@[0] == bytes@[start as int]);
                lemma_boundary_beside_ascii(bytes@, start as int);
                lemma_boundary_beside_ascii(bytes@, end as int);
            }
            let value = slice_text(source, start, end);
            Ok(Instruction::with_value(op, value, lineno))
        } else {
            Err(Diagnostic::new(DiagnosticType::InvalidOperand, start, end))
        }
    } else {
        match parse_location(token) {
            Some(location) => Ok(Instruction::with_location(op, location, lineno)),
            None => Err(Diagnostic::new(DiagnosticType::InvalidOperand, start, end)),
        }
    }
}

/// Reads the line `[start, end)` of the source: appends its diagnostics and returns its
/// instruction.
fn parse_line(
    source: &str,
    bytes: &[u8],
    start: usize,
    end: usize,
    lineno: usize,
    diagnostics: &mut Vec<Diagnostic>,
) -> (r: Option<Instruction>)
    requires
        bytes@ == source.spec_bytes(),
        start <= end <= bytes@.len(),
        end == bytes@.len() || bytes@[end as int] == LINE_FEED,
    ensures
        match read_line(bytes@, start as int, end as int, lineno as nat).instruction {
            Some(i) => r.is_some() && r.unwrap()@ == i,
            None => r.is_none(),
        },
        final(diagnostics)@ == old(diagnostics)@ + read_line(
            bytes@,
            start as int,
            end as int,
            lineno as nat,
        ).diagnostics,
{
    reveal(read_line);
    if start >= end || bytes[start] == HASH {
        assert(diagnostics@ =~= old(diagnostics)@ + Seq::<Diagnostic>::empty());
        return None;
    }
    let opcode_start = find_token_start(bytes, start, end);
    if opcode_start >= end {
        diagnostics.push(Diagnostic::new(DiagnosticType::InvalidOpcode, start, start));
        assert(diagnostics@ =~= old(diagnostics)@ + seq![
            diagnostic(DiagnosticType::InvalidOpcode, start as int, start as int),
        ]);
        return None;
    }
    let opcode_end = find_token_end(bytes, opcode_start, end);
    let operand_start = find_token_start(bytes, opcode_end, end);
    let operand_end = find_token_end(bytes, operand_start, end);
    let third_start = find_token_start(bytes, operand_end, end);
    let opcode = recognize(slice_subrange(bytes, opcode_start, opcode_end));
    let surplus_start = match opcode {
        Some(Opcode::STP) => operand_start,
        _ => third_start,
    };
    let ghost surplus = if surplus_start < end {
        seq![diagnostic(DiagnosticType::TooManyOperands, surplus_start as int, end as int)]
    } else {
        Seq::empty()
    };
    if surplus_start < end {
        diagnostics.push(Diagnostic::new(DiagnosticType::TooManyOperands, surplus_start, end));
    }
    assert(diagnostics@ =~= old(diagnostics)@ + surplus);
    let ghost line = read_line(bytes@, start as int, end as int, lineno as nat);
    match opcode {
        None => {
            diagnostics.push(Diagnostic::new(DiagnosticType::InvalidOpcode, opcode_start, opcode_end));
            assert(diagnostics@ =~= old(diagnostics)@ + line.diagnostics);
            None
        },
        Some(Opcode::STP) => {
            assert(diagnostics@ =~= old(diagnostics)@ + line.diagnostics);
            Some(Instruction::STP(STP { lineno }))
        },
        Some(op) => {
            if operand_start >= end {
                diagnostics.push(
                    Diagnostic::new(DiagnosticType::MissingOperand, opcode_end, opcode_end),
                );
                assert(diagnostics@ =~= old(diagnostics)@ + line.diagnostics);
                None
            } else {
                proof {
                    lemma_token_end_bounds(bytes@, operand_start as int, end as int);
                    lemma_skip_blanks_bounds(bytes@, opcode_end as int, end as int);
                }
                match parse_operand(source, bytes, op, operand_start, operand_end, lineno) {
                    Ok(instruction) => {
                        assert(diagnostics@ =~= old(diagnostics)@ + line.diagnostics);
                        Some(instruction)
                    },
                    Err(fault) => {
                        diagnostics.push(fault);
                        assert(diagnostics@ =~= old(diagnostics)@ + line.diagnostics);
                        None
                    },
                }
            }
        },
    }
}

/// Parses a source.
///
/// One faulty line never stops the parsing of the lines behind it. Where the diagnostics are
/// empty, every line gave a recognised opcode with an operand of its kind, and one of them is
/// `STP`. Nothing is checked of where a branch goes.
pub fn parse(source: &str) -> (r: ParseResult)
    ensures
        views(r.instructions@) == parsed_instructions(source.spec_bytes()),
        r.diagnostics@ == parsed_diagnostics(source.spec_bytes()),
        r.code@ == source@,
        r.is_renderable(),
        ascending(views(r.instructions@)),
        forall|k: int|
            0 <= k < r.instructions@.len() ==> is_well_typed(#[trigger] views(r.instructions@)[k]),
{
    let bytes = source.as_bytes();
    let mut instructions: Vec<Instruction> = Vec::new();
    let mut diagnostics: Vec<Diagnostic> = Vec::new();
    let mut found_stop = false;
    let mut start: usize = 0;
    let mut index: usize = 0;
    let mut done = false;
    assert(views(instructions@) =~= Seq::<InstructionView>::empty());
    while !done
        invariant
            bytes@ == source.spec_bytes(),
            index <= start <= bytes@.len(),
            found_stop == has_stop(views(instructions@)),
            !done ==> views(instructions@) + instructions_from(
                bytes@,
                start as int,
                (index + 1) as nat,
            ) == parsed_instructions(bytes@),
            !done ==> diagnostics@ + diagnostics_from(bytes@, start as int, (index + 1) as nat)
                == diagnostics_from(bytes@, 0, 1),
            done ==> views(instructions@) == parsed_instructions(bytes@),
            done ==> diagnostics@ == diagnostics_from(bytes@, 0, 1),
        decreases bytes@.len() - start + (if done { 0int } else { 1int }),
    {
        let end = find_line_end(bytes, start);
        proof {
            lemma_line_end_bounds(bytes@, start as int);
        }
        let ghost before = views(instructions@);
        let ghost before_diagnostics = diagnostics@;
        let ghost line = read_line(bytes@, start as int, end as int, (index + 1) as nat);
        if start < end {
            let instruction = parse_line(source, bytes, start, end, index + 1, &mut diagnostics);
            match instruction {
                Some(i) => {
                    let is_stop = matches!(i, Instruction::STP(_));
                    assert(is_stop == (i@.opcode == Opcode::STP));
                    proof {
                        lemma_has_stop_push(before, i@);
                    }
                    let ghost view = i@;
                    instructions.push(i);
                    assert(views(instructions@) =~= before.push(view));
                    found_stop = found_stop || is_stop;
                },
                None => {},
            }
        } else {
            proof {
                lemma_empty_line(bytes@, start as int, (index + 1) as nat);
            }
        }
        assert(views(instructions@) =~= before + optional(line.instruction));
        assert(diagnostics@ =~= before_diagnostics + line.diagnostics);
        if end == bytes.len() {
            done = true;
        } else {
            proof {
                let rest = instructions_from(bytes@, end + 1, (index + 2) as nat);
                assert(before + (optional(line.instruction) + rest) =~= (before + optional(
                    line.instruction,
                )) + rest);
                let rest_diagnostics = diagnostics_from(bytes@, end + 1, (index + 2) as nat);
                assert(before_diagnostics + (line.diagnostics + rest_diagnostics) =~= (
                before_diagnostics + line.diagnostics) + rest_diagnostics);
            }
            start = end + 1;
            index = index + 1;
        }
    }
    if !found_stop {
        diagnostics.push(Diagnostic::new(DiagnosticType::MissingStp, bytes.len(), bytes.len()));
    }
    let _ = bytes.len();
    proof {
        lemma_parsed_diagnostics(bytes@);
        lemma_parsed_instructions(bytes@);
    }
    ParseResult::new(instructions, diagnostics, source.to_owned())
}

/// The operand of an instruction is of the kind that its opcode takes.
pub open spec fn is_well_typed(i: InstructionView) -> bool {
    match i.operand {
        Operand::Absent => i.opcode == Opcode::STP,
        Operand::Location(_) => i.opcode != Opcode::STP && !takes_value(i.opcode),
        Operand::Value(literal) => takes_value(i.opcode) && is_value_literal(literal),
    }
}

/// Each instruction stands on a later line than the one before it.
pub open spec fn ascending(instructions: Seq<InstructionView>) -> bool {
    forall|i: int, j: int|
        0 <= i < j < instructions.len() ==> (#[trigger] instructions[i]).lineno < (
        #[trigger] instructions[j]).lineno
}

/// The line `[start, end)` of `s` holds the mnemonic of `op`, which is not `STP`, then one
/// token that stands for `operand` under `op`, and nothing behind it.
pub open spec fn holds_instruction(
    s: Seq<u8>,
    start: int,
    end: int,
    op: Opcode,
    operand: Operand,
) -> bool {
    let opcode_start = skip_blanks(s, start, end);
    let opcode_end = token_end(s, opcode_start, end);
    let operand_start = skip_blanks(s, opcode_end, end);
    let operand_end = token_end(s, operand_start, end);
    &&& 0 <= start < end <= s.len()
    &&& s[start] != HASH
    &&& opcode_of(s.subrange(opcode_start, opcode_end)) == Some(op)
    &&& op != Opcode::STP
    &&& operand_start < end
    &&& operand_of(op, s.subrange(operand_start, operand_end)) == Some(operand)
    &&& skip_blanks(s, operand_end, end) >= end
}

/// A line with a recognised mnemonic and one operand of its kind gives exactly one
/// instruction and no diagnostic.
pub proof fn lemma_instruction_line(
    s: Seq<u8>,
    start: int,
    end: int,
    lineno: nat,
    op: Opcode,
    operand: Operand,
)
    requires
        holds_instruction(s, start, end, op, operand),
    ensures
        read_line(s, start, end, lineno) == (LineView {
            instruction: Some(InstructionView { opcode: op, operand, lineno }),
            diagnostics: Seq::empty(),
        }),
{
    reveal(read_line);
    lemma_skip_blanks_bounds(s, start, end);
    let opcode_start = skip_blanks(s, start, end);
    lemma_token_end_bounds(s, opcode_start, end);
    assert(mnemonic_bytes(op).len() == 3);
}

/// A line whose first token is `STP` gives `STP`, whatever stands behind it.
pub proof fn lemma_stop_line(s: Seq<u8>, start: int, end: int, lineno: nat)
    requires
        0 <= start < end <= s.len(),
        s[start] != HASH,
        opcode_of(
            s.subrange(
                skip_blanks(s, start, end),
                token_end(s, skip_blanks(s, start, end), end),
            ),
        ) == Some(Opcode::STP),
    ensures
        read_line(s, start, end, lineno).instruction == Some(
            InstructionView { opcode: Opcode::STP, operand: Operand::Absent, lineno },
        ),
{
    reveal(read_line);
    lemma_skip_blanks_bounds(s, start, end);
    let opcode_start = skip_blanks(s, start, end);
    lemma_token_end_bounds(s, opcode_start, end);
    assert(mnemonic_bytes(Opcode::STP).len() == 3);
}

/// What a line gives: an instruction of that line with an operand of its kind, and
/// diagnostics that lie in the line and are not `MissingStp`.
pub proof fn lemma_line(s: Seq<u8>, start: int, end: int, lineno: nat)
    requires
        0 <= start <= end <= s.len() <= usize::MAX,
    ensures
        read_line(s, start, end, lineno).instruction matches Some(i) ==> i.lineno == lineno
            && is_well_typed(i),
        forall|k: int|
            0 <= k < read_line(s, start, end, lineno).diagnostics.len() ==> {
                let d = #[trigger] read_line(s, start, end, lineno).diagnostics[k];
                &&& start <= d.start <= d.end <= end
                &&& d.ty != DiagnosticType::MissingStp
            },
{
    reveal(read_line);
    lemma_skip_blanks_bounds(s, start, end);
    let opcode_start = skip_blanks(s, start, end);
    lemma_token_end_bounds(s, opcode_start, end);
    let opcode_end = token_end(s, opcode_start, end);
    lemma_skip_blanks_bounds(s, opcode_end, end);
    let operand_start = skip_blanks(s, opcode_end, end);
    lemma_token_end_bounds(s, operand_start, end);
    let operand_end = token_end(s, operand_start, end);
    lemma_skip_blanks_bounds(s, operand_end, end);
}

/// The bytes `[from, to)` are a token of the line `[start, end)`: they hold no white space,
/// and white space or an end of the line stands on either side of them.
pub open spec fn is_token(s: Seq<u8>, start: int, end: int, from: int, to: int) -> bool {
    &&& start <= from < to <= end
    &&& forall|k: int| from <= k < to ==> !is_blank(#[trigger] s[k])
    &&& from == start || is_blank(s[from - 1])
    &&& to == end || is_blank(s[to])
}

/// The range of an invalid operand, and that of an invalid opcode unless the line has none,
/// is exactly the token at fault.
pub proof fn lemma_diagnostics_bound_tokens(s: Seq<u8>, start: int, end: int, lineno: nat)
    requires
        0 <= start <= end <= s.len() <= usize::MAX,
    ensures
        forall|k: int|
            0 <= k < read_line(s, start, end, lineno).diagnostics.len() ==> {
                let d = #[trigger] read_line(s, start, end, lineno).diagnostics[k];
                (d.ty == DiagnosticType::InvalidOperand || (d.ty == DiagnosticType::InvalidOpcode
                    && d.start < d.end)) ==> is_token(s, start, end, d.start as int, d.end as int)
            },
{
    reveal(read_line);
    lemma_skip_blanks_bounds(s, start, end);
    let opcode_start = skip_blanks(s, start, end);
    lemma_token_end_bounds(s, opcode_start, end);
    let opcode_end = token_end(s, opcode_start, end);
    lemma_skip_blanks_bounds(s, opcode_end, end);
    let operand_start = skip_blanks(s, opcode_end, end);
    lemma_token_end_bounds(s, operand_start, end);
    let operand_end = token_end(s, operand_start, end);
    lemma_skip_blanks_bounds(s, operand_end, end);
    if opcode_start < end {
        assert(is_token(s, start, end, opcode_start, opcode_end)) by {
            if opcode_start > start {
                assert(is_blank(s[opcode_start - 1]));
            }
        }
    }
    if operand_start < end {
        assert(is_token(s, start, end, operand_start, operand_end)) by {
            assert(is_blank(s[operand_start - 1]));
        }
    }
}

/// The instructions from a line on stand on that line or behind it, each on a later line
/// than the one before, and each has an operand of its kind.
pub proof fn lemma_instructions_from(s: Seq<u8>, start: int, lineno: nat)
    requires
        0 <= start <= s.len() <= usize::MAX,
    ensures
        ascending(instructions_from(s, start, lineno)),
        forall|k: int|
            0 <= k < instructions_from(s, start, lineno).len() ==> {
                let i = #[trigger] instructions_from(s, start, lineno)[k];
                i.lineno >= lineno && is_well_typed(i)
            },
    decreases s.len() - start,
{
    let end = line_end(s, start);
    lemma_line_end_bounds(s, start);
    lemma_line(s, start, end, lineno);
    let here = optional(read_line(s, start, end, lineno).instruction);
    if end < s.len() {
        lemma_instructions_from(s, end + 1, lineno + 1);
        let rest = instructions_from(s, end + 1, lineno + 1);
        let all = instructions_from(s, start, lineno);
        assert(all =~= here + rest);
        assert forall|k: int| 0 <= k < all.len() implies {
            let i = #[trigger] all[k];
            i.lineno >= lineno && is_well_typed(i)
        } by {
            if k >= here.len() {
                assert(all[k] == rest[k - here.len()]);
            }
        }
        assert forall|i: int, j: int| 0 <= i < j < all.len() implies (#[trigger] all[i]).lineno < (
        #[trigger] all[j]).lineno by {
            assert(all[j] == rest[j - here.len()]);
            if i >= here.len() {
                assert(all[i] == rest[i - here.len()]);
            }
        }
    }
}

/// The diagnostics from a line on lie in the source behind the start of that line, and none
/// of them is `MissingStp`.
pub proof fn lemma_diagnostics_from(s: Seq<u8>, start: int, lineno: nat)
    requires
        0 <= start <= s.len() <= usize::MAX,
    ensures
        forall|k: int|
            0 <= k < diagnostics_from(s, start, lineno).len() ==> {
                let d = #[trigger] diagnostics_from(s, start, lineno)[k];
                &&& start <= d.start <= d.end <= s.len()
                &&& d.ty != DiagnosticType::MissingStp
            },
    decreases s.len() - start,
{
    let end = line_end(s, start);
    lemma_line_end_bounds(s, start);
    lemma_line(s, start, end, lineno);
    let here = read_line(s, start, end, lineno).diagnostics;
    if end < s.len() {
        lemma_diagnostics_from(s, end + 1, lineno + 1);
        let rest = diagnostics_from(s, end + 1, lineno + 1);
        let all = diagnostics_from(s, start, lineno);
        assert(all =~= here + rest);
        assert forall|k: int| 0 <= k < all.len() implies {
            let d = #[trigger] all[k];
            &&& start <= d.start <= d.end <= s.len()
            &&& d.ty != DiagnosticType::MissingStp
        } by {
            if k < here.len() {
                assert(all[k] == here[k]);
            } else {
                assert(all[k] == rest[k - here.len()]);
            }
        }
    }
}

/// The instructions of a source stand on ascending lines, counted from 1, and each has an
/// operand of the kind that its opcode takes.
pub proof fn lemma_parsed_instructions(s: Seq<u8>)
    requires
        s.len() <= usize::MAX,
    ensures
        ascending(parsed_instructions(s)),
        forall|k: int|
            0 <= k < parsed_instructions(s).len() ==> {
                let i = #[trigger] parsed_instructions(s)[k];
                i.lineno >= 1 && is_well_typed(i)
            },
{
    lemma_instructions_from(s, 0, 1);
}

/// Every diagnostic of a source is about a range of bytes of that source.
pub proof fn lemma_parsed_diagnostics(s: Seq<u8>)
    requires
        s.len() <= usize::MAX,
    ensures
        forall|k: int|
            0 <= k < parsed_diagnostics(s).len() ==> {
                let d = #[trigger] parsed_diagnostics(s)[k];
                d.start <= d.end <= s.len()
            },
{
    lemma_diagnostics_from(s, 0, 1);
    let lines = diagnostics_from(s, 0, 1);
    assert forall|k: int| 0 <= k < parsed_diagnostics(s).len() implies {
        let d = #[trigger] parsed_diagnostics(s)[k];
        d.start <= d.end <= s.len()
    } by {
        if k < lines.len() {
            assert(parsed_diagnostics(s)[k] == lines[k]);
        }
    }
}

/// A source none of whose lines gives `STP` has `MissingStp` as its last diagnostic, at the
/// end of the source, whatever else it holds. No other source has a `MissingStp`.
pub proof fn lemma_missing_stop(s: Seq<u8>)
    requires
        s.len() <= usize::MAX,
    ensures
        !has_stop(parsed_instructions(s)) ==> parsed_diagnostics(s).len() > 0
            && parsed_diagnostics(s).last() == (Diagnostic {
            ty: DiagnosticType::MissingStp,
            start: s.len() as usize,
            end: s.len() as usize,
        }),
        has_stop(parsed_instructions(s)) ==> forall|k: int|
            0 <= k < parsed_diagnostics(s).len() ==> (#[trigger] parsed_diagnostics(s)[k]).ty
                != DiagnosticType::MissingStp,
{
    lemma_diagnostics_from(s, 0, 1);
}

/// Two parses of one source are the same: instruction for instruction and diagnostic for
/// diagnostic.
pub proof fn lemma_parse_is_a_function(source: &str, first: ParseResult, second: ParseResult)
    requires
        views(first.instructions@) == parsed_instructions(source.spec_bytes()),
        first.diagnostics@ == parsed_diagnostics(source.spec_bytes()),
        first.code@ == source@,
        views(second.instructions@) == parsed_instructions(source.spec_bytes()),
        second.diagnostics@ == parsed_diagnostics(source.spec_bytes()),
        second.code@ == source@,
    ensures
        views(first.instructions@) == views(second.instructions@),
        first.diagnostics@ == second.diagnostics@,
        first.code@ == second.code@,
{
}

} // verus!
