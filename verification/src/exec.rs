//! The data model of the register machine: value type tags, verbs,
//! errors and instructions.  The machine itself computes over
//! floating-point values and lives with the embedding program; these
//! types give its instructions and errors a checked shape.

use vstd::prelude::*;

verus! {

/// A register marker for instructions that take no second operand.
pub const INVALID_REGISTER: usize = usize::MAX;

/// The dynamic type of a register value.
#[derive(Debug, PartialEq, Eq, Clone, Copy, Structural)]
pub enum Type {
    Imprecise,
    Integer,
    Bool,
    Uncalculated,
}

/// What went wrong while executing a function.
#[derive(Debug)]
pub enum ExecError {
    Type(Verb, Type),
    Invalid(String),
    DivisionByZero,
}

/// An operation of the register machine.
#[derive(Debug, PartialEq, Eq, Clone, Copy, Structural)]
pub enum Verb {
    Add,
    Subtract,
    Multiply,
    Divide,
    Modulus,
    Is,
    Equal,
    Less,
    LessEqual,
    Greater,
    GreaterEqual,
    ShiftLeft,
    ShiftRight,
    ShiftRightSigned,
    And,
    Or,
    Xor,
    Not,
    Load,
}

/// One three-address instruction: `dst := src <verb> tgt`.
#[derive(Debug, PartialEq, Eq, Clone, Copy, Structural)]
pub struct Instruction {
    pub verb: Verb,
    pub src: usize,
    pub tgt: usize,
    pub dst: usize,
}

} // verus!
