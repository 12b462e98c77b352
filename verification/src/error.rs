//! The failures each stage can report.

use vstd::prelude::*;

verus! {

/// Why the lexer rejected a source text.
#[derive(Clone, Copy, Debug, PartialEq, Eq)]
pub enum LexError {
    /// A character that starts no token and is not blank.
    UnknownCharacter(char),
}

/// Why the parser rejected a token sequence.
#[derive(Clone, Copy, Debug, PartialEq, Eq)]
pub enum ParseError {
    /// A token that cannot stand where it was found.
    UnexpectedToken,
    /// The tokens ran out where a semicolon was due.
    UnexpectedEnd,
    /// An integer literal was due and something else, or nothing, was found.
    ExpectedLiteral,
    /// A literal whose value does not fit in a signed 64-bit integer.
    LiteralOutOfRange,
}

/// Why the virtual machine stopped before the end of its chunk.
#[derive(Clone, Copy, Debug, PartialEq, Eq)]
pub enum RuntimeError {
    /// An instruction needed more operands than the stack held.
    StackUnderflow,
    /// Fewer than eight bytes followed a `PushInt` tag.
    TruncatedOperand,
    /// A byte that is no opcode tag stood where an instruction was due.
    UnknownOpcode(u8),
    /// The right operand of a division was zero.
    DivisionByZero,
    /// A result does not fit in a signed 64-bit integer.
    ArithmeticOverflow,
    /// The sink refused a line of output.
    SinkWriteFailed,
}

/// A failure of the whole pipeline, tagged with the stage that reported it.
#[derive(Clone, Copy, Debug, PartialEq, Eq)]
pub enum Error {
    Lex(LexError),
    Parse(ParseError),
    Runtime(RuntimeError),
}

} // verus!
