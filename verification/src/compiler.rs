//! The instruction set, and the compiler from syntax trees to bytecode.

use crate::error::RuntimeError;
use crate::operand::be_bytes;
use crate::operand::push_operand;
use crate::parser::Expr;
use crate::parser::Operator;
use crate::parser::Stmt;
use crate::parser::Value;
use vstd::prelude::*;
use vstd::std_specs::convert::FromSpecImpl;
use vstd::std_specs::convert::TryFromSpecImpl;

verus! {

/// An instruction of the virtual machine. Each has a tag of one byte; `PushInt` alone is
/// followed by an operand, of eight bytes.
#[derive(Clone, Copy, PartialEq, Eq, Debug)]
pub enum OpCode {
    NoOp,
    PushInt,
    PrintTop,
    Add,
    Sub,
    Mul,
    Div,
}

/// The byte that stands for an instruction in a chunk.
pub open spec fn opcode_tag(op: OpCode) -> u8 {
    match op {
        OpCode::NoOp => 0x00,
        OpCode::PushInt => 0x01,
        OpCode::PrintTop => 0x02,
        OpCode::Add => 0x03,
        OpCode::Sub => 0x04,
        OpCode::Mul => 0x05,
        OpCode::Div => 0x06,
    }
}

/// The instruction that a byte stands for, where it stands for one.
pub open spec fn opcode_of_tag(byte: u8) -> Result<OpCode, RuntimeError> {
    if byte == 0x00 {
        Ok(OpCode::NoOp)
    } else if byte == 0x01 {
        Ok(OpCode::PushInt)
    } else if byte == 0x02 {
        Ok(OpCode::PrintTop)
    } else if byte == 0x03 {
        Ok(OpCode::Add)
    } else if byte == 0x04 {
        Ok(OpCode::Sub)
    } else if byte == 0x05 {
        Ok(OpCode::Mul)
    } else if byte == 0x06 {
        Ok(OpCode::Div)
    } else {
        Err(RuntimeError::UnknownOpcode(byte))
    }
}

/// The instruction that carries out an operator.
pub open spec fn opcode_of_operator(op: Operator) -> OpCode {
    match op {
        Operator::ADD => OpCode::Add,
        Operator::SUB => OpCode::Sub,
        Operator::MUL => OpCode::Mul,
        Operator::DIV => OpCode::Div,
    }
}

/// Tags and instructions correspond one to one: every instruction is read back from its
/// tag, a byte that is read as an instruction is that instruction's tag, and the bytes
/// that are read as one are those from 0 to 6.
pub proof fn lemma_opcode_table(op: OpCode, byte: u8)
    ensures
        opcode_of_tag(opcode_tag(op)) == Ok::<OpCode, RuntimeError>(op),
        opcode_of_tag(byte) == Ok::<OpCode, RuntimeError>(op) <==> opcode_tag(op) == byte,
        opcode_of_tag(byte) is Ok <==> byte <= 6,
        opcode_of_tag(byte) is Err ==> opcode_of_tag(byte) == Err::<OpCode, RuntimeError>(
            RuntimeError::UnknownOpcode(byte),
        ),
{
}

impl From<Operator> for OpCode {
    fn from(value: Operator) -> (code: OpCode) {
        match value {
            Operator::ADD => OpCode::Add,
            Operator::SUB => OpCode::Sub,
            Operator::MUL => OpCode::Mul,
            Operator::DIV => OpCode::Div,
        }
    }
}

impl FromSpecImpl<Operator> for OpCode {
    open spec fn obeys_from_spec() -> bool {
        true
    }

    open spec fn from_spec(value: Operator) -> OpCode {
        opcode_of_operator(value)
    }
}

impl From<OpCode> for u8 {
    fn from(value: OpCode) -> (byte: u8) {
        match value {
            OpCode::NoOp => 0x00,
            OpCode::PushInt => 0x01,
            OpCode::PrintTop => 0x02,
            OpCode::Add => 0x03,
            OpCode::Sub => 0x04,
            OpCode::Mul => 0x05,
            OpCode::Div => 0x06,
        }
    }
}

impl FromSpecImpl<OpCode> for u8 {
    open spec fn obeys_from_spec() -> bool {
        true
    }

    open spec fn from_spec(value: OpCode) -> u8 {
        opcode_tag(value)
    }
}

impl TryFrom<u8> for OpCode {
    type Error = RuntimeError;

    fn try_from(value: u8) -> (code: Result<OpCode, RuntimeError>) {
        match value {
            0 => Ok(OpCode::NoOp),
            1 => Ok(OpCode::PushInt),
            2 => Ok(OpCode::PrintTop),
            3 => Ok(OpCode::Add),
            4 => Ok(OpCode::Sub),
            5 => Ok(OpCode::Mul),
            6 => Ok(OpCode::Div),
            x => Err(RuntimeError::UnknownOpcode(x)),
        }
    }
}

impl TryFromSpecImpl<u8> for OpCode {
    open spec fn obeys_try_from_spec() -> bool {
        true
    }

    open spec fn try_from_spec(value: u8) -> Result<OpCode, RuntimeError> {
        opcode_of_tag(value)
    }
}

/// The code of an expression: the code of its left operand, that of its right operand,
/// then the instruction of its operator; for a literal, `PushInt` and the operand.
pub open spec fn expr_code(expr: Expr) -> Seq<u8>
    decreases expr,
{
    match expr {
        Expr::Lit(Value::IntVal(d)) => seq![opcode_tag(OpCode::PushInt)] + be_bytes(d),
        Expr::BinOp(op, left, right) => expr_code(*left) + expr_code(*right) + seq![
            opcode_tag(opcode_of_operator(op)),
        ],
    }
}

/// The code of a statement: that of its expression, and `PrintTop` where it prints.
pub open spec fn stmt_code(stmt: Stmt) -> Seq<u8> {
    match stmt {
        Stmt::ExprStmt(expr) => expr_code(expr),
        Stmt::Print(expr) => expr_code(expr) + seq![opcode_tag(OpCode::PrintTop)],
    }
}

/// The chunk of a program: the code of its statements, one after the other, with
/// nothing between them.
pub open spec fn program_code(stmts: Seq<Stmt>) -> Seq<u8>
    decreases stmts.len(),
{
    if stmts.len() == 0 {
        Seq::empty()
    } else {
        stmt_code(stmts.first()) + program_code(stmts.drop_first())
    }
}

/// The chunk of a program with one more statement at its end.
pub proof fn lemma_program_code_push(stmts: Seq<Stmt>, stmt: Stmt)
    ensures
        program_code(stmts.push(stmt)) == program_code(stmts) + stmt_code(stmt),
    decreases stmts.len(),
{
    if stmts.len() == 0 {
        let one = stmts.push(stmt);
        assert(one.first() == stmt);
        assert(one.drop_first() =~= Seq::<Stmt>::empty());
        assert(program_code(one.drop_first()) =~= Seq::<u8>::empty());
        assert(program_code(one) =~= stmt_code(stmt));
        assert(program_code(stmts) + stmt_code(stmt) =~= stmt_code(stmt));
    } else {
        assert(stmts.push(stmt).drop_first() =~= stmts.drop_first().push(stmt));
        lemma_program_code_push(stmts.drop_first(), stmt);
        assert(stmt_code(stmts.first()) + (program_code(stmts.drop_first()) + stmt_code(stmt))
            =~= (stmt_code(stmts.first()) + program_code(stmts.drop_first())) + stmt_code(stmt));
    }
}

/// Appends the code of `expr` to `code`.
fn compile_expr(expr: &Expr, code: &mut Vec<u8>)
    ensures
        final(code)@ == old(code)@ + expr_code(*expr),
    decreases expr,
{
    match expr {
        Expr::Lit(Value::IntVal(d)) => {
            code.push(OpCode::PushInt.into());
            push_operand(code, *d);
            assert(code@ =~= old(code)@ + expr_code(*expr));
        },
        Expr::BinOp(op, left, right) => {
            compile_expr(left, code);
            compile_expr(right, code);
            let opcode: OpCode = (*op).into();
            code.push(opcode.into());
            assert(code@ =~= old(code)@ + expr_code(*expr));
        },
    }
}

/// Appends the code of `stmt` to `code`.
fn compile_stmt(stmt: &Stmt, code: &mut Vec<u8>)
    ensures
        final(code)@ == old(code)@ + stmt_code(*stmt),
{
    match stmt {
        Stmt::ExprStmt(expr) => {
            compile_expr(expr, code);
        },
        Stmt::Print(expr) => {
            compile_expr(expr, code);
            code.push(OpCode::PrintTop.into());
            assert(code@ =~= old(code)@ + stmt_code(*stmt));
        },
    }
}

/// Compiles a program to its chunk.
///
/// Operands come before their operator, the left one first, so that the machine finds
/// both on its stack, the right one on top. Nothing marks where a statement ends.
pub fn compile(stmts: Vec<Stmt>) -> (chunk: Vec<u8>)
    ensures
        chunk@ == program_code(stmts@),
{
    let mut chunk: Vec<u8> = Vec::new();
    let mut i: usize = 0;
    while i < stmts.len()
        invariant
            i <= stmts.len(),
            chunk@ == program_code(stmts@.take(i as int)),
        decreases stmts.len() - i,
    {
        compile_stmt(&stmts[i], &mut chunk);
        proof {
            assert(stmts@.take(i + 1) =~= stmts@.take(i as int).push(stmts@[i as int]));
            lemma_program_code_push(stmts@.take(i as int), stmts@[i as int]);
        }
        i = i + 1;
    }
    proof {
        assert(stmts@.take(stmts@.len() as int) =~= stmts@);
    }
    chunk
}

} // verus!
