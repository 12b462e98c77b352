//! What a program means, told on its syntax tree, and the proof that compiling it and
//! running the chunk comes to the same.

use crate::binterp::after_line;
use crate::binterp::apply;
use crate::binterp::arith;
use crate::binterp::execute;
use crate::binterp::execute_from;
use crate::binterp::format_line;
use crate::binterp::lemma_apply_failures;
use crate::binterp::line_of;
use crate::binterp::silent;
use crate::binterp::step;
use crate::binterp::Machine;
use crate::binterp::Outcome;
use crate::compiler::expr_code;
use crate::compiler::opcode_of_operator;
use crate::compiler::opcode_of_tag;
use crate::compiler::opcode_tag;
use crate::compiler::program_code;
use crate::compiler::stmt_code;
use crate::compiler::OpCode;
use crate::error::RuntimeError;
use crate::operand::be_bytes;
use crate::operand::lemma_operand_round_trip;
use crate::parser::Expr;
use crate::parser::Stmt;
use crate::parser::Value;
use vstd::prelude::*;

verus! {

/// The value of an expression: the left operand is worked out first, then the right
/// one, then the operator is applied; the first failure is the failure of the whole.
pub open spec fn eval_expr(expr: Expr) -> Result<Value, RuntimeError>
    decreases expr,
{
    match expr {
        Expr::Lit(v) => Ok(v),
        Expr::BinOp(op, left, right) => match eval_expr(*left) {
            Ok(l) => match eval_expr(*right) {
                Ok(r) => apply(op, l, r),
                Err(e) => Err(e),
            },
            Err(e) => Err(e),
        },
    }
}

/// The outcome of a program: its statements are worked out in order, each `Print`
/// writes the line of its value, and the first failure ends the program.
pub open spec fn eval_program(stmts: Seq<Stmt>) -> Outcome
    decreases stmts.len(),
{
    if stmts.len() == 0 {
        silent(Ok(()))
    } else {
        match stmts.first() {
            Stmt::ExprStmt(expr) => match eval_expr(expr) {
                Ok(_) => eval_program(stmts.drop_first()),
                Err(e) => silent(Err(e)),
            },
            Stmt::Print(expr) => match eval_expr(expr) {
                Ok(v) => after_line(line_of(v), eval_program(stmts.drop_first())),
                Err(e) => silent(Err(e)),
            },
        }
    }
}

/// Whether the bytes of `code` stand in `m`'s chunk at its instruction pointer.
pub open spec fn code_at(m: Machine, code: Seq<u8>) -> bool {
    0 <= m.ip && m.ip + code.len() <= m.chunk.len() && m.chunk.subrange(
        m.ip,
        m.ip + code.len(),
    ) == code
}

/// The machine once it has run code of `len` bytes that left `v` on the stack.
pub open spec fn pushed(m: Machine, len: nat, v: Value) -> Machine {
    Machine { ip: m.ip + len, stack: m.stack.push(v), ..m }
}

/// A machine that stands before the code of an expression runs it as the expression
/// evaluates: where the expression has a value, the run goes on after the code with
/// that value pushed, whatever the stack held; where it fails, the run ends with the
/// same failure, and nothing is printed on the way.
pub proof fn lemma_expr_code_runs(m: Machine, expr: Expr)
    requires
        code_at(m, expr_code(expr)),
    ensures
        execute_from(m) == match eval_expr(expr) {
            Ok(v) => execute_from(pushed(m, expr_code(expr).len(), v)),
            Err(e) => silent(Err(e)),
        },
    decreases expr,
{
    let code = expr_code(expr);
    match expr {
        Expr::Lit(Value::IntVal(d)) => {
            lemma_operand_round_trip(d);
            assert(code[0] == opcode_tag(OpCode::PushInt));
            assert(m.chunk[m.ip] == code[0]);
            assert(m.chunk.subrange(m.ip + 1, m.ip + 9) =~= be_bytes(d)) by {
                assert forall|k: int| 0 <= k < 8 implies m.chunk[m.ip + 1 + k] == be_bytes(d)[k] by {
                    assert(m.chunk[m.ip + 1 + k] == code[1 + k]);
                }
            }
        },
        Expr::BinOp(op, left, right) => {
            let cl = expr_code(*left);
            let cr = expr_code(*right);
            let tag = opcode_tag(opcode_of_operator(op));
            assert(code =~= cl + cr + seq![tag]);
            assert(m.chunk.subrange(m.ip, m.ip + cl.len()) =~= cl) by {
                assert forall|k: int| 0 <= k < cl.len() implies m.chunk[m.ip + k] == cl[k] by {
                    assert(m.chunk[m.ip + k] == code[k]);
                }
            }
            lemma_expr_code_runs(m, *left);
            match eval_expr(*left) {
                Ok(l) => {
                    let m1 = pushed(m, cl.len(), l);
                    assert(m1.chunk.subrange(m1.ip, m1.ip + cr.len()) =~= cr) by {
                        assert forall|k: int| 0 <= k < cr.len() implies m1.chunk[m1.ip + k]
                            == cr[k] by {
                            assert(m.chunk[m.ip + cl.len() + k] == code[cl.len() + k]);
                        }
                    }
                    lemma_expr_code_runs(m1, *right);
                    match eval_expr(*right) {
                        Ok(r) => {
                            let m2 = pushed(m1, cr.len(), r);
                            assert(m2.chunk[m2.ip] == tag) by {
                                assert(m.chunk[m.ip + cl.len() + cr.len()] == code[(cl.len()
                                    + cr.len()) as int]);
                            }
                            assert(opcode_of_tag(tag) == Ok::<OpCode, RuntimeError>(
                                opcode_of_operator(op),
                            ));
                            match apply(op, l, r) {
                                Ok(v) => {
                                    assert(m2.stack.take(m2.stack.len() - 2).push(v)
                                        =~= m.stack.push(v));
                                    assert(step(m2) == crate::binterp::Transition::Advance(
                                        pushed(m, code.len(), v),
                                    ));
                                },
                                Err(e) => {
                                    assert(step(m2) == crate::binterp::Transition::Fault(e));
                                },
                            }
                        },
                        Err(_) => {},
                    }
                },
                Err(_) => {},
            }
        },
    }
}

/// A machine that stands before the chunk of a program, with nothing after it, runs it
/// as the program evaluates, whatever its stack holds.
pub proof fn lemma_program_code_runs(m: Machine, stmts: Seq<Stmt>)
    requires
        0 <= m.ip <= m.chunk.len(),
        m.chunk.subrange(m.ip, m.chunk.len() as int) == program_code(stmts),
    ensures
        execute_from(m) == eval_program(stmts),
    decreases stmts.len(),
{
    let rest_code = m.chunk.subrange(m.ip, m.chunk.len() as int);
    if stmts.len() == 0 {
        assert(rest_code.len() == 0);
    } else {
        let first = stmts.first();
        let rest = stmts.drop_first();
        let expr = match first {
            Stmt::ExprStmt(e) => e,
            Stmt::Print(e) => e,
        };
        let ce = expr_code(expr);
        let cs = stmt_code(first);
        assert(rest_code =~= cs + program_code(rest));
        assert(m.chunk.subrange(m.ip, m.ip + ce.len()) =~= ce) by {
            assert forall|k: int| 0 <= k < ce.len() implies m.chunk[m.ip + k] == ce[k] by {
                assert(m.chunk[m.ip + k] == rest_code[k]);
                assert(cs[k] == ce[k]);
            }
        }
        lemma_expr_code_runs(m, expr);
        match eval_expr(expr) {
            Ok(v) => {
                let m1 = pushed(m, ce.len(), v);
                match first {
                    Stmt::ExprStmt(_) => {
                        assert(m1.chunk.subrange(m1.ip, m1.chunk.len() as int) =~= program_code(
                            rest,
                        )) by {
                            assert forall|k: int| 0 <= k < program_code(rest).len() implies
                                m1.chunk[m1.ip + k] == program_code(rest)[k] by {
                                assert(m.chunk[m.ip + ce.len() + k] == rest_code[ce.len() + k]);
                            }
                        }
                        lemma_program_code_runs(m1, rest);
                    },
                    Stmt::Print(_) => {
                        assert(m1.chunk[m1.ip] == opcode_tag(OpCode::PrintTop)) by {
                            assert(m.chunk[m.ip + ce.len()] == rest_code[ce.len() as int]);
                            assert(cs[ce.len() as int] == opcode_tag(OpCode::PrintTop));
                        }
                        let m2 = Machine { ip: m1.ip + 1, stack: m.stack, ..m };
                        assert(m1.stack.drop_last() =~= m.stack);
                        assert(m1.stack.last() == v);
                        assert(step(m1) == crate::binterp::Transition::Emit(m2, v));
                        assert(m2.chunk.subrange(m2.ip, m2.chunk.len() as int) =~= program_code(
                            rest,
                        )) by {
                            assert forall|k: int| 0 <= k < program_code(rest).len() implies
                                m2.chunk[m2.ip + k] == program_code(rest)[k] by {
                                assert(m.chunk[m.ip + cs.len() + k] == rest_code[cs.len() + k]);
                            }
                        }
                        lemma_program_code_runs(m2, rest);
                    },
                }
            },
            Err(_) => {},
        }
    }
}

/// Compiling a program and running its chunk prints what the program prints and ends
/// as the program ends.
pub proof fn lemma_compile_then_run(stmts: Seq<Stmt>)
    ensures
        execute(program_code(stmts)) == eval_program(stmts),
{
    let chunk = program_code(stmts);
    assert(chunk.subrange(0, chunk.len() as int) =~= chunk);
    lemma_program_code_runs(crate::binterp::initial(chunk), stmts);
}

/// An expression fails for want of a divisor or of room for a result, and for nothing
/// else.
pub proof fn lemma_eval_failures(expr: Expr)
    ensures
        eval_expr(expr) matches Err(e) ==> e == RuntimeError::DivisionByZero || e
            == RuntimeError::ArithmeticOverflow,
    decreases expr,
{
    match expr {
        Expr::Lit(_) => {},
        Expr::BinOp(op, left, right) => {
            lemma_eval_failures(*left);
            lemma_eval_failures(*right);
            if let (Ok(l), Ok(r)) = (eval_expr(*left), eval_expr(*right)) {
                lemma_apply_failures(op, l, r);
            }
        },
    }
}

/// A program fails as one of its expressions fails.
pub proof fn lemma_program_failures(stmts: Seq<Stmt>)
    ensures
        eval_program(stmts).result matches Err(e) ==> e == RuntimeError::DivisionByZero || e
            == RuntimeError::ArithmeticOverflow,
    decreases stmts.len(),
{
    if stmts.len() > 0 {
        match stmts.first() {
            Stmt::ExprStmt(expr) => {
                lemma_eval_failures(expr);
            },
            Stmt::Print(expr) => {
                lemma_eval_failures(expr);
            },
        }
        lemma_program_failures(stmts.drop_first());
    }
}

/// The chunk of a program is well formed: run from its start, it never underflows the
/// stack, never meets a byte that is no opcode, and never lacks an operand byte. It
/// fails only where arithmetic fails.
pub proof fn lemma_compiled_chunk_runs_clean(stmts: Seq<Stmt>)
    ensures
        execute(program_code(stmts)).result matches Err(e) ==> e == RuntimeError::DivisionByZero
            || e == RuntimeError::ArithmeticOverflow,
{
    lemma_compile_then_run(stmts);
    lemma_program_failures(stmts);
}

/// Works out the value of an expression on its tree.
pub fn evaluate_expr(expr: &Expr) -> (r: Result<Value, RuntimeError>)
    ensures
        r == eval_expr(*expr),
    decreases expr,
{
    match expr {
        Expr::Lit(v) => Ok(*v),
        Expr::BinOp(op, left, right) => {
            let l = evaluate_expr(left)?;
            let r = evaluate_expr(right)?;
            arith(*op, l, r)
        },
    }
}

/// Runs a program on its tree, appending to `out` the line of each value it prints.
///
/// This is the reference that the compiler and the virtual machine are held to: for
/// every program, `run(compile(stmts), out)` returns the same and writes the same.
pub fn evaluate(stmts: &Vec<Stmt>, out: &mut Vec<u8>) -> (r: Result<(), RuntimeError>)
    ensures
        r == eval_program(stmts@).result,
        final(out)@ == old(out)@ + eval_program(stmts@).output,
        r == execute(program_code(stmts@)).result,
        final(out)@ == old(out)@ + execute(program_code(stmts@)).output,
{
    proof {
        lemma_compile_then_run(stmts@);
    }
    let ghost mut written: Seq<u8> = Seq::empty();
    let mut i: usize = 0;
    proof {
        assert(stmts@.skip(0) =~= stmts@);
        assert(old(out)@ + written =~= old(out)@);
        assert(written + eval_program(stmts@).output =~= eval_program(stmts@).output);
    }
    while i < stmts.len()
        invariant
            i <= stmts.len(),
            out@ == old(out)@ + written,
            execute(program_code(stmts@)) == eval_program(stmts@),
            eval_program(stmts@).output == written + eval_program(stmts@.skip(i as int)).output,
            eval_program(stmts@).result == eval_program(stmts@.skip(i as int)).result,
        decreases stmts.len() - i,
    {
        let ghost rest = stmts@.skip(i as int);
        proof {
            assert(rest.first() == stmts@[i as int]);
            assert(rest.drop_first() =~= stmts@.skip(i + 1));
        }
        match &stmts[i] {
            Stmt::ExprStmt(expr) => {
                match evaluate_expr(expr) {
                    Ok(_) => {},
                    Err(e) => {
                        proof {
                            assert(written + Seq::<u8>::empty() =~= written);
                        }
                        return Err(e);
                    },
                }
            },
            Stmt::Print(expr) => {
                match evaluate_expr(expr) {
                    Ok(v) => {
                        let mut line = format_line(v);
                        out.append(&mut line);
                        proof {
                            let more = eval_program(stmts@.skip(i + 1)).output;
                            assert(written + (line_of(v) + more) =~= (written + line_of(v))
                                + more);
                            written = written + line_of(v);
                            assert(out@ =~= old(out)@ + written);
                        }
                    },
                    Err(e) => {
                        proof {
                            assert(written + Seq::<u8>::empty() =~= written);
                        }
                        return Err(e);
                    },
                }
            },
        }
        i = i + 1;
    }
    proof {
        assert(stmts@.skip(stmts@.len() as int) =~= Seq::<Stmt>::empty());
        assert(written + Seq::<u8>::empty() =~= written);
    }
    Ok(())
}

} // verus!
