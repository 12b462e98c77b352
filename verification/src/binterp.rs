//! The virtual machine: a stack machine that runs a chunk from its first byte to its last.

use crate::compiler::opcode_of_tag;
use crate::compiler::OpCode;
use crate::decimal::decimal_line;
use crate::decimal::format_decimal;
use crate::error::RuntimeError;
use crate::operand::be_value;
use crate::operand::read_operand;
use crate::parser::Operator;
use crate::parser::Value;
use vstd::prelude::*;

verus! {

/// The quotient of `x` by `d` rounded toward zero, as the division of machine integers
/// rounds it.
pub open spec fn truncating_quotient(x: int, d: int) -> int
    recommends
        d != 0,
{
    if x >= 0 && d > 0 {
        x / d
    } else if x < 0 && d < 0 {
        (-x) / (-d)
    } else if x < 0 {
        -((-x) / d)
    } else {
        -(x / (-d))
    }
}

/// The exact result of an operator on two integers, before any question of range.
pub open spec fn exact_result(op: Operator, x: int, y: int) -> int {
    match op {
        Operator::ADD => x + y,
        Operator::SUB => x - y,
        Operator::MUL => x * y,
        Operator::DIV => truncating_quotient(x, y),
    }
}

/// What an operator makes of a left and a right operand: division by zero fails as
/// such, a result outside the signed 64-bit range fails as an overflow, and every other
/// result is the exact one.
pub open spec fn apply(op: Operator, left: Value, right: Value) -> Result<Value, RuntimeError> {
    match (left, right) {
        (Value::IntVal(x), Value::IntVal(y)) => {
            if op == Operator::DIV && y == 0 {
                Err(RuntimeError::DivisionByZero)
            } else if exact_result(op, x as int, y as int) < i64::MIN || exact_result(
                op,
                x as int,
                y as int,
            ) > i64::MAX {
                Err(RuntimeError::ArithmeticOverflow)
            } else {
                Ok(Value::IntVal(exact_result(op, x as int, y as int) as i64))
            }
        },
    }
}

/// The line that printing a value adds to the output.
pub open spec fn line_of(v: Value) -> Seq<u8> {
    match v {
        Value::IntVal(d) => decimal_line(d),
    }
}

/// The machine between two instructions: the chunk it runs, the offset of the next
/// instruction, and the operand stack, its top last.
pub struct Machine {
    pub chunk: Seq<u8>,
    pub ip: int,
    pub stack: Seq<Value>,
}

/// What one instruction does to the machine.
pub enum Transition {
    /// No instruction is left: the run ends normally.
    Halt,
    /// The machine goes on in the given state.
    Advance(Machine),
    /// The machine goes on in the given state, once the value is printed.
    Emit(Machine, Value),
    /// The run ends with an error.
    Fault(RuntimeError),
}

/// The machine as it starts on a chunk.
pub open spec fn initial(chunk: Seq<u8>) -> Machine {
    Machine { chunk, ip: 0, stack: Seq::empty() }
}

/// An arithmetic instruction: the right operand is on top, the left one below it, and
/// the result takes the place of both.
pub open spec fn binary_step(m: Machine, op: Operator) -> Transition {
    if m.stack.len() < 2 {
        Transition::Fault(RuntimeError::StackUnderflow)
    } else {
        match apply(op, m.stack[m.stack.len() - 2], m.stack[m.stack.len() - 1]) {
            Ok(v) => Transition::Advance(
                Machine { ip: m.ip + 1, stack: m.stack.take(m.stack.len() - 2).push(v), ..m },
            ),
            Err(e) => Transition::Fault(e),
        }
    }
}

/// The effect of the instruction at `m.ip`.
pub open spec fn step(m: Machine) -> Transition {
    if !(0 <= m.ip < m.chunk.len()) {
        Transition::Halt
    } else {
        match opcode_of_tag(m.chunk[m.ip]) {
            Err(e) => Transition::Fault(e),
            Ok(OpCode::NoOp) => Transition::Advance(Machine { ip: m.ip + 1, ..m }),
            Ok(OpCode::PushInt) => if m.ip + 9 <= m.chunk.len() {
                Transition::Advance(
                    Machine {
                        ip: m.ip + 9,
                        stack: m.stack.push(
                            Value::IntVal(be_value(m.chunk.subrange(m.ip + 1, m.ip + 9))),
                        ),
                        ..m
                    },
                )
            } else {
                Transition::Fault(RuntimeError::TruncatedOperand)
            },
            Ok(OpCode::PrintTop) => if m.stack.len() == 0 {
                Transition::Fault(RuntimeError::StackUnderflow)
            } else {
                Transition::Emit(
                    Machine { ip: m.ip + 1, stack: m.stack.drop_last(), ..m },
                    m.stack.last(),
                )
            },
            Ok(OpCode::Add) => binary_step(m, Operator::ADD),
            Ok(OpCode::Sub) => binary_step(m, Operator::SUB),
            Ok(OpCode::Mul) => binary_step(m, Operator::MUL),
            Ok(OpCode::Div) => binary_step(m, Operator::DIV),
        }
    }
}

/// Where a run stops to let its host act.
pub enum Pause {
    /// A value waits to be printed; afterwards the run goes on in the given state.
    Line(Machine, Value),
    /// The run is over.
    Done(Result<(), RuntimeError>),
}

/// The run from `m` up to its next print, or to its end.
pub open spec fn run_to_pause(m: Machine) -> Pause
    decreases m.chunk.len() - m.ip,
{
    match step(m) {
        Transition::Halt => Pause::Done(Ok(())),
        Transition::Fault(e) => Pause::Done(Err(e)),
        Transition::Advance(next) => run_to_pause(next),
        Transition::Emit(next, v) => Pause::Line(next, v),
    }
}

/// What a run shows of itself: the bytes it wrote and how it ended.
pub struct Outcome {
    pub output: Seq<u8>,
    pub result: Result<(), RuntimeError>,
}

/// The outcome of a run that writes `line` and then goes on as `rest` says.
pub open spec fn after_line(line: Seq<u8>, rest: Outcome) -> Outcome {
    Outcome { output: line + rest.output, result: rest.result }
}

/// The outcome of a run that writes nothing and ends with `result`.
pub open spec fn silent(result: Result<(), RuntimeError>) -> Outcome {
    Outcome { output: Seq::empty(), result }
}

/// The outcome of the run from `m` to its end, every write succeeding.
pub open spec fn execute_from(m: Machine) -> Outcome
    decreases m.chunk.len() - m.ip,
{
    match step(m) {
        Transition::Halt => silent(Ok(())),
        Transition::Fault(e) => silent(Err(e)),
        Transition::Advance(next) => execute_from(next),
        Transition::Emit(next, v) => after_line(line_of(v), execute_from(next)),
    }
}

/// The outcome of running a chunk from its first byte on an empty stack.
pub open spec fn execute(chunk: Seq<u8>) -> Outcome {
    execute_from(initial(chunk))
}

/// The instruction pointer only ever grows, and stays within the chunk; the chunk
/// itself never changes.
pub proof fn lemma_step_progress(m: Machine)
    ensures
        step(m) matches Transition::Advance(next) ==> next.chunk == m.chunk && 0 <= m.ip < next.ip
            <= m.chunk.len(),
        step(m) matches Transition::Emit(next, _) ==> next.chunk == m.chunk && 0 <= m.ip < next.ip
            <= m.chunk.len(),
{
}

/// A run that pauses for a print has moved on in the same chunk, and not past its end.
pub proof fn lemma_pause_progress(m: Machine)
    ensures
        run_to_pause(m) matches Pause::Line(next, _) ==> next.chunk == m.chunk && m.ip < next.ip
            <= m.chunk.len() && 0 <= m.ip,
    decreases m.chunk.len() - m.ip,
{
    match step(m) {
        Transition::Advance(next) => {
            lemma_step_progress(m);
            lemma_pause_progress(next);
        },
        _ => {},
    }
}

/// A run is its pauses, one after the other.
pub proof fn lemma_execute_by_pauses(m: Machine)
    ensures
        execute_from(m) == match run_to_pause(m) {
            Pause::Line(next, v) => after_line(line_of(v), execute_from(next)),
            Pause::Done(result) => silent(result),
        },
    decreases m.chunk.len() - m.ip,
{
    match step(m) {
        Transition::Advance(next) => {
            lemma_execute_by_pauses(next);
        },
        _ => {},
    }
}

/// An operator fails for want of a divisor or of room for its result, and for nothing
/// else.
pub proof fn lemma_apply_failures(op: Operator, left: Value, right: Value)
    ensures
        apply(op, left, right) matches Err(e) ==> e == RuntimeError::DivisionByZero || e
            == RuntimeError::ArithmeticOverflow,
        apply(op, left, right) == Err::<Value, RuntimeError>(RuntimeError::DivisionByZero) <==> op
            == Operator::DIV && right == Value::IntVal(0),
{
}

/// No run fails on its own account with `SinkWriteFailed`: that is the host's news.
pub proof fn lemma_execute_never_blames_sink(m: Machine)
    ensures
        execute_from(m).result != Err::<(), RuntimeError>(RuntimeError::SinkWriteFailed),
        !(run_to_pause(m) matches Pause::Done(Err(RuntimeError::SinkWriteFailed))),
    decreases m.chunk.len() - m.ip,
{
    match step(m) {
        Transition::Advance(next) => {
            lemma_execute_never_blames_sink(next);
        },
        Transition::Emit(next, _) => {
            lemma_execute_never_blames_sink(next);
        },
        _ => {},
    }
}

/// Running the same chunk twice, each time on a sink that holds nothing yet, writes the
/// same bytes and ends the same way: a run depends on its chunk alone.
pub proof fn lemma_run_repeatable(
    chunk: Seq<u8>,
    first_output: Seq<u8>,
    first_result: Result<(), RuntimeError>,
    second_output: Seq<u8>,
    second_result: Result<(), RuntimeError>,
)
    requires
        first_result == execute(chunk).result,
        first_output == Seq::<u8>::empty() + execute(chunk).output,
        second_result == execute(chunk).result,
        second_output == Seq::<u8>::empty() + execute(chunk).output,
    ensures
        first_output == second_output,
        first_result == second_result,
{
}

/// Carries out `op` on two values.
pub fn arith(op: Operator, left: Value, right: Value) -> (r: Result<Value, RuntimeError>)
    ensures
        r == apply(op, left, right),
{
    match (left, right) {
        (Value::IntVal(x), Value::IntVal(y)) => {
            let exact = match op {
                Operator::ADD => x.checked_add(y),
                Operator::SUB => x.checked_sub(y),
                Operator::MUL => x.checked_mul(y),
                Operator::DIV => {
                    if y == 0 {
                        return Err(RuntimeError::DivisionByZero);
                    }
                    x.checked_div(y)
                },
            };
            match exact {
                Some(v) => Ok(Value::IntVal(v)),
                None => Err(RuntimeError::ArithmeticOverflow),
            }
        },
    }
}

/// The bytes that printing `v` sends to the sink.
pub fn format_line(v: Value) -> (line: Vec<u8>)
    ensures
        line@ == line_of(v),
{
    match v {
        Value::IntVal(d) => {
            let mut line = format_decimal(d);
            line.push(10u8);
            line
        },
    }
}

/// A virtual machine on its chunk.
pub struct Vm {
    chunk: Vec<u8>,
    ip: usize,
    val_stack: Vec<Value>,
}

/// What a machine asks of its host when it stops.
pub enum Action {
    /// Write `line` to the sink, then resume `next` with the news of how the write went.
    Write { line: Vec<u8>, next: Vm },
    /// Nothing: the run is over, and this is how it ended.
    Finish(Result<(), RuntimeError>),
}

impl View for Vm {
    type V = Machine;

    closed spec fn view(&self) -> Machine {
        Machine { chunk: self.chunk@, ip: self.ip as int, stack: self.val_stack@ }
    }
}

/// What a machine in state `m` asks of its host: to give up where the last write
/// failed, else whatever the run comes to next.
pub open spec fn resume_spec(m: Machine, sink_ok: bool) -> Pause {
    if sink_ok {
        run_to_pause(m)
    } else {
        Pause::Done(Err(RuntimeError::SinkWriteFailed))
    }
}

/// Whether `action` is what a run that stops at `pause` asks for.
pub open spec fn action_matches(action: Action, pause: Pause) -> bool {
    match pause {
        Pause::Line(m, v) => action matches Action::Write { line, next } && line@ == line_of(v)
            && next@ == m,
        Pause::Done(result) => action matches Action::Finish(r) && r == result,
    }
}

impl Vm {
    /// A machine about to run `chunk`: at its first byte, on an empty stack.
    pub fn new(chunk: Vec<u8>) -> (vm: Vm)
        ensures
            vm@ == initial(chunk@),
    {
        Vm { chunk, ip: 0, val_stack: Vec::new() }
    }

    /// Fetches the byte at the instruction pointer and moves past it; `None` at the end
    /// of the chunk.
    fn read(&mut self) -> (byte: Option<u8>)
        ensures
            final(self)@.chunk == old(self)@.chunk,
            final(self)@.stack == old(self)@.stack,
            match byte {
                Some(b) => old(self)@.ip < old(self)@.chunk.len() && b == old(self)@.chunk[old(
                    self,
                )@.ip] && final(self)@.ip == old(self)@.ip + 1,
                None => old(self)@.ip >= old(self)@.chunk.len() && final(self)@.ip == old(
                    self,
                )@.ip,
            },
    {
        if self.ip < self.chunk.len() {
            let b = self.chunk[self.ip];
            self.ip = self.ip + 1;
            Some(b)
        } else {
            None
        }
    }

    /// Fetches the operand at the instruction pointer and moves past it, where eight
    /// bytes are left.
    fn read_int(&mut self) -> (r: Result<Value, RuntimeError>)
        requires
            old(self)@.ip <= old(self)@.chunk.len(),
        ensures
            final(self)@.chunk == old(self)@.chunk,
            final(self)@.stack == old(self)@.stack,
            match r {
                Ok(v) => old(self)@.ip + 8 <= old(self)@.chunk.len() && v == Value::IntVal(
                    be_value(
                        old(self)@.chunk.subrange(old(self)@.ip, old(self)@.ip + 8),
                    ),
                ) && final(self)@.ip == old(self)@.ip + 8,
                Err(e) => old(self)@.ip + 8 > old(self)@.chunk.len()
                    && e == RuntimeError::TruncatedOperand && final(self)@.ip == old(self)@.ip,
            },
    {
        if self.chunk.len() - self.ip < 8 {
            return Err(RuntimeError::TruncatedOperand);
        }
        let d = read_operand(&self.chunk, self.ip);
        self.ip = self.ip + 8;
        Ok(Value::IntVal(d))
    }

    /// Carries out an arithmetic instruction on the two topmost values.
    fn binary(&mut self, op: Operator) -> (r: Result<(), RuntimeError>)
        requires
            0 < old(self)@.ip <= old(self)@.chunk.len(),
        ensures
            match binary_step(Machine { ip: old(self)@.ip - 1, ..old(self)@ }, op) {
                Transition::Advance(next) => r is Ok && final(self)@ == next,
                Transition::Fault(e) => r == Err::<(), RuntimeError>(e),
                _ => false,
            },
    {
        let right = match self.val_stack.pop() {
            Some(v) => v,
            None => {
                return Err(RuntimeError::StackUnderflow);
            },
        };
        let left = match self.val_stack.pop() {
            Some(v) => v,
            None => {
                return Err(RuntimeError::StackUnderflow);
            },
        };
        let v = arith(op, left, right)?;
        self.val_stack.push(v);
        proof {
            let before = old(self)@.stack;
            assert(before.subrange(0, before.len() - 1).subrange(0, before.len() - 2)
                =~= before.take(before.len() - 2));
        }
        Ok(())
    }

    /// Runs the machine until it has a line to write or its run is over.
    ///
    /// `sink_ok` tells how the write went that the machine asked for last, and is
    /// `true` for a machine that has asked for none yet. After a failed write the run
    /// ends at once with `SinkWriteFailed`.
    pub fn resume(self, sink_ok: bool) -> (action: Action)
        ensures
            action_matches(action, resume_spec(self@, sink_ok)),
    {
        if !sink_ok {
            return Action::Finish(Err(RuntimeError::SinkWriteFailed));
        }
        let mut vm = self;
        loop
            invariant
                sink_ok,
                run_to_pause(vm@) == run_to_pause(self@),
            decreases vm@.chunk.len() - vm@.ip,
        {
            let ghost before = vm@;
            let byte = match vm.read() {
                Some(b) => b,
                None => {
                    return Action::Finish(Ok(()));
                },
            };
            let code = match OpCode::try_from(byte) {
                Ok(code) => code,
                Err(e) => {
                    return Action::Finish(Err(e));
                },
            };
            match code {
                OpCode::NoOp => {},
                OpCode::PushInt => {
                    match vm.read_int() {
                        Ok(v) => {
                            vm.val_stack.push(v);
                        },
                        Err(e) => {
                            return Action::Finish(Err(e));
                        },
                    }
                },
                OpCode::PrintTop => {
                    match vm.val_stack.pop() {
                        Some(v) => {
                            proof {
                                assert(before.stack.subrange(0, before.stack.len() - 1)
                                    =~= before.stack.drop_last());
                            }
                            return Action::Write { line: format_line(v), next: vm };
                        },
                        None => {
                            return Action::Finish(Err(RuntimeError::StackUnderflow));
                        },
                    }
                },
                OpCode::Add => {
                    if let Err(e) = vm.binary(Operator::ADD) {
                        return Action::Finish(Err(e));
                    }
                },
                OpCode::Sub => {
                    if let Err(e) = vm.binary(Operator::SUB) {
                        return Action::Finish(Err(e));
                    }
                },
                OpCode::Mul => {
                    if let Err(e) = vm.binary(Operator::MUL) {
                        return Action::Finish(Err(e));
                    }
                },
                OpCode::Div => {
                    if let Err(e) = vm.binary(Operator::DIV) {
                        return Action::Finish(Err(e));
                    }
                },
            }
        }
    }

    /// Runs the machine to the end of its chunk, appending to `out` what it prints.
    pub fn run_chunk(self, out: &mut Vec<u8>) -> (r: Result<(), RuntimeError>)
        ensures
            r == execute_from(self@).result,
            final(out)@ == old(out)@ + execute_from(self@).output,
    {
        let mut vm = self;
        let ghost mut written: Seq<u8> = Seq::empty();
        loop
            invariant
                out@ == old(out)@ + written,
                execute_from(self@).output == written + execute_from(vm@).output,
                execute_from(self@).result == execute_from(vm@).result,
            decreases vm@.chunk.len() - vm@.ip,
        {
            proof {
                lemma_execute_by_pauses(vm@);
                lemma_pause_progress(vm@);
            }
            match vm.resume(true) {
                Action::Write { line, next } => {
                    let mut line = line;
                    out.append(&mut line);
                    proof {
                        let rest = execute_from(next@).output;
                        assert(written + (line_of_pause(run_to_pause(vm@)) + rest) =~= (written
                            + line_of_pause(run_to_pause(vm@))) + rest);
                        written = written + line_of_pause(run_to_pause(vm@));
                        assert(out@ =~= old(out)@ + written);
                    }
                    vm = next;
                },
                Action::Finish(r) => {
                    proof {
                        assert(written + Seq::<u8>::empty() =~= written);
                    }
                    return r;
                },
            }
        }
    }
}

/// The line that a pause asks to have written; empty where the run is over.
pub open spec fn line_of_pause(pause: Pause) -> Seq<u8> {
    match pause {
        Pause::Line(_, v) => line_of(v),
        Pause::Done(_) => Seq::empty(),
    }
}

/// Runs `chunk` from its first byte on an empty stack, appending to `out` the line of
/// each value it prints.
///
/// The run ends normally when the instruction pointer passes the last byte, and with an
/// error at the first instruction that fails; what was printed before that stays in
/// `out`. Writing to a vector cannot fail, so `SinkWriteFailed` is never returned.
pub fn run(chunk: Vec<u8>, out: &mut Vec<u8>) -> (r: Result<(), RuntimeError>)
    ensures
        r == execute(chunk@).result,
        final(out)@ == old(out)@ + execute(chunk@).output,
        r != Err::<(), RuntimeError>(RuntimeError::SinkWriteFailed),
{
    proof {
        lemma_execute_never_blames_sink(initial(chunk@));
    }
    let vm = Vm::new(chunk);
    vm.run_chunk(out)
}

} // verus!
