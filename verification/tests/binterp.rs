use arith_vm::binterp::arith;
use arith_vm::binterp::format_line;
use arith_vm::binterp::run;
use arith_vm::binterp::Action;
use arith_vm::binterp::Vm;
use arith_vm::decimal::format_decimal;
use arith_vm::decimal::parse_decimal;
use arith_vm::error::ParseError;
use arith_vm::error::RuntimeError;
use arith_vm::parser::Operator;
use arith_vm::parser::Value;

fn push(chunk: &mut Vec<u8>, v: i64) {
    chunk.push(0x01);
    chunk.extend_from_slice(&v.to_be_bytes());
}

fn binary(left: i64, right: i64, opcode: u8) -> Vec<u8> {
    let mut chunk = Vec::new();
    push(&mut chunk, left);
    push(&mut chunk, right);
    chunk.push(opcode);
    chunk.push(0x02);
    chunk
}

fn run_to_string(chunk: Vec<u8>) -> (Result<(), RuntimeError>, String) {
    let mut buf = vec![];
    let r = run(chunk, &mut buf);
    (r, String::from_utf8(buf).expect("should be valid utf8 string"))
}

#[test]
fn binterp_test_intval() {
    let input: Vec<u8> = vec![0x01, 0, 0, 0, 0, 0, 0, 0, 44, 0x02];

    let want = "44\n";

    let mut buf = vec![];
    run(input, &mut buf).unwrap();
    let got = String::from_utf8(buf).expect("should be valid utf8 string");

    assert_eq!(want, got);
}

#[test]
fn empty_chunk_halts_at_once() {
    assert_eq!((Ok(()), String::new()), run_to_string(vec![]));
}

#[test]
fn no_op_only_advances() {
    let input: Vec<u8> = vec![0x00, 0x01, 0, 0, 0, 0, 0, 0, 0, 7, 0x00, 0x02, 0x00];
    assert_eq!((Ok(()), String::from("7\n")), run_to_string(input));
}

#[test]
fn output_is_appended_to_what_the_sink_holds() {
    let mut buf = b"before\n".to_vec();
    run(vec![0x01, 0, 0, 0, 0, 0, 0, 0, 44, 0x02], &mut buf).unwrap();
    assert_eq!(b"before\n44\n".to_vec(), buf);
}

#[test]
fn arithmetic_takes_the_left_operand_from_below() {
    assert_eq!((Ok(()), String::from("11\n")), run_to_string(binary(8, 3, 0x03)));
    assert_eq!((Ok(()), String::from("5\n")), run_to_string(binary(8, 3, 0x04)));
    assert_eq!((Ok(()), String::from("-5\n")), run_to_string(binary(3, 8, 0x04)));
    assert_eq!((Ok(()), String::from("24\n")), run_to_string(binary(8, 3, 0x05)));
    assert_eq!((Ok(()), String::from("2\n")), run_to_string(binary(8, 3, 0x06)));
    assert_eq!((Ok(()), String::from("0\n")), run_to_string(binary(3, 8, 0x06)));
}

#[test]
fn division_rounds_toward_zero() {
    assert_eq!((Ok(()), String::from("-3\n")), run_to_string(binary(-7, 2, 0x06)));
    assert_eq!((Ok(()), String::from("-3\n")), run_to_string(binary(7, -2, 0x06)));
    assert_eq!((Ok(()), String::from("3\n")), run_to_string(binary(-7, -2, 0x06)));
    assert_eq!((Ok(()), String::from("3\n")), run_to_string(binary(7, 2, 0x06)));
    assert_eq!(
        (Ok(()), String::from("-9223372036854775808\n")),
        run_to_string(binary(i64::MIN, 1, 0x06))
    );
    assert_eq!(
        (Ok(()), String::from("-9223372036854775807\n")),
        run_to_string(binary(i64::MAX, -1, 0x06))
    );
}

#[test]
fn division_by_zero_fails_and_prints_nothing() {
    assert_eq!(
        (Err(RuntimeError::DivisionByZero), String::new()),
        run_to_string(binary(10, 0, 0x06))
    );
    assert_eq!(
        (Err(RuntimeError::DivisionByZero), String::new()),
        run_to_string(binary(i64::MIN, 0, 0x06))
    );
}

#[test]
fn overflow_fails_rather_than_wraps() {
    let overflow = (Err(RuntimeError::ArithmeticOverflow), String::new());
    assert_eq!(overflow, run_to_string(binary(i64::MAX, 1, 0x03)));
    assert_eq!(overflow, run_to_string(binary(i64::MIN, -1, 0x03)));
    assert_eq!(overflow, run_to_string(binary(i64::MIN, 1, 0x04)));
    assert_eq!(overflow, run_to_string(binary(0, i64::MIN, 0x04)));
    assert_eq!(overflow, run_to_string(binary(i64::MAX, 2, 0x05)));
    assert_eq!(overflow, run_to_string(binary(i64::MIN, -1, 0x05)));
    assert_eq!(overflow, run_to_string(binary(i64::MIN, -1, 0x06)));
}

#[test]
fn results_at_the_edge_of_the_range_are_exact() {
    assert_eq!(
        (Ok(()), String::from("9223372036854775807\n")),
        run_to_string(binary(i64::MAX - 1, 1, 0x03))
    );
    assert_eq!(
        (Ok(()), String::from("-9223372036854775808\n")),
        run_to_string(binary(i64::MIN + 1, 1, 0x04))
    );
    assert_eq!(
        (Ok(()), String::from("-9223372036854775808\n")),
        run_to_string(binary(i64::MIN / 2, 2, 0x05))
    );
}

#[test]
fn printing_an_empty_stack_underflows() {
    assert_eq!(
        (Err(RuntimeError::StackUnderflow), String::new()),
        run_to_string(vec![0x02])
    );
}

#[test]
fn arithmetic_on_fewer_than_two_values_underflows() {
    for opcode in [0x03u8, 0x04, 0x05, 0x06] {
        assert_eq!(
            (Err(RuntimeError::StackUnderflow), String::new()),
            run_to_string(vec![opcode])
        );
        let mut one = Vec::new();
        push(&mut one, 5);
        one.push(opcode);
        assert_eq!((Err(RuntimeError::StackUnderflow), String::new()), run_to_string(one));
    }
}

#[test]
fn a_short_operand_is_truncated() {
    for len in 0..8usize {
        let mut chunk = vec![0x01];
        chunk.extend_from_slice(&vec![0u8; len]);
        assert_eq!(
            (Err(RuntimeError::TruncatedOperand), String::new()),
            run_to_string(chunk)
        );
    }
}

#[test]
fn an_unknown_tag_is_reported_with_its_byte() {
    assert_eq!(
        (Err(RuntimeError::UnknownOpcode(0x07)), String::new()),
        run_to_string(vec![0x07])
    );
    assert_eq!(
        (Err(RuntimeError::UnknownOpcode(0xff)), String::new()),
        run_to_string(vec![0x00, 0xff, 0x02])
    );
}

#[test]
fn operand_bytes_are_not_read_as_instructions() {
    // The operand holds 0x07 and 0xff, which are no opcodes.
    let mut chunk = Vec::new();
    push(&mut chunk, 0x07ff);
    chunk.push(0x02);
    assert_eq!((Ok(()), String::from("2047\n")), run_to_string(chunk));
}

#[test]
fn lines_printed_before_a_failure_stay() {
    let mut chunk = Vec::new();
    push(&mut chunk, 1);
    chunk.push(0x02);
    chunk.extend_from_slice(&binary(1, 0, 0x06));
    assert_eq!(
        (Err(RuntimeError::DivisionByZero), String::from("1\n")),
        run_to_string(chunk)
    );
}

#[test]
fn values_left_on_the_stack_do_no_harm() {
    let mut chunk = Vec::new();
    push(&mut chunk, 1);
    push(&mut chunk, 2);
    chunk.push(0x02);
    assert_eq!((Ok(()), String::from("2\n")), run_to_string(chunk));
}

#[test]
fn running_a_chunk_twice_gives_the_same_output() {
    let mut chunk = binary(6, 7, 0x05);
    chunk.extend_from_slice(&binary(1, 0, 0x06));
    let first = run_to_string(chunk.clone());
    let second = run_to_string(chunk);
    assert_eq!(first, second);
    assert_eq!((Err(RuntimeError::DivisionByZero), String::from("42\n")), first);
}

#[test]
fn a_machine_pauses_at_each_print() {
    let mut chunk = binary(6, 7, 0x05);
    push(&mut chunk, -1);
    chunk.push(0x02);
    let vm = Vm::new(chunk);
    let vm = match vm.resume(true) {
        Action::Write { line, next } => {
            assert_eq!(b"42\n".to_vec(), line);
            next
        }
        Action::Finish(r) => panic!("finished early: {:?}", r),
    };
    let vm = match vm.resume(true) {
        Action::Write { line, next } => {
            assert_eq!(b"-1\n".to_vec(), line);
            next
        }
        Action::Finish(r) => panic!("finished early: {:?}", r),
    };
    match vm.resume(true) {
        Action::Write { .. } => panic!("nothing is left to print"),
        Action::Finish(r) => assert_eq!(Ok(()), r),
    }
}

#[test]
fn a_failed_write_ends_the_run() {
    let mut chunk = binary(6, 7, 0x05);
    push(&mut chunk, -1);
    chunk.push(0x02);
    let vm = Vm::new(chunk);
    let vm = match vm.resume(true) {
        Action::Write { next, .. } => next,
        Action::Finish(r) => panic!("finished early: {:?}", r),
    };
    match vm.resume(false) {
        Action::Write { .. } => panic!("the sink has failed"),
        Action::Finish(r) => assert_eq!(Err(RuntimeError::SinkWriteFailed), r),
    }
}

#[test]
fn a_machine_reports_its_failure_when_resumed() {
    let vm = Vm::new(vec![0x03]);
    match vm.resume(true) {
        Action::Write { .. } => panic!("nothing to print"),
        Action::Finish(r) => assert_eq!(Err(RuntimeError::StackUnderflow), r),
    }
}

#[test]
fn arith_gives_the_exact_result_or_the_reason() {
    let v = Value::IntVal;
    assert_eq!(Ok(v(5)), arith(Operator::ADD, v(2), v(3)));
    assert_eq!(Ok(v(-1)), arith(Operator::SUB, v(2), v(3)));
    assert_eq!(Ok(v(6)), arith(Operator::MUL, v(2), v(3)));
    assert_eq!(Ok(v(0)), arith(Operator::DIV, v(2), v(3)));
    assert_eq!(Err(RuntimeError::DivisionByZero), arith(Operator::DIV, v(2), v(0)));
    assert_eq!(
        Err(RuntimeError::ArithmeticOverflow),
        arith(Operator::DIV, v(i64::MIN), v(-1))
    );
    assert_eq!(
        Err(RuntimeError::ArithmeticOverflow),
        arith(Operator::MUL, v(i64::MAX), v(i64::MAX))
    );
}

#[test]
fn values_are_printed_in_decimal() {
    for value in [0i64, 1, -1, 9, 10, 11, 99, 100, 101, -100, 1234567890, i64::MAX, i64::MIN] {
        assert_eq!(format!("{}", value).into_bytes(), format_decimal(value));
        assert_eq!(format!("{}\n", value).into_bytes(), format_line(Value::IntVal(value)));
    }
}

#[test]
fn printed_values_read_back() {
    for value in [0i64, 1, 9, 10, 100, 1234567890, i64::MAX] {
        let text = String::from_utf8(format_decimal(value)).unwrap();
        assert_eq!(Ok(value), parse_decimal(&text));
    }
    assert_eq!(Err(ParseError::ExpectedLiteral), parse_decimal("-1"));
    assert_eq!(Err(ParseError::LiteralOutOfRange), parse_decimal("9223372036854775808"));
}
