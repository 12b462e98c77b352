use arith_vm::binterp::run as run_chunk;
use arith_vm::compiler::compile;
use arith_vm::error::Error;
use arith_vm::error::LexError;
use arith_vm::error::ParseError;
use arith_vm::error::RuntimeError;
use arith_vm::eval::evaluate;
use arith_vm::eval::evaluate_expr;
use arith_vm::lexer::lex;
use arith_vm::parser::parse;
use arith_vm::parser::Expr;
use arith_vm::parser::Operator;
use arith_vm::parser::Stmt;
use arith_vm::parser::Value;
use arith_vm::pipeline::run;

fn test_case(source: &str, want: &str) {
    let mut buf = vec![];
    run(source, &mut buf).unwrap();
    let got = String::from_utf8(buf).expect("should be valid utf8 string");

    assert_eq!(want, got, "test failed for '{}'", source);
}

fn failure(source: &str) -> (Error, Vec<u8>) {
    let mut buf = vec![];
    let e = run(source, &mut buf).unwrap_err();
    (e, buf)
}

#[test]
fn main_test_intval() {
    let input = "print 107;";

    let want = "107\n";

    let mut buf = vec![];
    run(input, &mut buf).unwrap();
    let got = String::from_utf8(buf).expect("should be valid utf8 string");

    assert_eq!(want, got);
}

#[test]
fn table_tests() {
    test_case("print 42;", "42\n");
    test_case("print 2 + 2;", "4\n");
}

#[test]
fn multiplication_comes_before_addition() {
    test_case("print 2 * 3 + 4;", "10\n");
    test_case("print 2 + 3 * 4;", "14\n");
    test_case("print 20 - 8 / 4;", "18\n");
}

#[test]
fn subtraction_is_left_associative() {
    test_case("8 - 3 - 2;", "3\n");
    test_case("print 8 - 3 - 2;", "3\n");
    test_case("print 64 / 4 / 2;", "8\n");
}

#[test]
fn each_statement_prints_its_line() {
    test_case("print 1; print 2; 3;", "1\n2\n3\n");
    test_case("", "");
}

#[test]
fn division_by_zero_writes_nothing() {
    assert_eq!(
        (Error::Runtime(RuntimeError::DivisionByZero), vec![]),
        failure("print 10 / 0;")
    );
}

#[test]
fn a_missing_operand_writes_nothing() {
    assert_eq!(
        (Error::Parse(ParseError::ExpectedLiteral), vec![]),
        failure("print 1 + ;")
    );
}

#[test]
fn a_parse_error_later_in_the_text_stops_every_statement() {
    assert_eq!(
        (Error::Parse(ParseError::UnexpectedEnd), vec![]),
        failure("print 1; print 2")
    );
    assert_eq!(
        (Error::Parse(ParseError::LiteralOutOfRange), vec![]),
        failure("print 1; print 9223372036854775808;")
    );
}

#[test]
fn a_lex_error_stops_every_statement() {
    assert_eq!(
        (Error::Lex(LexError::UnknownCharacter('?')), vec![]),
        failure("print 1; print 2 ?")
    );
}

#[test]
fn a_runtime_error_keeps_the_lines_before_it() {
    assert_eq!(
        (Error::Runtime(RuntimeError::ArithmeticOverflow), b"1\n".to_vec()),
        failure("print 1; print 9223372036854775807 + 1; print 3;")
    );
}

#[test]
fn output_goes_after_what_the_sink_holds() {
    let mut buf = b"> ".to_vec();
    run("print 6 * 7;", &mut buf).unwrap();
    assert_eq!(b"> 42\n".to_vec(), buf);
}

#[test]
fn running_a_source_twice_gives_the_same_output() {
    let source = "print 1 + 2 * 3; print 8 / 0; print 5;";
    assert_eq!(failure(source), failure(source));
}

fn lit(v: i64) -> Box<Expr> {
    Box::from(Expr::Lit(Value::IntVal(v)))
}

fn both_ways(stmts: Vec<Stmt>, copy: Vec<Stmt>) -> (Result<(), RuntimeError>, Vec<u8>) {
    let mut walked = vec![];
    let by_tree = evaluate(&stmts, &mut walked);
    let mut ran = vec![];
    let by_chunk = run_chunk(compile(copy), &mut ran);
    assert_eq!(by_tree, by_chunk);
    assert_eq!(walked, ran);
    (by_tree, walked)
}

#[test]
fn the_chunk_does_what_the_tree_says() {
    let sources = [
        "print 42;",
        "print 2 * 3 + 4;",
        "print 8 - 3 - 2; print 7 / 2; 1 + 1;",
        "print 10 / 0;",
        "print 1; print 9223372036854775807 * 2; print 2;",
        "print 0 - 9223372036854775807 - 1; print 0 - 9223372036854775807 - 2;",
    ];
    for source in sources {
        let stmts = parse(lex(source).unwrap()).unwrap();
        let copy = parse(lex(source).unwrap()).unwrap();
        let (result, output) = both_ways(stmts, copy);
        let mut buf = vec![];
        let piped = run(source, &mut buf);
        assert_eq!(result.map_err(Error::Runtime), piped);
        assert_eq!(output, buf);
    }
}

#[test]
fn a_bare_expression_statement_prints_nothing() {
    let program = || {
        vec![
            Stmt::ExprStmt(Expr::BinOp(Operator::ADD, lit(1), lit(2))),
            Stmt::Print(Expr::BinOp(Operator::MUL, lit(-3), lit(4))),
            Stmt::ExprStmt(Expr::BinOp(Operator::DIV, lit(1), lit(0))),
            Stmt::Print(Expr::Lit(Value::IntVal(5))),
        ]
    };
    let (result, output) = both_ways(program(), program());
    assert_eq!(Err(RuntimeError::DivisionByZero), result);
    assert_eq!(b"-12\n".to_vec(), output);
}

#[test]
fn the_left_operand_fails_first() {
    // (1 / 0) + (max + 1): the division is met first.
    let expr = Expr::BinOp(
        Operator::ADD,
        Box::from(Expr::BinOp(Operator::DIV, lit(1), lit(0))),
        Box::from(Expr::BinOp(Operator::ADD, lit(i64::MAX), lit(1))),
    );
    assert_eq!(Err(RuntimeError::DivisionByZero), evaluate_expr(&expr));
    let swapped = Expr::BinOp(
        Operator::ADD,
        Box::from(Expr::BinOp(Operator::ADD, lit(i64::MAX), lit(1))),
        Box::from(Expr::BinOp(Operator::DIV, lit(1), lit(0))),
    );
    assert_eq!(Err(RuntimeError::ArithmeticOverflow), evaluate_expr(&swapped));
    assert_eq!(
        Ok(Value::IntVal(3)),
        evaluate_expr(&Expr::BinOp(
            Operator::SUB,
            Box::from(Expr::BinOp(Operator::SUB, lit(8), lit(3))),
            lit(2),
        ))
    );
}
