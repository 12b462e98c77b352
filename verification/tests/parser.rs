use arith_vm::error::ParseError;
use arith_vm::lexer::lex;
use arith_vm::lexer::Token;
use arith_vm::parser::parse;
use arith_vm::parser::Expr;
use arith_vm::parser::Operator;
use arith_vm::parser::Stmt;
use arith_vm::parser::Value;

fn lit(v: i64) -> Box<Expr> {
    Box::from(Expr::Lit(Value::IntVal(v)))
}

fn parse_source(source: &str) -> Result<Vec<Stmt>, ParseError> {
    parse(lex(source).unwrap())
}

#[test]
fn parser_test_simple() {
    let got = parse(Vec::from([Token::Int(String::from("12")), Token::Semi])).unwrap();
    let want = Vec::from([Stmt::Print(Expr::Lit(Value::IntVal(12)))]);

    assert_eq!(want, got);
}

#[test]
fn test_addup() {
    let got = parse(Vec::from([
        Token::Int(String::from("12")),
        Token::Plus,
        Token::Int(String::from("107")),
        Token::Semi,
    ]))
    .unwrap();
    let want = Vec::from([Stmt::Print(Expr::BinOp(
        Operator::ADD,
        Box::from(Expr::Lit(Value::IntVal(12))),
        Box::from(Expr::Lit(Value::IntVal(107))),
    ))]);

    assert_eq!(want, got);
}

#[test]
fn test_precedence() {
    let got = parse(Vec::from([
        Token::Int(String::from("1")),
        Token::Plus,
        Token::Int(String::from("2")),
        Token::Mult,
        Token::Int(String::from("3")),
        Token::Semi,
    ]))
    .unwrap();
    let want = Vec::from([Stmt::Print(Expr::BinOp(
        Operator::ADD,
        Box::from(Expr::Lit(Value::IntVal(1))),
        Box::from(Expr::BinOp(
            Operator::MUL,
            Box::from(Expr::Lit(Value::IntVal(2))),
            Box::from(Expr::Lit(Value::IntVal(3))),
        )),
    ))]);

    assert_eq!(want, got);
}

#[test]
fn multiplication_binds_tighter_on_the_right() {
    let got = parse_source("1 + 2 * 3;").unwrap();
    let want = vec![Stmt::Print(Expr::BinOp(
        Operator::ADD,
        lit(1),
        Box::from(Expr::BinOp(Operator::MUL, lit(2), lit(3))),
    ))];
    assert_eq!(want, got);
}

#[test]
fn multiplication_binds_tighter_on_the_left() {
    let got = parse_source("1 * 2 + 3;").unwrap();
    let want = vec![Stmt::Print(Expr::BinOp(
        Operator::ADD,
        Box::from(Expr::BinOp(Operator::MUL, lit(1), lit(2))),
        lit(3),
    ))];
    assert_eq!(want, got);
}

#[test]
fn subtraction_groups_from_the_left() {
    let got = parse_source("8 - 3 - 2;").unwrap();
    let want = vec![Stmt::Print(Expr::BinOp(
        Operator::SUB,
        Box::from(Expr::BinOp(Operator::SUB, lit(8), lit(3))),
        lit(2),
    ))];
    assert_eq!(want, got);
}

#[test]
fn division_groups_from_the_left() {
    let got = parse_source("8 / 4 * 2 / 1;").unwrap();
    let want = vec![Stmt::Print(Expr::BinOp(
        Operator::DIV,
        Box::from(Expr::BinOp(
            Operator::MUL,
            Box::from(Expr::BinOp(Operator::DIV, lit(8), lit(4))),
            lit(2),
        )),
        lit(1),
    ))];
    assert_eq!(want, got);
}

#[test]
fn the_keyword_print_may_lead_a_statement() {
    let got = parse_source("print 42;").unwrap();
    assert_eq!(vec![Stmt::Print(Expr::Lit(Value::IntVal(42)))], got);
    assert_eq!(parse_source("42;"), parse_source("print 42;"));
}

#[test]
fn statements_follow_one_another() {
    let got = parse_source("print 1; 2 + 3; print 4;").unwrap();
    let want = vec![
        Stmt::Print(Expr::Lit(Value::IntVal(1))),
        Stmt::Print(Expr::BinOp(Operator::ADD, lit(2), lit(3))),
        Stmt::Print(Expr::Lit(Value::IntVal(4))),
    ];
    assert_eq!(want, got);
}

#[test]
fn no_tokens_make_no_statements() {
    assert_eq!(Ok(Vec::new()), parse(Vec::new()));
}

#[test]
fn a_literal_is_read_as_decimal_parsing_reads_it() {
    for text in ["0", "7", "42", "0007", "1000000", "9223372036854775807", "000009223372036854775807"] {
        let want: i64 = text.parse().unwrap();
        let tokens = lex(text).unwrap();
        assert_eq!(vec![Token::Int(String::from(text))], tokens);
        let mut tokens = tokens;
        tokens.push(Token::Semi);
        assert_eq!(Ok(vec![Stmt::Print(Expr::Lit(Value::IntVal(want)))]), parse(tokens));
    }
}

#[test]
fn a_literal_past_the_range_is_refused() {
    assert_eq!(Err(ParseError::LiteralOutOfRange), parse_source("9223372036854775808;"));
    assert_eq!(
        Err(ParseError::LiteralOutOfRange),
        parse_source("print 1 + 99999999999999999999999999999999;")
    );
    assert_eq!(Err(ParseError::LiteralOutOfRange), parse_source("18446744073709551617;"));
}

#[test]
fn an_operator_without_its_right_operand_expects_a_literal() {
    assert_eq!(Err(ParseError::ExpectedLiteral), parse_source("print 1 + ;"));
    assert_eq!(Err(ParseError::ExpectedLiteral), parse_source("1 *"));
    assert_eq!(Err(ParseError::ExpectedLiteral), parse_source("1 + * 2;"));
    assert_eq!(Err(ParseError::ExpectedLiteral), parse_source("print;"));
    assert_eq!(Err(ParseError::ExpectedLiteral), parse_source("print"));
    assert_eq!(Err(ParseError::ExpectedLiteral), parse_source("print print 1;"));
}

#[test]
fn a_missing_semicolon_at_the_end_is_an_unexpected_end() {
    assert_eq!(Err(ParseError::UnexpectedEnd), parse_source("1 + 2"));
    assert_eq!(Err(ParseError::UnexpectedEnd), parse_source("print 1; print 2"));
}

#[test]
fn a_token_out_of_place_is_unexpected() {
    assert_eq!(Err(ParseError::UnexpectedToken), parse_source("+ 1;"));
    assert_eq!(Err(ParseError::UnexpectedToken), parse_source("* 1;"));
    assert_eq!(Err(ParseError::UnexpectedToken), parse_source(";"));
    assert_eq!(Err(ParseError::UnexpectedToken), parse_source("1;;"));
    assert_eq!(Err(ParseError::UnexpectedToken), parse_source("1 2;"));
    assert_eq!(Err(ParseError::UnexpectedToken), parse_source("1 print 2;"));
}

#[test]
fn the_first_error_from_the_left_is_reported() {
    assert_eq!(
        Err(ParseError::LiteralOutOfRange),
        parse_source("99999999999999999999 + ;")
    );
    assert_eq!(
        Err(ParseError::ExpectedLiteral),
        parse_source("1 + ; 99999999999999999999;")
    );
}

#[test]
fn a_token_that_holds_no_digit_string_is_no_literal() {
    for text in ["", "12a", "-5", "+5", " 5", "1 2", "\u{661}"] {
        let tokens = vec![Token::Int(String::from(text)), Token::Semi];
        assert_eq!(Err(ParseError::ExpectedLiteral), parse(tokens));
    }
    let tokens = vec![Token::Int(String::from("99999999999999999999x")), Token::Semi];
    assert_eq!(Err(ParseError::ExpectedLiteral), parse(tokens));
}
