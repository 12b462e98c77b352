//! The syntax tree, and the parser that builds it from tokens.

use crate::decimal::literal_value;
use crate::decimal::parse_decimal;
use crate::error::ParseError;
use crate::lexer::lexemes;
use crate::lexer::Lexeme;
use crate::lexer::Token;
use vstd::prelude::*;

verus! {

/// A statement of the language.
#[derive(PartialEq, Eq, Debug)]
pub enum Stmt {
    /// Evaluate the expression and leave its value on the operand stack.
    ExprStmt(Expr),
    /// Evaluate the expression and write its value, in decimal, on a line of its own.
    Print(Expr),
}

/// An expression: a literal, or an operator applied to two operands.
#[derive(PartialEq, Eq, Debug)]
pub enum Expr {
    Lit(Value),
    BinOp(Operator, Box<Expr>, Box<Expr>),
}

/// The four infix operators.
#[derive(Clone, Copy, PartialEq, Eq, Debug)]
pub enum Operator {
    ADD,
    SUB,
    MUL,
    DIV,
}

/// A value at run time.
#[derive(Clone, Copy, PartialEq, Eq, Debug)]
pub enum Value {
    IntVal(i64),
}

/// The operator that a token stands for, where it stands for one.
pub open spec fn operator_of(t: Lexeme) -> Option<Operator> {
    match t {
        Lexeme::Plus => Some(Operator::ADD),
        Lexeme::Sub => Some(Operator::SUB),
        Lexeme::Mult => Some(Operator::MUL),
        Lexeme::Div => Some(Operator::DIV),
        _ => None,
    }
}

/// Whether `t` is `+` or `-`, the operators that bind loosely.
pub open spec fn is_additive(t: Lexeme) -> bool {
    t is Plus || t is Sub
}

/// Whether `t` is `*` or `/`, the operators that bind tightly.
pub open spec fn is_multiplicative(t: Lexeme) -> bool {
    t is Mult || t is Div
}

/// `left op right` as a tree.
pub open spec fn binop(op: Operator, left: Expr, right: Expr) -> Expr {
    Expr::BinOp(op, Box::new(left), Box::new(right))
}

/// The literal at offset `i`: an integer token whose text is a digit string within the
/// signed 64-bit range.
pub open spec fn literal_at(ts: Seq<Lexeme>, i: int) -> Result<Expr, ParseError> {
    if 0 <= i < ts.len() {
        match ts[i] {
            Lexeme::Int(digits) => match literal_value(digits) {
                Ok(v) => Ok(Expr::Lit(Value::IntVal(v))),
                Err(e) => Err(e),
            },
            _ => Err(ParseError::ExpectedLiteral),
        }
    } else {
        Err(ParseError::ExpectedLiteral)
    }
}

/// The rest of a term whose operands up to offset `i` make `left`: as long as `*` or `/`
/// follows, a literal is due after it, and joins what came before as the right operand.
/// Gives the term and the offset at which it ends.
pub open spec fn term_tail(ts: Seq<Lexeme>, i: int, left: Expr) -> Result<(Expr, int), ParseError>
    decreases ts.len() - i,
{
    if 0 <= i < ts.len() && is_multiplicative(ts[i]) {
        match literal_at(ts, i + 1) {
            Ok(right) => term_tail(ts, i + 2, binop(operator_of(ts[i])->0, left, right)),
            Err(e) => Err(e),
        }
    } else {
        Ok((left, i))
    }
}

/// The term that starts at offset `i`: literals joined by `*` and `/`, grouped from the
/// left.
pub open spec fn term_at(ts: Seq<Lexeme>, i: int) -> Result<(Expr, int), ParseError> {
    match literal_at(ts, i) {
        Ok(first) => term_tail(ts, i + 1, first),
        Err(e) => Err(e),
    }
}

/// The rest of an expression whose terms up to offset `i` make `left`: as long as `+`
/// or `-` follows, a term is due after it, and joins what came before as the right
/// operand. Gives the expression and the offset at which it ends.
pub open spec fn expr_tail(ts: Seq<Lexeme>, i: int, left: Expr) -> Result<(Expr, int), ParseError>
    decreases ts.len() - i,
{
    if 0 <= i < ts.len() && is_additive(ts[i]) {
        match term_at(ts, i + 1) {
            Ok((right, end)) => {
                proof {
                    lemma_term_at_bounds(ts, i + 1);
                }
                expr_tail(ts, end, binop(operator_of(ts[i])->0, left, right))
            },
            Err(e) => Err(e),
        }
    } else {
        Ok((left, i))
    }
}

/// The expression that starts at offset `i`: terms joined by `+` and `-`, grouped from
/// the left.
pub open spec fn expr_at(ts: Seq<Lexeme>, i: int) -> Result<(Expr, int), ParseError> {
    match term_at(ts, i) {
        Ok((first, end)) => expr_tail(ts, end, first),
        Err(e) => Err(e),
    }
}

/// The statement that starts at offset `i`, and the offset after its semicolon.
///
/// A statement is an expression, with or without the keyword `print` before it, and a
/// semicolon; with or without the keyword, it prints.
pub open spec fn stmt_at(ts: Seq<Lexeme>, i: int) -> Result<(Stmt, int), ParseError>
    recommends
        0 <= i < ts.len(),
{
    if !(ts[i] is Int || ts[i] is Print) {
        Err(ParseError::UnexpectedToken)
    } else {
        match expr_at(
            ts,
            if ts[i] is Print {
                i + 1
            } else {
                i
            },
        ) {
            Ok((expr, end)) => {
                if end >= ts.len() {
                    Err(ParseError::UnexpectedEnd)
                } else if ts[end] is Semi {
                    Ok((Stmt::Print(expr), end + 1))
                } else {
                    Err(ParseError::UnexpectedToken)
                }
            },
            Err(e) => Err(e),
        }
    }
}

/// `found`, then what the rest of the tokens gave.
pub open spec fn stmts_then(found: Seq<Stmt>, rest: Result<Seq<Stmt>, ParseError>) -> Result<
    Seq<Stmt>,
    ParseError,
> {
    match rest {
        Ok(more) => Ok(found + more),
        Err(e) => Err(e),
    }
}

/// The statements from offset `i` on, or the first error on the way.
pub open spec fn parse_from(ts: Seq<Lexeme>, i: int) -> Result<Seq<Stmt>, ParseError>
    decreases ts.len() - i,
{
    if !(0 <= i < ts.len()) {
        Ok(Seq::empty())
    } else {
        match stmt_at(ts, i) {
            Ok((stmt, end)) => {
                proof {
                    lemma_stmt_at_bounds(ts, i);
                }
                stmts_then(seq![stmt], parse_from(ts, end))
            },
            Err(e) => Err(e),
        }
    }
}

/// The statements that a token sequence makes, or the first error met in reading it
/// from left to right.
pub open spec fn parse_spec(ts: Seq<Lexeme>) -> Result<Seq<Stmt>, ParseError> {
    parse_from(ts, 0)
}

/// The rest of a term ends at or after its start, and within the tokens.
pub proof fn lemma_term_tail_bounds(ts: Seq<Lexeme>, i: int, left: Expr)
    requires
        0 <= i <= ts.len(),
    ensures
        term_tail(ts, i, left) matches Ok((_, end)) ==> i <= end <= ts.len(),
    decreases ts.len() - i,
{
    if i < ts.len() && is_multiplicative(ts[i]) {
        match literal_at(ts, i + 1) {
            Ok(right) => {
                lemma_term_tail_bounds(ts, i + 2, binop(operator_of(ts[i])->0, left, right));
            },
            Err(_) => {},
        }
    }
}

/// A term holds at least one token and ends within the tokens.
pub proof fn lemma_term_at_bounds(ts: Seq<Lexeme>, i: int)
    ensures
        term_at(ts, i) matches Ok((_, end)) ==> 0 <= i < end <= ts.len(),
{
    match literal_at(ts, i) {
        Ok(first) => {
            lemma_term_tail_bounds(ts, i + 1, first);
        },
        Err(_) => {},
    }
}

/// The rest of an expression ends at or after its start, and within the tokens.
pub proof fn lemma_expr_tail_bounds(ts: Seq<Lexeme>, i: int, left: Expr)
    requires
        0 <= i <= ts.len(),
    ensures
        expr_tail(ts, i, left) matches Ok((_, end)) ==> i <= end <= ts.len(),
    decreases ts.len() - i,
{
    if i < ts.len() && is_additive(ts[i]) {
        lemma_term_at_bounds(ts, i + 1);
        match term_at(ts, i + 1) {
            Ok((right, end)) => {
                lemma_expr_tail_bounds(ts, end, binop(operator_of(ts[i])->0, left, right));
            },
            Err(_) => {},
        }
    }
}

/// An expression holds at least one token and ends within the tokens.
pub proof fn lemma_expr_at_bounds(ts: Seq<Lexeme>, i: int)
    ensures
        expr_at(ts, i) matches Ok((_, end)) ==> 0 <= i < end <= ts.len(),
{
    lemma_term_at_bounds(ts, i);
    match term_at(ts, i) {
        Ok((first, end)) => {
            lemma_expr_tail_bounds(ts, end, first);
        },
        Err(_) => {},
    }
}

/// A statement holds at least two tokens and ends within the tokens.
pub proof fn lemma_stmt_at_bounds(ts: Seq<Lexeme>, i: int)
    requires
        0 <= i < ts.len(),
    ensures
        stmt_at(ts, i) matches Ok((_, end)) ==> i + 2 <= end <= ts.len(),
{
    lemma_expr_at_bounds(ts, i);
    lemma_expr_at_bounds(ts, i + 1);
}

/// Statements found one after the other add up.
pub proof fn lemma_stmts_then_assoc(
    a: Seq<Stmt>,
    b: Seq<Stmt>,
    rest: Result<Seq<Stmt>, ParseError>,
)
    ensures
        stmts_then(a, stmts_then(b, rest)) == stmts_then(a + b, rest),
{
    match rest {
        Ok(more) => {
            assert(a + (b + more) =~= (a + b) + more);
        },
        Err(_) => {},
    }
}

/// The operator that a token stands for.
fn token_to_op(t: &Token) -> (op: Option<Operator>)
    ensures
        op == operator_of(t@),
{
    match t {
        Token::Plus => Some(Operator::ADD),
        Token::Sub => Some(Operator::SUB),
        Token::Mult => Some(Operator::MUL),
        Token::Div => Some(Operator::DIV),
        _ => None,
    }
}

/// Reads the literal at offset `at`.
fn parse_literal(tokens: &Vec<Token>, at: usize) -> (r: Result<Expr, ParseError>)
    ensures
        r == literal_at(lexemes(tokens@), at as int),
{
    if at >= tokens.len() {
        return Err(ParseError::ExpectedLiteral);
    }
    match &tokens[at] {
        Token::Int(digits) => {
            let v = parse_decimal(digits.as_str())?;
            Ok(Expr::Lit(Value::IntVal(v)))
        },
        _ => Err(ParseError::ExpectedLiteral),
    }
}

/// Reads the term that starts at offset `at`, and returns it with the offset of the
/// first token after it.
fn parse_expr2(tokens: &Vec<Token>, at: usize) -> (r: Result<(Expr, usize), ParseError>)
    ensures
        match r {
            Ok((expr, end)) => term_at(lexemes(tokens@), at as int) == Ok::<
                (Expr, int),
                ParseError,
            >((expr, end as int)),
            Err(e) => term_at(lexemes(tokens@), at as int) == Err::<(Expr, int), ParseError>(e),
        },
{
    let ghost ts = lexemes(tokens@);
    let mut expr = parse_literal(tokens, at)?;
    assert(at < ts.len() == tokens.len());
    let mut i: usize = at + 1;
    while i < tokens.len()
        invariant
            at < i <= tokens.len(),
            ts == lexemes(tokens@),
            term_at(ts, at as int) == term_tail(ts, i as int, expr),
        decreases tokens.len() - i,
    {
        let op = match token_to_op(&tokens[i]) {
            Some(Operator::MUL) => Operator::MUL,
            Some(Operator::DIV) => Operator::DIV,
            _ => {
                return Ok((expr, i));
            },
        };
        let right = parse_literal(tokens, i + 1)?;
        expr = Expr::BinOp(op, Box::new(expr), Box::new(right));
        i = i + 2;
    }
    Ok((expr, i))
}

/// Reads the expression that starts at offset `at`, and returns it with the offset of
/// the first token after it.
fn parse_expr(tokens: &Vec<Token>, at: usize) -> (r: Result<(Expr, usize), ParseError>)
    ensures
        match r {
            Ok((expr, end)) => expr_at(lexemes(tokens@), at as int) == Ok::<
                (Expr, int),
                ParseError,
            >((expr, end as int)),
            Err(e) => expr_at(lexemes(tokens@), at as int) == Err::<(Expr, int), ParseError>(e),
        },
{
    let ghost ts = lexemes(tokens@);
    proof {
        lemma_term_at_bounds(ts, at as int);
    }
    let (first, end) = parse_expr2(tokens, at)?;
    let mut expr = first;
    let mut i: usize = end;
    while i < tokens.len()
        invariant
            i <= tokens.len(),
            ts == lexemes(tokens@),
            expr_at(ts, at as int) == expr_tail(ts, i as int, expr),
        decreases tokens.len() - i,
    {
        let op = match token_to_op(&tokens[i]) {
            Some(Operator::ADD) => Operator::ADD,
            Some(Operator::SUB) => Operator::SUB,
            _ => {
                return Ok((expr, i));
            },
        };
        proof {
            lemma_term_at_bounds(ts, i + 1);
        }
        let (right, end) = parse_expr2(tokens, i + 1)?;
        expr = Expr::BinOp(op, Box::new(expr), Box::new(right));
        i = end;
    }
    Ok((expr, i))
}

/// Reads the statement that starts at offset `at`, and returns it with the offset of
/// the first token after its semicolon.
fn parse_stmt(tokens: &Vec<Token>, at: usize) -> (r: Result<(Stmt, usize), ParseError>)
    requires
        at < tokens.len(),
    ensures
        match r {
            Ok((stmt, end)) => stmt_at(lexemes(tokens@), at as int) == Ok::<
                (Stmt, int),
                ParseError,
            >((stmt, end as int)),
            Err(e) => stmt_at(lexemes(tokens@), at as int) == Err::<(Stmt, int), ParseError>(e),
        },
{
    let start = match &tokens[at] {
        Token::Int(_) => at,
        Token::Print => at + 1,
        _ => {
            return Err(ParseError::UnexpectedToken);
        },
    };
    proof {
        lemma_expr_at_bounds(lexemes(tokens@), start as int);
    }
    let (expr, end) = parse_expr(tokens, start)?;
    if end >= tokens.len() {
        return Err(ParseError::UnexpectedEnd);
    }
    match &tokens[end] {
        Token::Semi => Ok((Stmt::Print(expr), end + 1)),
        _ => Err(ParseError::UnexpectedToken),
    }
}

/// Parses a token sequence into its statements.
///
/// The tokens are read once, from left to right, and the first error ends the call: no
/// statement is returned beside an error.
pub fn parse(tokens: Vec<Token>) -> (r: Result<Vec<Stmt>, ParseError>)
    ensures
        match r {
            Ok(stmts) => parse_spec(lexemes(tokens@)) == Ok::<Seq<Stmt>, ParseError>(stmts@),
            Err(e) => parse_spec(lexemes(tokens@)) == Err::<Seq<Stmt>, ParseError>(e),
        },
{
    let ghost ts = lexemes(tokens@);
    let mut stmts: Vec<Stmt> = Vec::new();
    let mut i: usize = 0;
    proof {
        match parse_from(ts, 0) {
            Ok(more) => {
                assert(Seq::<Stmt>::empty() + more =~= more);
            },
            Err(_) => {},
        }
    }
    while i < tokens.len()
        invariant
            i <= tokens.len(),
            ts == lexemes(tokens@),
            parse_spec(ts) == stmts_then(stmts@, parse_from(ts, i as int)),
        decreases tokens.len() - i,
    {
        proof {
            lemma_stmt_at_bounds(ts, i as int);
        }
        let ghost before = stmts@;
        let (stmt, end) = parse_stmt(&tokens, i)?;
        stmts.push(stmt);
        proof {
            assert(stmts@ =~= before + seq![stmt]);
            lemma_stmts_then_assoc(before, seq![stmt], parse_from(ts, end as int));
        }
        i = end;
    }
    proof {
        assert(stmts@ + Seq::<Stmt>::empty() =~= stmts@);
    }
    Ok(stmts)
}

} // verus!
