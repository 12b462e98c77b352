//! The grammar seen from the tree: which trees the parser builds, the tokens that spell
//! a tree, and the proof that parsing those tokens gives the tree back.
//!
//! ```text
//! statement  := "print"? expression ";"
//! expression := term (("+" | "-") term)*
//! term       := literal (("*" | "/") literal)*
//! ```

use crate::decimal::decimal_digits;
use crate::decimal::decimal_value;
use crate::decimal::is_digit;
use crate::decimal::is_digit_string;
use crate::decimal::lemma_digits_round_trip;
use crate::error::LexError;
use crate::error::ParseError;
use crate::lexer::digits_end;
use crate::lexer::is_blank;
use crate::lexer::keyword_at;
use crate::lexer::lemma_digit_string_lexes;
use crate::lexer::lemma_digits_end_prefix;
use crate::lexer::lex_from;
use crate::lexer::lex_spec;
use crate::lexer::token_at;
use crate::lexer::Lexeme;
use crate::parser::binop;
use crate::parser::expr_at;
use crate::parser::expr_tail;
use crate::parser::is_additive;
use crate::parser::is_multiplicative;
use crate::parser::lemma_stmt_at_bounds;
use crate::parser::lemma_term_at_bounds;
use crate::parser::literal_at;
use crate::parser::operator_of;
use crate::parser::parse_from;
use crate::parser::parse_spec;
use crate::parser::stmt_at;
use crate::parser::term_at;
use crate::parser::term_tail;
use crate::parser::Expr;
use crate::parser::Operator;
use crate::parser::Stmt;
use crate::parser::Value;
use crate::spelling::well_formed;
use vstd::prelude::*;

verus! {

/// A literal as the grammar has it: without a sign, so not below zero.
pub open spec fn is_literal(expr: Expr) -> bool {
    expr matches Expr::Lit(Value::IntVal(v)) && v >= 0
}

/// A term: a literal, or a term times or over a literal.
pub open spec fn is_term(expr: Expr) -> bool
    decreases expr,
{
    match expr {
        Expr::Lit(Value::IntVal(v)) => v >= 0,
        Expr::BinOp(op, left, right) => (op == Operator::MUL || op == Operator::DIV) && is_term(
            *left,
        ) && is_literal(*right),
    }
}

/// An expression of the grammar: a term, or an expression plus or minus a term. The
/// tight operators stand below the loose ones, and each chain leans to the left.
pub open spec fn is_sum(expr: Expr) -> bool
    decreases expr,
{
    is_term(expr) || match expr {
        Expr::BinOp(op, left, right) => (op == Operator::ADD || op == Operator::SUB) && is_sum(
            *left,
        ) && is_term(*right),
        _ => false,
    }
}

/// The expression of a statement.
pub open spec fn stmt_expr(stmt: Stmt) -> Expr {
    match stmt {
        Stmt::ExprStmt(expr) => expr,
        Stmt::Print(expr) => expr,
    }
}

/// Whether every statement holds an expression of the grammar.
pub open spec fn all_sums(stmts: Seq<Stmt>) -> bool {
    forall|k: int| 0 <= k < stmts.len() ==> is_sum(stmt_expr(#[trigger] stmts[k]))
}

/// The statements as the parser gives them: each one prints.
pub open spec fn printing(stmts: Seq<Stmt>) -> Seq<Stmt> {
    stmts.map_values(|stmt: Stmt| Stmt::Print(stmt_expr(stmt)))
}

/// The token that spells an operator.
pub open spec fn operator_token(op: Operator) -> Lexeme {
    match op {
        Operator::ADD => Lexeme::Plus,
        Operator::SUB => Lexeme::Sub,
        Operator::MUL => Lexeme::Mult,
        Operator::DIV => Lexeme::Div,
    }
}

/// The tokens that spell an expression: its left operand, its operator, its right
/// operand; for a literal, its shortest digit string.
pub open spec fn expr_tokens(expr: Expr) -> Seq<Lexeme>
    decreases expr,
{
    match expr {
        Expr::Lit(Value::IntVal(v)) => seq![Lexeme::Int(decimal_digits(v as nat))],
        Expr::BinOp(op, left, right) => expr_tokens(*left) + seq![operator_token(op)]
            + expr_tokens(*right),
    }
}

/// The tokens that spell a statement: `Print` with the keyword, `ExprStmt` without.
pub open spec fn stmt_tokens(stmt: Stmt) -> Seq<Lexeme> {
    match stmt {
        Stmt::ExprStmt(expr) => expr_tokens(expr) + seq![Lexeme::Semi],
        Stmt::Print(expr) => seq![Lexeme::Print] + expr_tokens(expr) + seq![Lexeme::Semi],
    }
}

/// The tokens that spell a program: those of its statements, one after the other.
pub open spec fn program_tokens(stmts: Seq<Stmt>) -> Seq<Lexeme>
    decreases stmts.len(),
{
    if stmts.len() == 0 {
        Seq::empty()
    } else {
        stmt_tokens(stmts.first()) + program_tokens(stmts.drop_first())
    }
}

/// Whether `tokens` stand in `ts` from offset `i` on.
pub open spec fn stands_at(ts: Seq<Lexeme>, i: int, tokens: Seq<Lexeme>) -> bool {
    0 <= i && i + tokens.len() <= ts.len() && ts.subrange(i, i + tokens.len()) == tokens
}

/// Whether a term that ends at offset `j` ends there for good: no `*` or `/` follows.
pub open spec fn term_ends(ts: Seq<Lexeme>, j: int) -> bool {
    j >= ts.len() || !is_multiplicative(ts[j])
}

/// An expression is spelled with at least one token, and the first is a literal.
pub proof fn lemma_expr_tokens_start(expr: Expr)
    ensures
        expr_tokens(expr).len() > 0,
        expr_tokens(expr)[0] is Int,
    decreases expr,
{
    match expr {
        Expr::Lit(_) => {},
        Expr::BinOp(_, left, _) => {
            lemma_expr_tokens_start(*left);
        },
    }
}

/// The literal read where the tokens of a literal stand is that literal.
pub proof fn lemma_literal_parses(ts: Seq<Lexeme>, i: int, expr: Expr)
    requires
        is_literal(expr),
        stands_at(ts, i, expr_tokens(expr)),
    ensures
        literal_at(ts, i) == Ok::<Expr, ParseError>(expr),
{
    let v = expr->Lit_0->IntVal_0;
    lemma_digits_round_trip(v as nat);
    assert(ts[i] == ts.subrange(i, i + 1)[0]);
}

/// Where the tokens of a term stand, reading a term gets as far as their end with
/// that term in hand.
pub proof fn lemma_term_parses(ts: Seq<Lexeme>, i: int, expr: Expr)
    requires
        is_term(expr),
        stands_at(ts, i, expr_tokens(expr)),
    ensures
        term_at(ts, i) == term_tail(ts, i + expr_tokens(expr).len(), expr),
    decreases expr,
{
    match expr {
        Expr::Lit(_) => {
            lemma_literal_parses(ts, i, expr);
        },
        Expr::BinOp(op, left, right) => {
            let all = expr_tokens(expr);
            let tl = expr_tokens(*left);
            let tr = expr_tokens(*right);
            let at = i + tl.len();
            assert(all =~= tl + seq![operator_token(op)] + tr);
            assert(ts.subrange(i, i + tl.len()) =~= tl) by {
                assert forall|k: int| 0 <= k < tl.len() implies ts[i + k] == tl[k] by {
                    assert(ts[i + k] == ts.subrange(i, i + all.len())[k]);
                }
            }
            lemma_term_parses(ts, i, *left);
            assert(ts[at] == operator_token(op)) by {
                assert(ts[at] == ts.subrange(i, i + all.len())[tl.len() as int]);
            }
            assert(ts.subrange(at + 1, at + 1 + tr.len()) =~= tr) by {
                assert forall|k: int| 0 <= k < tr.len() implies ts[at + 1 + k] == tr[k] by {
                    assert(ts[at + 1 + k] == ts.subrange(i, i + all.len())[tl.len() + 1 + k]);
                }
            }
            lemma_literal_parses(ts, at + 1, *right);
            assert(binop(op, *left, *right) == expr);
        },
    }
}

/// Where the tokens of an expression stand, and no `*` or `/` follows them, reading an
/// expression gets as far as their end with that expression in hand.
pub proof fn lemma_sum_parses(ts: Seq<Lexeme>, i: int, expr: Expr)
    requires
        is_sum(expr),
        stands_at(ts, i, expr_tokens(expr)),
        term_ends(ts, i + expr_tokens(expr).len()),
    ensures
        expr_at(ts, i) == expr_tail(ts, i + expr_tokens(expr).len(), expr),
    decreases expr,
{
    if is_term(expr) {
        lemma_term_parses(ts, i, expr);
    } else {
        match expr {
            Expr::Lit(_) => {},
            Expr::BinOp(op, left, right) => {
                let all = expr_tokens(expr);
                let tl = expr_tokens(*left);
                let tr = expr_tokens(*right);
                let at = i + tl.len();
                assert(all =~= tl + seq![operator_token(op)] + tr);
                assert(ts.subrange(i, i + tl.len()) =~= tl) by {
                    assert forall|k: int| 0 <= k < tl.len() implies ts[i + k] == tl[k] by {
                        assert(ts[i + k] == ts.subrange(i, i + all.len())[k]);
                    }
                }
                assert(ts[at] == operator_token(op)) by {
                    assert(ts[at] == ts.subrange(i, i + all.len())[tl.len() as int]);
                }
                lemma_sum_parses(ts, i, *left);
                assert(ts.subrange(at + 1, at + 1 + tr.len()) =~= tr) by {
                    assert forall|k: int| 0 <= k < tr.len() implies ts[at + 1 + k] == tr[k] by {
                        assert(ts[at + 1 + k] == ts.subrange(i, i + all.len())[tl.len() + 1
                            + k]);
                    }
                }
                lemma_term_parses(ts, at + 1, *right);
                assert(binop(op, *left, *right) == expr);
            },
        }
    }
}

/// Where the tokens of a statement stand, the statement read there prints the
/// statement's expression, and ends where the tokens end.
pub proof fn lemma_stmt_parses(ts: Seq<Lexeme>, i: int, stmt: Stmt)
    requires
        is_sum(stmt_expr(stmt)),
        stands_at(ts, i, stmt_tokens(stmt)),
    ensures
        stmt_at(ts, i) == Ok::<(Stmt, int), ParseError>(
            (Stmt::Print(stmt_expr(stmt)), i + stmt_tokens(stmt).len()),
        ),
{
    let expr = stmt_expr(stmt);
    let te = expr_tokens(expr);
    let all = stmt_tokens(stmt);
    let start = if stmt is Print {
        i + 1
    } else {
        i
    };
    lemma_expr_tokens_start(expr);
    assert(ts[i] == all[0]) by {
        assert(ts[i] == ts.subrange(i, i + all.len())[0]);
    }
    assert(ts.subrange(start, start + te.len()) =~= te) by {
        assert forall|k: int| 0 <= k < te.len() implies ts[start + k] == te[k] by {
            assert(ts[start + k] == ts.subrange(i, i + all.len())[start - i + k]);
        }
    }
    assert(ts[start + te.len()] == Lexeme::Semi) by {
        assert(ts[start + te.len()] == ts.subrange(i, i + all.len())[start - i + te.len()]);
    }
    lemma_sum_parses(ts, start, expr);
}

/// Where the tokens of a program stand, with nothing after them, the statements read
/// there are the program's, each one printing.
pub proof fn lemma_program_parses_from(ts: Seq<Lexeme>, i: int, stmts: Seq<Stmt>)
    requires
        all_sums(stmts),
        0 <= i <= ts.len(),
        ts.subrange(i, ts.len() as int) == program_tokens(stmts),
    ensures
        parse_from(ts, i) == Ok::<Seq<Stmt>, ParseError>(printing(stmts)),
    decreases stmts.len(),
{
    let rest_tokens = ts.subrange(i, ts.len() as int);
    if stmts.len() == 0 {
        assert(rest_tokens.len() == 0);
        assert(printing(stmts) =~= Seq::<Stmt>::empty());
    } else {
        let first = stmts.first();
        let rest = stmts.drop_first();
        let tf = stmt_tokens(first);
        assert(rest_tokens =~= tf + program_tokens(rest));
        assert(ts.subrange(i, i + tf.len()) =~= tf) by {
            assert forall|k: int| 0 <= k < tf.len() implies ts[i + k] == tf[k] by {
                assert(ts[i + k] == rest_tokens[k]);
            }
        }
        assert(is_sum(stmt_expr(first)));
        lemma_stmt_parses(ts, i, first);
        let end = i + tf.len();
        assert(ts.subrange(end, ts.len() as int) =~= program_tokens(rest)) by {
            assert forall|k: int| 0 <= k < program_tokens(rest).len() implies ts[end + k]
                == program_tokens(rest)[k] by {
                assert(ts[end + k] == rest_tokens[tf.len() + k]);
            }
        }
        assert(all_sums(rest)) by {
            assert forall|k: int| 0 <= k < rest.len() implies is_sum(
                stmt_expr(#[trigger] rest[k]),
            ) by {
                assert(rest[k] == stmts[k + 1]);
            }
        }
        lemma_program_parses_from(ts, end, rest);
        assert(seq![Stmt::Print(stmt_expr(first))] + printing(rest) =~= printing(stmts));
    }
}

/// Parsing undoes spelling: the tokens that spell a program of the grammar parse to
/// that program, each statement printing, with the keyword or without it. The shape of
/// the tree alone says how operators group: no token is needed for it.
pub proof fn lemma_parse_program_tokens(stmts: Seq<Stmt>)
    requires
        all_sums(stmts),
    ensures
        parse_spec(program_tokens(stmts)) == Ok::<Seq<Stmt>, ParseError>(printing(stmts)),
{
    let ts = program_tokens(stmts);
    assert(ts.subrange(0, ts.len() as int) =~= ts);
    lemma_program_parses_from(ts, 0, stmts);
}

/// Lexing a digit string that denotes a number within the signed 64-bit range, and
/// parsing the token as a literal, gives the number that the digits denote in base ten;
/// with a semicolon after it, the digit string is a program that prints that number.
pub proof fn lemma_literal_round_trip(s: Seq<char>)
    requires
        is_digit_string(s),
        decimal_value(s) <= i64::MAX,
    ensures
        lex_spec(s) == Ok::<Seq<Lexeme>, LexError>(seq![Lexeme::Int(s)]),
        literal_at(seq![Lexeme::Int(s)], 0) == Ok::<Expr, ParseError>(
            Expr::Lit(Value::IntVal(decimal_value(s) as i64)),
        ),
        lex_spec(s.push(';')) == Ok::<Seq<Lexeme>, LexError>(seq![Lexeme::Int(s), Lexeme::Semi]),
        parse_spec(seq![Lexeme::Int(s), Lexeme::Semi]) == Ok::<Seq<Stmt>, ParseError>(
            seq![Stmt::Print(Expr::Lit(Value::IntVal(decimal_value(s) as i64)))],
        ),
{
    lemma_digit_string_lexes(s);
    let ts = seq![Lexeme::Int(s), Lexeme::Semi];
    let lit = Expr::Lit(Value::IntVal(decimal_value(s) as i64));
    assert(literal_at(ts, 0) == Ok::<Expr, ParseError>(lit));
    assert(term_tail(ts, 1, lit) == Ok::<(Expr, int), ParseError>((lit, 1)));
    assert(expr_tail(ts, 1, lit) == Ok::<(Expr, int), ParseError>((lit, 1)));
    assert(stmt_at(ts, 0) == Ok::<(Stmt, int), ParseError>((Stmt::Print(lit), 2)));
    assert(parse_from(ts, 2) == Ok::<Seq<Stmt>, ParseError>(Seq::empty()));
    assert(seq![Stmt::Print(lit)] + Seq::<Stmt>::empty() =~= seq![Stmt::Print(lit)]);

    let text = s.push(';');
    let n = s.len() as int;
    assert forall|j: int| 0 <= j < n implies is_digit(#[trigger] text[j]) by {
        assert(text[j] == s[j]);
    }
    lemma_digits_end_prefix(text, 0, n);
    assert(digits_end(text, 0) == n);
    assert(text.subrange(0, n) =~= s);
    assert(!is_blank(text[n]) && !is_digit(text[n]));
    assert(!keyword_at(text, n));
    assert(token_at(text, n) == Ok::<(Lexeme, int), LexError>((Lexeme::Semi, n + 1)));
    assert(lex_from(text, n + 1) == Ok::<Seq<Lexeme>, LexError>(Seq::empty()));
    assert(seq![Lexeme::Semi] + Seq::<Lexeme>::empty() =~= seq![Lexeme::Semi]);
    assert(lex_from(text, n) == Ok::<Seq<Lexeme>, LexError>(seq![Lexeme::Semi]));
    assert(seq![Lexeme::Int(s)] + seq![Lexeme::Semi] =~= ts);
}

/// The literals that spell an expression hold digit strings.
pub proof fn lemma_expr_tokens_well_formed(expr: Expr)
    ensures
        well_formed(expr_tokens(expr)),
    decreases expr,
{
    match expr {
        Expr::Lit(Value::IntVal(v)) => {
            lemma_digits_round_trip(v as nat);
        },
        Expr::BinOp(op, left, right) => {
            lemma_expr_tokens_well_formed(*left);
            lemma_expr_tokens_well_formed(*right);
            let tl = expr_tokens(*left);
            let tr = expr_tokens(*right);
            let all = expr_tokens(expr);
            assert forall|k: int| 0 <= k < all.len() implies (#[trigger] all[k] matches Lexeme::Int(
                digits,
            ) ==> is_digit_string(digits)) by {
                if k < tl.len() {
                    assert(all[k] == tl[k]);
                } else if k > tl.len() {
                    assert(all[k] == tr[k - tl.len() - 1]);
                }
            }
        },
    }
}

/// The literals that spell a program hold digit strings.
pub proof fn lemma_program_tokens_well_formed(stmts: Seq<Stmt>)
    ensures
        well_formed(program_tokens(stmts)),
    decreases stmts.len(),
{
    if stmts.len() > 0 {
        let first = stmts.first();
        let te = expr_tokens(stmt_expr(first));
        let tf = stmt_tokens(first);
        let more = program_tokens(stmts.drop_first());
        let all = program_tokens(stmts);
        lemma_expr_tokens_well_formed(stmt_expr(first));
        lemma_program_tokens_well_formed(stmts.drop_first());
        assert forall|k: int| 0 <= k < all.len() implies (#[trigger] all[k] matches Lexeme::Int(
            digits,
        ) ==> is_digit_string(digits)) by {
            if k >= tf.len() {
                assert(all[k] == more[k - tf.len()]);
            } else {
                assert(all[k] == tf[k]);
                match first {
                    Stmt::ExprStmt(_) => {
                        if k < te.len() {
                            assert(tf[k] == te[k]);
                        }
                    },
                    Stmt::Print(_) => {
                        if 0 < k <= te.len() {
                            assert(tf[k] == te[k - 1]);
                        }
                    },
                }
            }
        }
    }
}

/// A term that is read is a term of the grammar, if what was read before is one.
pub proof fn lemma_term_tail_shape(ts: Seq<Lexeme>, i: int, left: Expr)
    requires
        is_term(left),
    ensures
        term_tail(ts, i, left) matches Ok((expr, _)) ==> is_term(expr),
    decreases ts.len() - i,
{
    if 0 <= i < ts.len() && is_multiplicative(ts[i]) {
        match literal_at(ts, i + 1) {
            Ok(right) => {
                lemma_term_tail_shape(ts, i + 2, binop(operator_of(ts[i])->0, left, right));
            },
            Err(_) => {},
        }
    }
}

/// A term that is read is a term of the grammar.
pub proof fn lemma_term_shape(ts: Seq<Lexeme>, i: int)
    ensures
        term_at(ts, i) matches Ok((expr, _)) ==> is_term(expr),
{
    match literal_at(ts, i) {
        Ok(first) => {
            lemma_term_tail_shape(ts, i + 1, first);
        },
        Err(_) => {},
    }
}

/// An expression that is read is one of the grammar, if what was read before is one.
pub proof fn lemma_expr_tail_shape(ts: Seq<Lexeme>, i: int, left: Expr)
    requires
        is_sum(left),
    ensures
        expr_tail(ts, i, left) matches Ok((expr, _)) ==> is_sum(expr),
    decreases ts.len() - i,
{
    if 0 <= i < ts.len() && is_additive(ts[i]) {
        lemma_term_at_bounds(ts, i + 1);
        lemma_term_shape(ts, i + 1);
        match term_at(ts, i + 1) {
            Ok((right, end)) => {
                lemma_expr_tail_shape(ts, end, binop(operator_of(ts[i])->0, left, right));
            },
            Err(_) => {},
        }
    }
}

/// An expression that is read is one of the grammar.
pub proof fn lemma_expr_shape(ts: Seq<Lexeme>, i: int)
    ensures
        expr_at(ts, i) matches Ok((expr, _)) ==> is_sum(expr),
{
    lemma_term_shape(ts, i);
    match term_at(ts, i) {
        Ok((first, end)) => {
            lemma_expr_tail_shape(ts, end, first);
        },
        Err(_) => {},
    }
}

/// The statements read from offset `i` on all print, and print expressions of the
/// grammar.
pub proof fn lemma_parse_from_shape(ts: Seq<Lexeme>, i: int)
    ensures
        parse_from(ts, i) matches Ok(stmts) ==> all_sums(stmts) && printing(stmts) == stmts,
    decreases ts.len() - i,
{
    if 0 <= i < ts.len() {
        lemma_stmt_at_bounds(ts, i);
        lemma_expr_shape(ts, i);
        lemma_expr_shape(ts, i + 1);
        match stmt_at(ts, i) {
            Ok((stmt, end)) => {
                lemma_parse_from_shape(ts, end);
                match parse_from(ts, end) {
                    Ok(more) => {
                        let stmts = seq![stmt] + more;
                        assert forall|k: int| 0 <= k < stmts.len() implies is_sum(
                            stmt_expr(#[trigger] stmts[k]),
                        ) by {
                            if k > 0 {
                                assert(stmts[k] == more[k - 1]);
                            }
                        }
                        assert(printing(stmts) =~= stmts) by {
                            assert forall|k: int| 0 <= k < stmts.len() implies printing(
                                stmts,
                            )[k] == stmts[k] by {
                                if k > 0 {
                                    assert(stmts[k] == more[k - 1]);
                                    assert(printing(more)[k - 1] == more[k - 1]);
                                }
                            }
                        }
                    },
                    Err(_) => {},
                }
            },
            Err(_) => {},
        }
    } else {
        assert(printing(Seq::<Stmt>::empty()) =~= Seq::<Stmt>::empty());
    }
}

/// Whatever parses, parses to a program of the grammar: every statement prints, `*` and
/// `/` stand below `+` and `-`, every chain of operators leans to the left, and no
/// literal is negative.
pub proof fn lemma_parse_shape(ts: Seq<Lexeme>)
    ensures
        parse_spec(ts) matches Ok(stmts) ==> all_sums(stmts) && printing(stmts) == stmts,
{
    lemma_parse_from_shape(ts, 0);
}

} // verus!
