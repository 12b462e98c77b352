use arith_vm::error::LexError;
use arith_vm::lexer::is_blank_char;
use arith_vm::lexer::lex;
use arith_vm::lexer::Token;

#[test]
fn lexer_test_simple() {
    let l = lex("4").unwrap();
    let mut want = Vec::new();
    want.push(Token::Int(String::from("4")));

    assert_eq!(want, l);
}

#[test]
fn test_nums() {
    let l = lex("1 2 3").unwrap();
    let want = Vec::from([
        Token::Int(String::from("1")),
        Token::Int(String::from("2")),
        Token::Int(String::from("3")),
    ]);

    assert_eq!(want, l);
}

#[test]
fn test_real_big_num() {
    let l = lex("478").unwrap();
    let want = Vec::from([Token::Int(String::from("478"))]);

    assert_eq!(want, l);
}

#[test]
fn basic_operators() {
    let l = lex("+ - / *").unwrap();
    let want = Vec::from([Token::Plus, Token::Sub, Token::Div, Token::Mult]);

    assert_eq!(want, l);
}

#[test]
fn full_expr() {
    let l = lex("8 + 4;").unwrap();
    let want = Vec::from([
        Token::Int(String::from("8")),
        Token::Plus,
        Token::Int(String::from("4")),
        Token::Semi,
    ]);

    assert_eq!(want, l);
}

#[test]
fn empty_source_has_no_tokens() {
    assert_eq!(Ok(Vec::new()), lex(""));
    assert_eq!(Ok(Vec::new()), lex(" \t\r\n"));
}

#[test]
fn every_digit_is_a_digit() {
    let l = lex("0123456789").unwrap();
    assert_eq!(vec![Token::Int(String::from("0123456789"))], l);
    assert_eq!(Ok(vec![Token::Int(String::from("909"))]), lex("909"));
}

#[test]
fn digits_are_taken_greedily() {
    let l = lex("12+34").unwrap();
    let want = vec![
        Token::Int(String::from("12")),
        Token::Plus,
        Token::Int(String::from("34")),
    ];
    assert_eq!(want, l);
}

#[test]
fn leading_zeros_are_kept_in_the_lexeme() {
    assert_eq!(Ok(vec![Token::Int(String::from("007"))]), lex("007"));
}

#[test]
fn print_is_a_keyword() {
    let l = lex("print 42;").unwrap();
    let want = vec![Token::Print, Token::Int(String::from("42")), Token::Semi];
    assert_eq!(want, l);
}

#[test]
fn print_needs_no_blank_after_it() {
    let l = lex("print42;print 1;").unwrap();
    let want = vec![
        Token::Print,
        Token::Int(String::from("42")),
        Token::Semi,
        Token::Print,
        Token::Int(String::from("1")),
        Token::Semi,
    ];
    assert_eq!(want, l);
}

#[test]
fn a_cut_keyword_is_an_unknown_character() {
    assert_eq!(Err(LexError::UnknownCharacter('p')), lex("prin"));
    assert_eq!(Err(LexError::UnknownCharacter('p')), lex("pr int 1;"));
    assert_eq!(Err(LexError::UnknownCharacter('x')), lex("printx"));
    assert_eq!(Err(LexError::UnknownCharacter('P')), lex("Print 1;"));
}

#[test]
fn unknown_character_is_reported() {
    assert_eq!(Err(LexError::UnknownCharacter('$')), lex("4 $ 2"));
    assert_eq!(Err(LexError::UnknownCharacter('(')), lex("(1 + 2);"));
    assert_eq!(Err(LexError::UnknownCharacter('.')), lex("1.5"));
    assert_eq!(Err(LexError::UnknownCharacter('\u{e9}')), lex("1 + \u{e9}"));
}

#[test]
fn the_first_unknown_character_wins() {
    assert_eq!(Err(LexError::UnknownCharacter('a')), lex("1 a b"));
}

#[test]
fn blanks_of_every_kind_separate_tokens() {
    let l = lex("1\u{a0}2\u{3000}3\u{2003}4\u{85}5\u{b}6").unwrap();
    assert_eq!(6, l.len());
    assert_eq!(Token::Int(String::from("6")), l[5]);
}

#[test]
fn blank_characters_are_the_white_space_of_unicode() {
    let mut code: u32 = 0;
    while code <= 0x10ffff {
        if let Some(c) = char::from_u32(code) {
            assert_eq!(c.is_whitespace(), is_blank_char(c));
        }
        code += 1;
    }
}

#[test]
fn a_sign_is_a_token_of_its_own() {
    let l = lex("-5").unwrap();
    assert_eq!(vec![Token::Sub, Token::Int(String::from("5"))], l);
}
