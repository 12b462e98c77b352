//! How tokens are written as text, and the proof that the lexer reads them back.

use crate::decimal::is_digit;
use crate::decimal::is_digit_string;
use crate::error::LexError;
use crate::lexer::digits_end;
use crate::lexer::is_blank;
use crate::lexer::keyword_at;
use crate::lexer::lemma_digits_end;
use crate::lexer::lemma_digits_end_prefix;
use crate::lexer::lemma_token_at_bounds;
use crate::lexer::lex_from;
use crate::lexer::lex_spec;
use crate::lexer::print_keyword;
use crate::lexer::token_at;
use crate::lexer::Lexeme;
use vstd::prelude::*;

verus! {

/// The characters that spell a token.
pub open spec fn lexeme_text(t: Lexeme) -> Seq<char> {
    match t {
        Lexeme::Int(digits) => digits,
        Lexeme::Plus => seq!['+'],
        Lexeme::Sub => seq!['-'],
        Lexeme::Mult => seq!['*'],
        Lexeme::Div => seq!['/'],
        Lexeme::Semi => seq![';'],
        Lexeme::Print => print_keyword(),
    }
}

/// A text that spells `tokens`: each token, and a space after it.
pub open spec fn spell(tokens: Seq<Lexeme>) -> Seq<char>
    decreases tokens.len(),
{
    if tokens.len() == 0 {
        Seq::empty()
    } else {
        lexeme_text(tokens.first()) + seq![' '] + spell(tokens.drop_first())
    }
}

/// Whether every literal among `tokens` holds a digit string.
pub open spec fn well_formed(tokens: Seq<Lexeme>) -> bool {
    forall|k: int|
        0 <= k < tokens.len() ==> (#[trigger] tokens[k] matches Lexeme::Int(digits)
            ==> is_digit_string(digits))
}

/// The token that starts where the text of `t` stands before a space is `t`, and it
/// ends at the space.
pub proof fn lemma_token_at_text(s: Seq<char>, i: int, t: Lexeme)
    requires
        t matches Lexeme::Int(digits) ==> is_digit_string(digits),
        0 <= i,
        i + lexeme_text(t).len() < s.len(),
        s.subrange(i, i + lexeme_text(t).len()) == lexeme_text(t),
        s[i + lexeme_text(t).len()] == ' ',
    ensures
        !is_blank(s[i]),
        token_at(s, i) == Ok::<(Lexeme, int), LexError>((t, i + lexeme_text(t).len())),
{
    let text = lexeme_text(t);
    let n = text.len() as int;
    assert(n > 0);
    assert forall|k: int| 0 <= k < n implies s[i + k] == text[k] by {
        assert(s[i + k] == s.subrange(i, i + n)[k]);
    }
    assert(s[i] == text[0]);
    match t {
        Lexeme::Int(digits) => {
            assert forall|j: int| i <= j < i + n implies is_digit(#[trigger] s[j]) by {
                assert(s[j] == text[j - i]);
            }
            lemma_digits_end_prefix(s, i, i + n);
            assert(digits_end(s, i + n) == i + n);
        },
        Lexeme::Print => {},
        _ => {
            assert(!keyword_at(s, i)) by {
                if keyword_at(s, i) {
                    assert(s.subrange(i, i + 5)[0] == 'p');
                }
            }
        },
    }
}

/// No blank stands inside a token.
pub proof fn lemma_token_text_has_no_blank(t: Lexeme, k: int)
    requires
        t matches Lexeme::Int(digits) ==> is_digit_string(digits),
        0 <= k < lexeme_text(t).len(),
    ensures
        !is_blank(lexeme_text(t)[k]),
{
}

/// Lexing undoes spelling: a text that spells tokens, each followed by a space, lexes
/// to these tokens.
pub proof fn lemma_lex_spelled_from(s: Seq<char>, i: int, tokens: Seq<Lexeme>)
    requires
        well_formed(tokens),
        0 <= i <= s.len(),
        s.subrange(i, s.len() as int) == spell(tokens),
    ensures
        lex_from(s, i) == Ok::<Seq<Lexeme>, LexError>(tokens),
    decreases tokens.len(),
{
    let rest_text = s.subrange(i, s.len() as int);
    if tokens.len() == 0 {
        assert(rest_text.len() == 0);
        assert(tokens =~= Seq::<Lexeme>::empty());
    } else {
        let t = tokens.first();
        let rest = tokens.drop_first();
        let text = lexeme_text(t);
        let n = text.len() as int;
        assert(rest_text =~= text + seq![' '] + spell(rest));
        assert(s.subrange(i, i + n) =~= text) by {
            assert forall|k: int| 0 <= k < n implies s[i + k] == text[k] by {
                assert(s[i + k] == rest_text[k]);
            }
        }
        assert(s[i + n] == ' ') by {
            assert(s[i + n] == rest_text[n]);
        }
        lemma_token_at_text(s, i, t);
        assert(s.subrange(i + n + 1, s.len() as int) =~= spell(rest)) by {
            assert forall|k: int| 0 <= k < spell(rest).len() implies s[i + n + 1 + k] == spell(
                rest,
            )[k] by {
                assert(s[i + n + 1 + k] == rest_text[n + 1 + k]);
            }
        }
        assert(well_formed(rest)) by {
            assert forall|k: int| 0 <= k < rest.len() implies (#[trigger] rest[k] matches Lexeme::Int(
                digits,
            ) ==> is_digit_string(digits)) by {
                assert(rest[k] == tokens[k + 1]);
            }
        }
        lemma_lex_spelled_from(s, i + n + 1, rest);
        assert(lex_from(s, i + n) == lex_from(s, i + n + 1));
        assert(seq![t] + rest =~= tokens);
    }
}

/// Lexing undoes spelling.
pub proof fn lemma_lex_spelled(tokens: Seq<Lexeme>)
    requires
        well_formed(tokens),
    ensures
        lex_spec(spell(tokens)) == Ok::<Seq<Lexeme>, LexError>(tokens),
{
    let s = spell(tokens);
    assert(s.subrange(0, s.len() as int) =~= s);
    lemma_lex_spelled_from(s, 0, tokens);
}

/// The literals that the lexer finds hold digit strings.
pub proof fn lemma_lex_from_well_formed(s: Seq<char>, i: int)
    ensures
        lex_from(s, i) matches Ok(tokens) ==> well_formed(tokens),
    decreases s.len() - i,
{
    if 0 <= i < s.len() {
        if is_blank(s[i]) {
            lemma_lex_from_well_formed(s, i + 1);
        } else {
            lemma_token_at_bounds(s, i);
            lemma_digits_end(s, i);
            match token_at(s, i) {
                Ok((t, end)) => {
                    lemma_lex_from_well_formed(s, end);
                    match lex_from(s, end) {
                        Ok(more) => {
                            let tokens = seq![t] + more;
                            assert forall|k: int| 0 <= k < tokens.len() implies (
                            #[trigger] tokens[k] matches Lexeme::Int(digits) ==> is_digit_string(
                                digits,
                            )) by {
                                if k > 0 {
                                    assert(tokens[k] == more[k - 1]);
                                }
                            }
                        },
                        Err(_) => {},
                    }
                },
                Err(_) => {},
            }
        }
    }
}

/// The literals that the lexer finds hold digit strings: a token that is no literal
/// for its text comes from elsewhere.
pub proof fn lemma_lex_well_formed(s: Seq<char>)
    ensures
        lex_spec(s) matches Ok(tokens) ==> well_formed(tokens),
{
    lemma_lex_from_well_formed(s, 0);
}

} // verus!
