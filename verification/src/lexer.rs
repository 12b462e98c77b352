//! The lexer: from source text to tokens.

use crate::decimal::is_digit;
use crate::decimal::is_digit_char;
use crate::decimal::is_digit_string;
use crate::error::LexError;
use vstd::prelude::*;

verus! {

/// A token of the language.
#[derive(PartialEq, Eq, Debug)]
pub enum Token {
    /// An integer literal, with its digits as they stand in the source.
    Int(String),
    Plus,
    Sub,
    Mult,
    Div,
    Semi,
    /// The keyword `print`.
    Print,
}

/// A token as contracts see it: the text of a literal is a sequence of characters.
pub enum Lexeme {
    Int(Seq<char>),
    Plus,
    Sub,
    Mult,
    Div,
    Semi,
    Print,
}

impl View for Token {
    type V = Lexeme;

    open spec fn view(&self) -> Lexeme {
        match self {
            Token::Int(digits) => Lexeme::Int(digits@),
            Token::Plus => Lexeme::Plus,
            Token::Sub => Lexeme::Sub,
            Token::Mult => Lexeme::Mult,
            Token::Div => Lexeme::Div,
            Token::Semi => Lexeme::Semi,
            Token::Print => Lexeme::Print,
        }
    }
}

/// The tokens of a sequence, each by its view.
pub open spec fn lexemes(tokens: Seq<Token>) -> Seq<Lexeme> {
    tokens.map_values(|t: Token| t@)
}

/// Whether `c` is blank: a character with the Unicode property `White_Space`.
pub open spec fn is_blank(c: char) -> bool {
    ||| '\u{9}' <= c <= '\u{d}'
    ||| c == ' '
    ||| c == '\u{85}'
    ||| c == '\u{a0}'
    ||| c == '\u{1680}'
    ||| '\u{2000}' <= c <= '\u{200a}'
    ||| c == '\u{2028}'
    ||| c == '\u{2029}'
    ||| c == '\u{202f}'
    ||| c == '\u{205f}'
    ||| c == '\u{3000}'
}

/// The token that a punctuation character makes by itself.
pub open spec fn punctuation(c: char) -> Option<Lexeme> {
    if c == '+' {
        Some(Lexeme::Plus)
    } else if c == '-' {
        Some(Lexeme::Sub)
    } else if c == '*' {
        Some(Lexeme::Mult)
    } else if c == '/' {
        Some(Lexeme::Div)
    } else if c == ';' {
        Some(Lexeme::Semi)
    } else {
        None
    }
}

/// The letters of the keyword `print`.
pub open spec fn print_keyword() -> Seq<char> {
    seq!['p', 'r', 'i', 'n', 't']
}

/// Whether the keyword `print` stands at offset `i` of `s`.
pub open spec fn keyword_at(s: Seq<char>, i: int) -> bool {
    0 <= i && i + 5 <= s.len() && s.subrange(i, i + 5) == print_keyword()
}

/// The end of the longest run of digits that starts at offset `i` of `s`.
pub open spec fn digits_end(s: Seq<char>, i: int) -> int
    decreases s.len() - i,
{
    if 0 <= i < s.len() && is_digit(s[i]) {
        digits_end(s, i + 1)
    } else {
        i
    }
}

/// The token that starts at offset `i` of `s`, which holds no blank, and the offset at
/// which it ends.
pub open spec fn token_at(s: Seq<char>, i: int) -> Result<(Lexeme, int), LexError>
    recommends
        0 <= i < s.len(),
        !is_blank(s[i]),
{
    if is_digit(s[i]) {
        Ok((Lexeme::Int(s.subrange(i, digits_end(s, i))), digits_end(s, i)))
    } else if keyword_at(s, i) {
        Ok((Lexeme::Print, i + 5))
    } else {
        match punctuation(s[i]) {
            Some(t) => Ok((t, i + 1)),
            None => Err(LexError::UnknownCharacter(s[i])),
        }
    }
}

/// `found`, then what the rest of the text gave.
pub open spec fn tokens_then(
    found: Seq<Lexeme>,
    rest: Result<Seq<Lexeme>, LexError>,
) -> Result<Seq<Lexeme>, LexError> {
    match rest {
        Ok(more) => Ok(found + more),
        Err(e) => Err(e),
    }
}

/// The tokens of `s` from offset `i` on, or the first character that starts none.
pub open spec fn lex_from(s: Seq<char>, i: int) -> Result<Seq<Lexeme>, LexError>
    decreases s.len() - i,
{
    if !(0 <= i < s.len()) {
        Ok(Seq::empty())
    } else if is_blank(s[i]) {
        lex_from(s, i + 1)
    } else {
        match token_at(s, i) {
            Ok((t, end)) => {
                proof {
                    lemma_token_at_bounds(s, i);
                }
                tokens_then(seq![t], lex_from(s, end))
            },
            Err(e) => Err(e),
        }
    }
}

/// The tokens of a source text, in order. Blanks separate tokens and make none; a digit
/// starts a literal that runs as far as digits go; `print` is a keyword; each of
/// `+ - * / ;` is a token. The first character that fits none of these is an error.
pub open spec fn lex_spec(s: Seq<char>) -> Result<Seq<Lexeme>, LexError> {
    lex_from(s, 0)
}

/// A run of digits ends after its start and within the text, holds digits only, and
/// stops before a digit only at the end of the text.
pub proof fn lemma_digits_end(s: Seq<char>, i: int)
    requires
        0 <= i <= s.len(),
    ensures
        i <= digits_end(s, i) <= s.len(),
        i < s.len() && is_digit(s[i]) ==> i < digits_end(s, i),
        forall|j: int| i <= j < digits_end(s, i) ==> is_digit(#[trigger] s[j]),
        digits_end(s, i) < s.len() ==> !is_digit(s[digits_end(s, i)]),
    decreases s.len() - i,
{
    if i < s.len() && is_digit(s[i]) {
        lemma_digits_end(s, i + 1);
    }
}

/// A token is never empty and never runs past the end of the text.
pub proof fn lemma_token_at_bounds(s: Seq<char>, i: int)
    requires
        0 <= i < s.len(),
    ensures
        token_at(s, i) matches Ok((_, end)) ==> i < end <= s.len(),
{
    lemma_digits_end(s, i);
}

/// Tokens found one after the other add up.
pub proof fn lemma_tokens_then_assoc(
    a: Seq<Lexeme>,
    b: Seq<Lexeme>,
    rest: Result<Seq<Lexeme>, LexError>,
)
    ensures
        tokens_then(a, tokens_then(b, rest)) == tokens_then(a + b, rest),
{
    match rest {
        Ok(more) => {
            assert(a + (b + more) =~= (a + b) + more);
        },
        Err(_) => {},
    }
}

/// A run of digits does not end while digits go on.
pub proof fn lemma_digits_end_prefix(s: Seq<char>, i: int, k: int)
    requires
        0 <= i <= k <= s.len(),
        forall|j: int| i <= j < k ==> is_digit(#[trigger] s[j]),
    ensures
        digits_end(s, i) == digits_end(s, k),
    decreases k - i,
{
    if i < k {
        lemma_digits_end_prefix(s, i + 1, k);
    }
}

/// A digit string is one token: the literal with just these digits.
pub proof fn lemma_digit_string_lexes(s: Seq<char>)
    requires
        is_digit_string(s),
    ensures
        lex_spec(s) == Ok::<Seq<Lexeme>, LexError>(seq![Lexeme::Int(s)]),
{
    lemma_digits_end_prefix(s, 0, s.len() as int);
    assert(s.subrange(0, s.len() as int) =~= s);
    assert(lex_from(s, s.len() as int) == Ok::<Seq<Lexeme>, LexError>(Seq::empty()));
    assert(seq![Lexeme::Int(s)] + Seq::<Lexeme>::empty() =~= seq![Lexeme::Int(s)]);
}

/// What is taken on trust of `String::push` of std, which appends the given character
/// to the end of the string: afterwards the string holds what it held before, then
/// `c`. Verus does not read the body of `push`; it believes this.
pub assume_specification[ String::push ](s: &mut String, c: char)
    ensures
        final(s)@ == old(s)@.push(c),
;

/// Whether `c` is blank.
pub fn is_blank_char(c: char) -> (r: bool)
    ensures
        r == is_blank(c),
{
    ('\u{9}' <= c && c <= '\u{d}') || c == ' ' || c == '\u{85}' || c == '\u{a0}' || c
        == '\u{1680}' || ('\u{2000}' <= c && c <= '\u{200a}') || c == '\u{2028}' || c
        == '\u{2029}' || c == '\u{202f}' || c == '\u{205f}' || c == '\u{3000}'
}

/// The characters of a text, one by one.
fn characters(source: &str) -> (chars: Vec<char>)
    ensures
        chars@ == source@,
{
    let mut chars: Vec<char> = Vec::new();
    for c in it: source.chars()
        invariant
            it.seq() == source@,
            chars@ == source@.take(it.index() as int),
    {
        chars.push(c);
        proof {
            let k = it.index() as int;
            assert(source@.take(k + 1) =~= source@.take(k).push(c));
        }
    }
    proof {
        assert(source@.take(source@.len() as int) =~= source@);
    }
    chars
}

/// Reads the literal that starts at `start`, where a digit stands, and returns it with
/// the offset of the first character after it.
fn number(chars: &Vec<char>, start: usize) -> (r: (Token, usize))
    requires
        start < chars.len(),
        is_digit(chars@[start as int]),
    ensures
        r.1 == digits_end(chars@, start as int),
        r.0@ == Lexeme::Int(chars@.subrange(start as int, r.1 as int)),
{
    let mut lexeme = String::new();
    let mut end: usize = start;
    proof {
        lemma_digits_end(chars@, start as int);
    }
    while end < chars.len() && is_digit_char(chars[end])
        invariant
            start <= end <= chars.len(),
            lexeme@ == chars@.subrange(start as int, end as int),
            digits_end(chars@, end as int) == digits_end(chars@, start as int),
        decreases chars.len() - end,
    {
        lexeme.push(chars[end]);
        proof {
            assert(chars@.subrange(start as int, end + 1) =~= chars@.subrange(
                start as int,
                end as int,
            ).push(chars@[end as int]));
        }
        end = end + 1;
    }
    (Token::Int(lexeme), end)
}

/// Whether the keyword `print` stands at `start`.
fn keyword(chars: &Vec<char>, start: usize) -> (r: bool)
    requires
        start < chars.len(),
    ensures
        r == keyword_at(chars@, start as int),
{
    if chars.len() - start < 5 {
        return false;
    }
    let r = chars[start] == 'p' && chars[start + 1] == 'r' && chars[start + 2] == 'i' && chars[start
        + 3] == 'n' && chars[start + 4] == 't';
    proof {
        let word = chars@.subrange(start as int, start + 5);
        if r {
            assert(word =~= print_keyword());
        } else {
            assert(word[0] == chars@[start as int]);
            assert(word[1] == chars@[start + 1]);
            assert(word[2] == chars@[start + 2]);
            assert(word[3] == chars@[start + 3]);
            assert(word[4] == chars@[start + 4]);
        }
    }
    r
}

/// Splits a source text into its tokens.
///
/// The whole text is read before anything is returned: a character that starts no
/// token fails the call, however many tokens came before it.
pub fn lex(source: &str) -> (r: Result<Vec<Token>, LexError>)
    ensures
        match r {
            Ok(tokens) => lex_spec(source@) == Ok::<Seq<Lexeme>, LexError>(lexemes(tokens@)),
            Err(e) => lex_spec(source@) == Err::<Seq<Lexeme>, LexError>(e),
        },
{
    let chars = characters(source);
    let mut tokens: Vec<Token> = Vec::new();
    let mut i: usize = 0;
    proof {
        assert(lexemes(tokens@) =~= Seq::<Lexeme>::empty());
        assert(tokens_then(Seq::<Lexeme>::empty(), lex_from(chars@, 0)) == lex_from(chars@, 0))
            by {
            match lex_from(chars@, 0) {
                Ok(more) => {
                    assert(Seq::<Lexeme>::empty() + more =~= more);
                },
                Err(_) => {},
            }
        }
    }
    while i < chars.len()
        invariant
            i <= chars.len(),
            chars@ == source@,
            lex_spec(source@) == tokens_then(lexemes(tokens@), lex_from(chars@, i as int)),
        decreases chars.len() - i,
    {
        let c = chars[i];
        if is_blank_char(c) {
            i = i + 1;
        } else {
            let ghost before = lexemes(tokens@);
            let ghost at = i as int;
            proof {
                lemma_token_at_bounds(chars@, at);
            }
            let (token, end) = if is_digit_char(c) {
                number(&chars, i)
            } else if keyword(&chars, i) {
                (Token::Print, i + 5)
            } else if c == '+' {
                (Token::Plus, i + 1)
            } else if c == '-' {
                (Token::Sub, i + 1)
            } else if c == '*' {
                (Token::Mult, i + 1)
            } else if c == '/' {
                (Token::Div, i + 1)
            } else if c == ';' {
                (Token::Semi, i + 1)
            } else {
                return Err(LexError::UnknownCharacter(c));
            };
            assert(token_at(chars@, at) == Ok::<(Lexeme, int), LexError>((token@, end as int)));
            tokens.push(token);
            i = end;
            proof {
                assert(lexemes(tokens@) =~= before + seq![token@]);
                lemma_tokens_then_assoc(before, seq![token@], lex_from(chars@, end as int));
            }
        }
    }
    proof {
        assert(lexemes(tokens@) + Seq::<Lexeme>::empty() =~= lexemes(tokens@));
    }
    Ok(tokens)
}

} // verus!
