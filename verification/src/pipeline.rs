//! The whole way from source text to output.

use crate::binterp::run as run_chunk;
use crate::binterp::Outcome;
use crate::compiler::compile;
use crate::error::Error;
use crate::error::LexError;
use crate::error::ParseError;
use crate::eval::eval_program;
use crate::eval::lemma_compile_then_run;
use crate::grammar::all_sums;
use crate::grammar::lemma_parse_program_tokens;
use crate::grammar::lemma_program_tokens_well_formed;
use crate::grammar::printing;
use crate::grammar::program_tokens;
use crate::lexer::lex;
use crate::lexer::lex_spec;
use crate::lexer::Lexeme;
use crate::parser::parse;
use crate::parser::parse_spec;
use crate::parser::Stmt;
use crate::spelling::lemma_lex_spelled;
use crate::spelling::spell;
use vstd::prelude::*;

verus! {

/// What running a source text shows: the bytes it wrote and how it ended.
pub struct Report {
    pub output: Seq<u8>,
    pub result: Result<(), Error>,
}

/// The report of a run of the machine, as part of the pipeline.
pub open spec fn report_of(outcome: Outcome) -> Report {
    Report {
        output: outcome.output,
        result: match outcome.result {
            Ok(()) => Ok(()),
            Err(e) => Err(Error::Runtime(e)),
        },
    }
}

/// What a source text does: it is lexed, its tokens are parsed, and the program is
/// run. A text that does not lex or does not parse writes nothing.
pub open spec fn interpret(source: Seq<char>) -> Report {
    match lex_spec(source) {
        Err(e) => Report { output: Seq::empty(), result: Err(Error::Lex(e)) },
        Ok(tokens) => match parse_spec(tokens) {
            Err(e) => Report { output: Seq::empty(), result: Err(Error::Parse(e)) },
            Ok(stmts) => report_of(eval_program(stmts)),
        },
    }
}

/// A source text for a program: the tokens that spell it, each with a space after it.
pub open spec fn source_of(stmts: Seq<Stmt>) -> Seq<char> {
    spell(program_tokens(stmts))
}

/// A program of the grammar, written out as source text, does what the program does
/// with every statement printing: the text lexes and parses to that program, and its
/// run writes and ends as evaluating the program's trees does.
pub proof fn lemma_interpret_source(stmts: Seq<Stmt>)
    requires
        all_sums(stmts),
    ensures
        lex_spec(source_of(stmts)) == Ok::<Seq<Lexeme>, LexError>(program_tokens(stmts)),
        parse_spec(program_tokens(stmts)) == Ok::<Seq<Stmt>, ParseError>(printing(stmts)),
        interpret(source_of(stmts)) == report_of(eval_program(printing(stmts))),
{
    lemma_program_tokens_well_formed(stmts);
    lemma_lex_spelled(program_tokens(stmts));
    lemma_parse_program_tokens(stmts);
}

/// Lexes, parses, compiles and runs `source`, appending to `out` what it prints.
///
/// The stages follow one another: the first that fails ends the call with its error,
/// tagged with the stage. Only the last stage writes, so a text that does not lex or
/// parse leaves `out` as it was; a program that fails while it runs leaves in `out`
/// the lines it printed before.
pub fn run(source: &str, out: &mut Vec<u8>) -> (r: Result<(), Error>)
    ensures
        r == interpret(source@).result,
        final(out)@ == old(out)@ + interpret(source@).output,
{
    let tokens = match lex(source) {
        Ok(tokens) => tokens,
        Err(e) => {
            assert(out@ + Seq::<u8>::empty() =~= out@);
            return Err(Error::Lex(e));
        },
    };
    let stmts = match parse(tokens) {
        Ok(stmts) => stmts,
        Err(e) => {
            assert(out@ + Seq::<u8>::empty() =~= out@);
            return Err(Error::Parse(e));
        },
    };
    proof {
        lemma_compile_then_run(stmts@);
    }
    let chunk = compile(stmts);
    match run_chunk(chunk, out) {
        Ok(()) => Ok(()),
        Err(e) => Err(Error::Runtime(e)),
    }
}

} // verus!
