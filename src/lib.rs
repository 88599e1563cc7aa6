//! Front end and code-generation plan for Edust, a small imperative language whose only
//! values are 64-bit signed integers. Source text is split into tokens (`lexer`), parsed
//! by recursive descent with precedence climbing (`parser`), checked for scopes, function
//! existence and arity (`semantic`), and each function is turned into a checked sequence of
//! SSA-builder steps (`plan`, `codegen`) that a backend replays to produce native code.
//! Each stage is specified by mathematical functions in its module, and its code is proved
//! against them.

use vstd::prelude::*;

pub mod ast;
pub mod codegen;
pub mod laws;
pub mod lexer;
pub mod parser;
pub mod plan;
pub mod semantic;
pub mod token;

use crate::ast::{Function, Program, functions_view};
use crate::plan::{PlanError, plan_fn, plan_function};
use crate::lexer::{LexError, Lexer, lex, tokens_view};
use crate::parser::{ParseError, Parser, parse_tokens};
use crate::semantic::{SemanticAnalyzer, SemanticError, SemanticErrorV, check_program};
use crate::token::Token;

verus! {

/// The stage that refused a source text, with its reason.
#[derive(Debug, Clone, PartialEq)]
pub enum CompileError {
    Lex(LexError),
    Parse(ParseError),
    Semantic(SemanticError),
    /// A function could not be planned for the backend.
    Codegen(PlanError),
}

/// The first function of `fns[i..]` that cannot be planned, as a code-generation error.
pub open spec fn codegen_outcome(fns: Seq<Function>, i: int) -> Result<(), CompileError>
    decreases fns.len() - i,
{
    if 0 <= i < fns.len() {
        match plan_fn(fns[i]) {
            Err(e) => Err(CompileError::Codegen(e)),
            Ok(_) => codegen_outcome(fns, i + 1),
        }
    } else {
        Ok(())
    }
}

/// What the front end makes of the tokens `ts`: a checked program, or the first refusal.
pub open spec fn front_end_outcome(ts: Seq<Token>, r: Result<Program, CompileError>) -> bool {
    match parse_tokens(ts) {
        Err(e) => r == Err::<Program, CompileError>(CompileError::Parse(e)),
        Ok(fs) => match check_program(fs) {
            Err(e) => r is Err && r->Err_0 is Semantic && r->Err_0->Semantic_0@ == e,
            Ok(()) => r is Ok && functions_view(r->Ok_0.functions@) == fs,
        },
    }
}

/// Lexes, parses and checks `source`, stopping at the first stage that refuses it.
pub fn analyze_source(source: &str) -> (r: Result<Program, CompileError>)
    requires
        source@.len() < usize::MAX,
    ensures
        match lex(source@) {
            Err(e) => r == Err::<Program, CompileError>(CompileError::Lex(e)),
            Ok(tv) => exists|ts: Seq<Token>| tokens_view(ts) == tv && front_end_outcome(ts, r),
        },
        r is Ok ==> check_program(functions_view(r->Ok_0.functions@)) == Ok::<(), SemanticErrorV>(()),
{
    let mut lexer = Lexer::new(source);
    let tokens = match lexer.tokenize() {
        Ok(t) => t,
        Err(e) => return Err(CompileError::Lex(e)),
    };
    let ghost ts = tokens@;
    proof {
        lexer::lemma_lex_ends_with_eof(source@);
        assert(tokens_view(ts).last() == ts.last()@);
    }
    let mut parser = Parser::new(tokens);
    let program = match parser.parse() {
        Ok(p) => p,
        Err(e) => {
            assert(front_end_outcome(ts, Err(CompileError::Parse(e))));
            return Err(CompileError::Parse(e));
        },
    };
    let mut analyzer = SemanticAnalyzer::new();
    match analyzer.analyze(&program) {
        Ok(()) => {},
        Err(e) => {
            let r = Err(CompileError::Semantic(e));
            assert(front_end_outcome(ts, r));
            return r;
        },
    }
    assert(front_end_outcome(ts, Ok(program)));
    Ok(program)
}

/// Checks and plans `source` without running it: `Ok` exactly when every stage accepts it,
/// code generation included.
pub fn compile_only(source: &str) -> (r: Result<(), CompileError>)
    requires
        source@.len() < usize::MAX,
    ensures
        match lex(source@) {
            Err(e) => r == Err::<(), CompileError>(CompileError::Lex(e)),
            Ok(tv) => exists|ts: Seq<Token>|
                tokens_view(ts) == tv && match parse_tokens(ts) {
                    Err(e) => r == Err::<(), CompileError>(CompileError::Parse(e)),
                    Ok(fs) => match check_program(fs) {
                        Err(e) => r is Err && r->Err_0 is Semantic && r->Err_0->Semantic_0@ == e,
                        Ok(()) => exists|p: Program|
                            functions_view(p.functions@) == fs && r == codegen_outcome(
                                p.functions@,
                                0,
                            ),
                    },
                },
        },
{
    let program = match analyze_source(source) {
        Ok(p) => p,
        Err(e) => return Err(e),
    };
    let mut res: Result<(), CompileError> = Ok(());
    let mut i: usize = 0;
    while i < program.functions.len()
        invariant_except_break
            res == Ok::<(), CompileError>(()),
            codegen_outcome(program.functions@, 0) == codegen_outcome(program.functions@, i as int),
        invariant
            i <= program.functions.len(),
        ensures
            codegen_outcome(program.functions@, 0) == res,
        decreases program.functions.len() - i,
    {
        match plan_function(&program.functions[i]) {
            Ok(_) => {},
            Err(e) => {
                res = Err(CompileError::Codegen(e));
                assert(codegen_outcome(program.functions@, i as int) == res);
                break;
            },
        }
        i = i + 1;
    }
    proof {
        match lex(source@) {
            Ok(tv) => {
                let ts = choose|ts: Seq<Token>|
                    tokens_view(ts) == tv && front_end_outcome(ts, Ok::<Program, CompileError>(program));
                assert(tokens_view(ts) == tv);
                assert(front_end_outcome(ts, Ok::<Program, CompileError>(program)));
            },
            Err(_) => {},
        }
    }
    res
}

} // verus!
