//! A Brainfuck lexer, parser, and interpreter with a verified core.
//!
//! The pipeline runs strictly forward: source text lexes to a sequence of
//! counted tokens ([`lexer::lex`]), the tokens parse to a tree with an
//! explicit loop-matching invariant ([`parser::parse`]), and a small-step
//! machine executes the tree ([`interpreter::Interpreter`]), with wrapping
//! cell arithmetic and bounds-checked pointer movement. Each stage's
//! behaviour is pinned by a specification function or relation, and the
//! stated laws — among them that running an input-free program is
//! deterministic — are proved.

use vstd::prelude::*;

pub mod error;
pub mod interpreter;
pub mod lexer;
pub mod parser;
pub mod text;

pub use error::Error;

use crate::interpreter::fresh_state;
use crate::interpreter::node_at;
use crate::interpreter::steps_to;
use crate::interpreter::Interpreter;
use crate::interpreter::MachineState;
use crate::lexer::lex;
use crate::lexer::lex_spec;
use crate::parser::parse;
use crate::parser::parse_error;
use crate::parser::parsed_root;
use crate::parser::AstNode;

verus! {

/// Lex and parse the provided Brainfuck source code and run it on a fresh
/// machine for at most `steps` machine steps. Returns the interpreter
/// instance for inspection, together with whether the program is still
/// running after the budget (the program itself faces no iteration
/// ceiling: a caller wanting completion keeps driving the machine with
/// [`Interpreter::run`], as the accompanying command line program does).
///
/// The contract chains the three stages: an `UnmatchedBracket` error comes
/// exactly when the lexed tokens have an unpaired bracket; otherwise some
/// parse of those tokens was driven from the fresh state, for exactly
/// `steps` steps when the program still runs, to a `MemoryOutOfBounds`
/// failure, or — only with the cursor on an input node — to an `Io`
/// failure.
/// A program lexed from source without the comma character never brings
/// the machine's cursor onto an input node. Together with the `Io` clauses
/// of [`run_source`] and [`Interpreter::run`], running such a source can
/// fail only with `UnmatchedBracket` or `MemoryOutOfBounds`, never with
/// `Io`.
pub proof fn lemma_comma_free_never_inputs(
    s: Seq<char>,
    ast: AstNode,
    m: MachineState,
    n: nat,
)
    requires
        forall|j: int| 0 <= j < s.len() ==> #[trigger] s[j] != ',',
        parsed_root(lex_spec(s, 0), ast),
        steps_to(ast, fresh_state(), Ok::<MachineState, int>(m), n),
    ensures
        !(node_at(ast, m.frames) is Input),
{
    crate::lexer::lemma_lex_no_comma_no_input(s, 0);
    crate::interpreter::lemma_no_input_not_reached(lex_spec(s, 0), ast, fresh_state(), m, n);
}

pub fn run_source(source: &str, steps: usize) -> (r: Result<(Interpreter, bool), Error>)
    ensures
        r matches Ok(p) ==> parse_error(lex_spec(source@, 0)) is None && p.1 == !p.0@.halted
            && exists|ast: AstNode, n: nat|
            parsed_root(lex_spec(source@, 0), ast) && n <= steps && #[trigger] steps_to(
                ast,
                fresh_state(),
                Ok::<MachineState, int>(p.0@),
                n,
            ) && (p.1 ==> n == steps),
        r matches Err(Error::UnmatchedBracket { position }) ==> parse_error(lex_spec(source@, 0))
            == Some(position as int),
        r matches Err(Error::MemoryOutOfBounds { position }) ==> parse_error(lex_spec(source@, 0))
            is None && exists|ast: AstNode, n: nat|
            parsed_root(lex_spec(source@, 0), ast) && n <= steps && #[trigger] steps_to(
                ast,
                fresh_state(),
                Err::<MachineState, int>(position as int),
                n,
            ),
        r matches Err(Error::Io { .. }) ==> parse_error(lex_spec(source@, 0)) is None && exists|
            ast: AstNode,
            m: MachineState,
            n: nat,
        |
            parsed_root(lex_spec(source@, 0), ast) && n < steps && #[trigger] steps_to(
                ast,
                fresh_state(),
                Ok::<MachineState, int>(m),
                n,
            ) && node_at(ast, m.frames) is Input && !m.halted,
        !(r matches Err(Error::InfiniteLoop { .. })),
{
    let tokens = match lex(source) {
        Ok(t) => t,
        Err(e) => {
            // Lexing never fails.
            return Err(e);
        },
    };
    let ast = match parse(&tokens) {
        Ok(a) => a,
        Err(e) => {
            return Err(e);
        },
    };
    proof {
        assert(parsed_root(lex_spec(source@, 0), ast));
    }
    let mut interpreter = Interpreter::new();
    let ghost st0 = interpreter@;
    let running = match interpreter.run(&ast, steps) {
        Ok(b) => b,
        Err(e) => {
            match e {
                Error::MemoryOutOfBounds { position } => {
                    proof {
                        let n = choose|n: nat|
                            n <= steps && #[trigger] steps_to(
                                ast,
                                st0,
                                Err::<MachineState, int>(position as int),
                                n,
                            );
                        assert(steps_to(
                            ast,
                            fresh_state(),
                            Err::<MachineState, int>(position as int),
                            n,
                        ));
                    }
                    return Err(Error::MemoryOutOfBounds { position });
                },
                other => {
                    proof {
                        let n = choose|n: nat|
                            n < steps && #[trigger] steps_to(
                                ast,
                                st0,
                                Ok::<MachineState, int>(interpreter@),
                                n,
                            );
                        assert(steps_to(
                            ast,
                            fresh_state(),
                            Ok::<MachineState, int>(interpreter@),
                            n,
                        ));
                    }
                    return Err(other);
                },
            }
        },
    };
    proof {
        let n = choose|n: nat|
            n <= steps && #[trigger] steps_to(
                ast,
                st0,
                Ok::<MachineState, int>(interpreter@),
                n,
            ) && (running ==> n == steps);
        assert(steps_to(ast, fresh_state(), Ok::<MachineState, int>(interpreter@), n));
        assert(exists|ast2: AstNode, n2: nat|
            parsed_root(lex_spec(source@, 0), ast2) && n2 <= steps && #[trigger] steps_to(
                ast2,
                fresh_state(),
                Ok::<MachineState, int>(interpreter@),
                n2,
            ) && (running ==> n2 == steps));
    }
    Ok((interpreter, running))
}

} // verus!
