//! End-to-end tests: lexing, parsing, and running Brainfuck programs.

use fck::interpreter::Interpreter;
use fck::lexer::lex;
use fck::lexer::Token;
use fck::parser::parse;
use fck::parser::AstNode;
use fck::Error;

/// Drive the verified machine until the program finishes or fails.
fn run(source: &str) -> Result<Interpreter, Error> {
    let tokens = lex(source)?;
    let ast = parse(&tokens)?;
    let mut interpreter = Interpreter::new();
    loop {
        if !interpreter.run(&ast, 1_000_000)? {
            return Ok(interpreter);
        }
    }
}

#[test]
fn increment_run_collapses_to_one_token() {
    let tokens = lex("+++").unwrap();
    assert_eq!(tokens, vec![Token::Increment(3)]);
}

#[test]
fn comment_only_source_lexes_to_nothing() {
    let tokens = lex("hello there! this has no operators at all 123 \n\t ~ %").unwrap();
    assert_eq!(tokens, vec![]);
}

#[test]
fn mixed_source_lexes_with_runs_and_singles() {
    let tokens = lex("+>>x<<<[-].,").unwrap();
    assert_eq!(
        tokens,
        vec![
            Token::Increment(1),
            Token::Right(2),
            Token::Left(3),
            Token::LoopStart,
            Token::Decrement(1),
            Token::LoopEnd,
            Token::Output,
            Token::Input,
        ]
    );
}

#[test]
fn empty_brackets_parse_to_one_empty_loop() {
    let tokens = lex("[]").unwrap();
    let ast = parse(&tokens).unwrap();
    match ast {
        AstNode::Sequence(nodes) => {
            assert_eq!(nodes.len(), 1);
            match &nodes[0] {
                AstNode::Loop(body) => assert_eq!(body.len(), 0),
                other => panic!("expected a loop node, got {:?}", other),
            }
        },
        other => panic!("expected a sequence root, got {:?}", other),
    }
}

#[test]
fn nested_brackets_parse_to_nested_loops() {
    let tokens = lex("[[+]]").unwrap();
    let ast = parse(&tokens).unwrap();
    match ast {
        AstNode::Sequence(nodes) => {
            assert_eq!(nodes.len(), 1);
            match &nodes[0] {
                AstNode::Loop(body) => {
                    assert_eq!(body.len(), 1);
                    match &body[0] {
                        AstNode::Loop(inner) => {
                            assert_eq!(inner.len(), 1);
                            assert!(matches!(inner[0], AstNode::Increment(1)));
                        },
                        other => panic!("expected a nested loop, got {:?}", other),
                    }
                },
                other => panic!("expected a loop node, got {:?}", other),
            }
        },
        other => panic!("expected a sequence root, got {:?}", other),
    }
}

#[test]
fn stray_close_bracket_fails_at_position_zero() {
    let tokens = lex("]").unwrap();
    match parse(&tokens) {
        Err(Error::UnmatchedBracket { position }) => assert_eq!(position, 0),
        other => panic!("expected an unmatched bracket error, got {:?}", other),
    }
}

#[test]
fn unterminated_open_bracket_fails_at_or_past_the_end() {
    let tokens = lex("[").unwrap();
    let len = tokens.len();
    match parse(&tokens) {
        Err(Error::UnmatchedBracket { position }) => assert!(position >= len),
        other => panic!("expected an unmatched bracket error, got {:?}", other),
    }
}

#[test]
fn stray_close_after_loop_reports_its_own_position() {
    let tokens = lex("[]]").unwrap();
    match parse(&tokens) {
        Err(Error::UnmatchedBracket { position }) => assert_eq!(position, 2),
        other => panic!("expected an unmatched bracket error, got {:?}", other),
    }
}

#[test]
fn nine_increments_then_output() {
    let interpreter = run("+++++++++.").unwrap();
    assert_eq!(interpreter.output(), &vec![9u8]);
    assert_eq!(interpreter.pointer(), 0);
    assert_eq!(interpreter.memory(0), 9);
}

#[test]
fn loop_clears_the_cell() {
    let interpreter = run("+[-]").unwrap();
    assert_eq!(interpreter.memory(0), 0);
    assert!(interpreter.halted());
}

#[test]
fn move_below_zero_fails_with_memory_out_of_bounds() {
    match run("<") {
        Err(Error::MemoryOutOfBounds { position }) => assert_eq!(position, 0),
        Err(other) => panic!("expected a memory out of bounds error, got {:?}", other),
        Ok(_) => panic!("expected a memory out of bounds error, got a finished run"),
    }
}

#[test]
fn move_past_the_tape_fails_with_memory_out_of_bounds() {
    let source: String = ">".repeat(30000);
    match run(&source) {
        Err(Error::MemoryOutOfBounds { position }) => assert_eq!(position, 0),
        Err(other) => panic!("expected a memory out of bounds error, got {:?}", other),
        Ok(_) => panic!("expected a memory out of bounds error, got a finished run"),
    }
}

#[test]
fn increment_wraps_from_255_to_0() {
    let source: String = "+".repeat(256);
    let interpreter = run(&source).unwrap();
    assert_eq!(interpreter.memory(0), 0);
    let source255: String = "+".repeat(255);
    let interpreter255 = run(&source255).unwrap();
    assert_eq!(interpreter255.memory(0), 255);
}

#[test]
fn decrement_wraps_from_0_to_255() {
    let interpreter = run("-").unwrap();
    assert_eq!(interpreter.memory(0), 255);
}

#[test]
fn running_twice_is_deterministic() {
    let source = "++[>+++<-]>.";
    let first = run(source).unwrap();
    let second = run(source).unwrap();
    assert_eq!(first.output(), second.output());
    assert_eq!(first.pointer(), second.pointer());
    for i in 0..5 {
        assert_eq!(first.memory(i), second.memory(i));
    }
    assert_eq!(first.output(), &vec![6u8]);
}

#[test]
fn pointer_moves_and_arithmetic_combine() {
    let interpreter = run("++>+++>+<<-").unwrap();
    assert_eq!(interpreter.memory(0), 1);
    assert_eq!(interpreter.memory(1), 3);
    assert_eq!(interpreter.memory(2), 1);
    assert_eq!(interpreter.pointer(), 0);
}

#[test]
fn unterminated_nested_bracket_reports_the_end() {
    let tokens = lex("[[]").unwrap();
    match parse(&tokens) {
        Err(Error::UnmatchedBracket { position }) => assert_eq!(position, 3),
        other => panic!("expected an unmatched bracket error, got {:?}", other),
    }
}

#[test]
fn clear_node_zeroes_the_cell() {
    let ast = AstNode::Sequence(vec![AstNode::Increment(7), AstNode::Clear]);
    let mut interpreter = Interpreter::new();
    loop {
        if !interpreter.run(&ast, 1000).unwrap() {
            break;
        }
    }
    assert_eq!(interpreter.memory(0), 0);
    assert!(interpreter.halted());
}

#[test]
fn stepping_one_node_at_a_time() {
    let tokens = lex("+>++").unwrap();
    let ast = parse(&tokens).unwrap();
    let mut interpreter = Interpreter::new();
    // root sequence, three instruction nodes, then the halt transition
    let mut steps = 0usize;
    while interpreter.step(&ast).unwrap() {
        steps += 1;
        assert!(steps < 100);
    }
    assert_eq!(interpreter.memory(0), 1);
    assert_eq!(interpreter.memory(1), 2);
    assert_eq!(interpreter.pointer(), 1);
}

#[test]
fn run_source_completes_a_program_within_budget() {
    let (interpreter, running) = fck::run_source("+++++++++.", 1000).unwrap();
    assert!(!running);
    assert!(interpreter.halted());
    assert_eq!(interpreter.output(), &vec![9u8]);
    assert_eq!(interpreter.memory(0), 9);
    assert_eq!(interpreter.pointer(), 0);
}

#[test]
fn run_source_reports_unmatched_brackets() {
    match fck::run_source("]", 10) {
        Err(Error::UnmatchedBracket { position }) => assert_eq!(position, 0),
        other => panic!("expected an unmatched bracket error, got a different outcome: {:?}", other.is_ok()),
    }
}

#[test]
fn run_source_reports_memory_out_of_bounds() {
    match fck::run_source("<", 10) {
        Err(Error::MemoryOutOfBounds { position }) => assert_eq!(position, 0),
        other => panic!("expected a memory out of bounds error, got a different outcome: {:?}", other.is_ok()),
    }
}

#[test]
fn run_source_keeps_a_looping_program_running() {
    let (interpreter, running) = fck::run_source("+[]", 5).unwrap();
    assert!(running);
    assert!(!interpreter.halted());
    assert_eq!(interpreter.memory(0), 1);
}
