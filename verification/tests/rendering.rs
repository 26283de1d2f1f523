//! Tests for the diagnostic rendering of trees and for error messages.

use fck::lexer::lex;
use fck::parser::parse;
use fck::Error;

#[test]
fn rendering_a_counted_node() {
    let ast = parse(&lex("+++").unwrap()).unwrap();
    assert_eq!(ast.render(), "Sequence\n  Increment(3)\n");
}

#[test]
fn rendering_indents_loop_bodies() {
    let ast = parse(&lex("[->+<].").unwrap()).unwrap();
    assert_eq!(
        ast.render(),
        "Sequence\n  Loop\n    Decrement(1)\n    Right(1)\n    Increment(1)\n    Left(1)\n  Output\n"
    );
}

#[test]
fn rendering_multi_digit_counts() {
    let source: String = ">".repeat(12);
    let ast = parse(&lex(&source).unwrap()).unwrap();
    assert_eq!(ast.render(), "Sequence\n  Right(12)\n");
}

#[test]
fn unmatched_bracket_message_carries_the_position() {
    match parse(&lex("]").unwrap()) {
        Err(e) => assert_eq!(e.message(), "unmatched bracket at position 0"),
        Ok(_) => panic!("expected a parse failure"),
    }
}

#[test]
fn memory_out_of_bounds_message_carries_the_position() {
    let e = Error::MemoryOutOfBounds { position: 4095 };
    assert_eq!(e.message(), "memory access out of bounds at position 4095");
}

#[test]
fn infinite_loop_message_carries_the_position() {
    let e = Error::InfiniteLoop { position: 7 };
    assert_eq!(e.message(), "infinite loop detected at position 7");
}

#[test]
fn io_error_message_names_the_kind() {
    let e = Error::Io { internal: std::io::Error::new(std::io::ErrorKind::Other, "boom") };
    assert!(e.message().starts_with("io error: "));
}

#[test]
fn rendering_all_leaf_variants() {
    let ast = parse(&lex(">.<,").unwrap()).unwrap();
    assert_eq!(ast.render(), "Sequence\n  Right(1)\n  Output\n  Left(1)\n  Input\n");
}

#[test]
fn rendering_a_clear_node() {
    let ast = fck::parser::AstNode::Clear;
    assert_eq!(ast.render(), "Clear\n");
}
