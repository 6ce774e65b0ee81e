use bfjit::error::CompileError;
use bfjit::loops::{is_balanced, unclosed_loop_error};
use bfjit::parser::{parse, Node};

#[test]
fn balanced_sequences() {
    for source in ["", "+", "[]", "[[]]", "[][]", "+[>[-]<]", "[[][[]]]"] {
        assert!(is_balanced(&parse(source).unwrap()), "{:?}", source);
    }
}

#[test]
fn unbalanced_sequences() {
    for source in ["]", "[", "][", "[]]", "[[]", "+[", "[]][", "]["] {
        assert!(!is_balanced(&parse(source).unwrap()), "{:?}", source);
    }
}

#[test]
fn counts_do_not_matter_for_balance() {
    let code = vec![Node::LoopBegin, Node::Increment(0), Node::Next(usize::MAX), Node::LoopEnd];
    assert!(is_balanced(&code));
}

#[test]
fn the_message_for_unbalanced_brackets() {
    assert_eq!(unclosed_loop_error(), "Unclosing loop found.");
    assert_eq!(CompileError::UnmatchedBracket.message(), "Unclosing loop found.");
}

#[test]
fn the_message_of_a_code_generator_failure_is_its_account() {
    let error = CompileError::Backend("out of registers".to_string());
    assert_eq!(error.message(), "out of registers");
}
