use bfjit::error::CompileError;
use bfjit::fast_jit::code_gen::x86_64::emit;
use bfjit::fast_jit::Program;
use bfjit::parser::{parse, Node};
use bfjit::shims::Shims;

fn shims() -> Shims {
    Shims { write_byte: 0x1122334455667788, read_byte: 0x8877665544332211 }
}

#[test]
fn emit_empty_program_is_prologue_and_epilogue() {
    let code = parse("").unwrap();
    let bytes = emit(&code, shims()).unwrap();
    let expected: Vec<u8> = vec![
        0x55, 0x48, 0x89, 0xE5, 0x41, 0x54, 0x41, 0x55, 0x49, 0x89, 0xFC, 0x4D,
        0x31, 0xED, 0x48, 0x31, 0xC0, 0x41, 0x5D, 0x41, 0x5C, 0x5D, 0xC3,
    ];
    assert_eq!(bytes, expected);
}

#[test]
fn emit_counted_instructions() {
    let code = parse("+++->><").unwrap();
    let bytes = emit(&code, shims()).unwrap();
    let expected: Vec<u8> = vec![
        0x55, 0x48, 0x89, 0xE5, 0x41, 0x54, 0x41, 0x55, 0x49, 0x89, 0xFC, 0x4D,
        0x31, 0xED, 0x43, 0x80, 0x04, 0x2C, 0x03, 0x43, 0x80, 0x2C, 0x2C, 0x01,
        0x49, 0x81, 0xC5, 0x02, 0x00, 0x00, 0x00, 0x49, 0x81, 0xED, 0x01, 0x00,
        0x00, 0x00, 0x48, 0x31, 0xC0, 0x41, 0x5D, 0x41, 0x5C, 0x5D, 0xC3,
    ];
    assert_eq!(bytes, expected);
}

#[test]
fn emit_host_calls_jump_to_the_exit() {
    let code = parse(",.").unwrap();
    let bytes = emit(&code, shims()).unwrap();
    let expected: Vec<u8> = vec![
        0x55, 0x48, 0x89, 0xE5, 0x41, 0x54, 0x41, 0x55, 0x49, 0x89, 0xFC, 0x4D,
        0x31, 0xED, 0x48, 0xB8, 0x11, 0x22, 0x33, 0x44, 0x55, 0x66, 0x77, 0x88,
        0x4B, 0x8D, 0x3C, 0x2C, 0xFF, 0xD0, 0x48, 0x83, 0xF8, 0x00, 0x0F, 0x85,
        0x1E, 0x00, 0x00, 0x00, 0x48, 0xB8, 0x88, 0x77, 0x66, 0x55, 0x44, 0x33,
        0x22, 0x11, 0x43, 0x0F, 0xB6, 0x3C, 0x2C, 0xFF, 0xD0, 0x48, 0x83, 0xF8,
        0x00, 0x0F, 0x85, 0x03, 0x00, 0x00, 0x00, 0x48, 0x31, 0xC0, 0x41, 0x5D,
        0x41, 0x5C, 0x5D, 0xC3,
    ];
    assert_eq!(bytes, expected);
}

#[test]
fn emit_loop_jumps_reach_behind_the_partner() {
    let code = parse("+[>[-]<]").unwrap();
    let bytes = emit(&code, shims()).unwrap();
    let expected: Vec<u8> = vec![
        0x55, 0x48, 0x89, 0xE5, 0x41, 0x54, 0x41, 0x55, 0x49, 0x89, 0xFC, 0x4D,
        0x31, 0xED, 0x43, 0x80, 0x04, 0x2C, 0x01, 0x43, 0x80, 0x3C, 0x2C, 0x00,
        0x0F, 0x84, 0x34, 0x00, 0x00, 0x00, 0x49, 0x81, 0xC5, 0x01, 0x00, 0x00,
        0x00, 0x43, 0x80, 0x3C, 0x2C, 0x00, 0x0F, 0x84, 0x10, 0x00, 0x00, 0x00,
        0x43, 0x80, 0x2C, 0x2C, 0x01, 0x43, 0x80, 0x3C, 0x2C, 0x00, 0x0F, 0x85,
        0xF0, 0xFF, 0xFF, 0xFF, 0x49, 0x81, 0xED, 0x01, 0x00, 0x00, 0x00, 0x43,
        0x80, 0x3C, 0x2C, 0x00, 0x0F, 0x85, 0xCC, 0xFF, 0xFF, 0xFF, 0x48, 0x31,
        0xC0, 0x41, 0x5D, 0x41, 0x5C, 0x5D, 0xC3,
    ];
    assert_eq!(bytes, expected);
}

#[test]
fn emit_prints_capital_a_code() {
    let code = parse("++++++++[>++++++++<-]>+.").unwrap();
    let bytes = emit(&code, shims()).unwrap();
    let expected: Vec<u8> = vec![
        0x55, 0x48, 0x89, 0xE5, 0x41, 0x54, 0x41, 0x55, 0x49, 0x89, 0xFC, 0x4D,
        0x31, 0xED, 0x43, 0x80, 0x04, 0x2C, 0x08, 0x43, 0x80, 0x3C, 0x2C, 0x00,
        0x0F, 0x84, 0x23, 0x00, 0x00, 0x00, 0x49, 0x81, 0xC5, 0x01, 0x00, 0x00,
        0x00, 0x43, 0x80, 0x04, 0x2C, 0x08, 0x49, 0x81, 0xED, 0x01, 0x00, 0x00,
        0x00, 0x43, 0x80, 0x2C, 0x2C, 0x01, 0x43, 0x80, 0x3C, 0x2C, 0x00, 0x0F,
        0x85, 0xDD, 0xFF, 0xFF, 0xFF, 0x49, 0x81, 0xC5, 0x01, 0x00, 0x00, 0x00,
        0x43, 0x80, 0x04, 0x2C, 0x01, 0x48, 0xB8, 0x88, 0x77, 0x66, 0x55, 0x44,
        0x33, 0x22, 0x11, 0x43, 0x0F, 0xB6, 0x3C, 0x2C, 0xFF, 0xD0, 0x48, 0x83,
        0xF8, 0x00, 0x0F, 0x85, 0x03, 0x00, 0x00, 0x00, 0x48, 0x31, 0xC0, 0x41,
        0x5D, 0x41, 0x5C, 0x5D, 0xC3,
    ];
    assert_eq!(bytes, expected);
}

#[test]
fn emit_truncates_long_moves_to_32_bits() {
    let code = vec![Node::Next(0x1_0000_0005), Node::Prev(0xFFFF_FFFF)];
    let bytes = emit(&code, shims()).unwrap();
    assert_eq!(&bytes[14..21], &[0x49, 0x81, 0xC5, 0x05, 0x00, 0x00, 0x00]);
    assert_eq!(&bytes[21..28], &[0x49, 0x81, 0xED, 0xFF, 0xFF, 0xFF, 0xFF]);
}

#[test]
fn emit_refuses_unbalanced_brackets() {
    let cases: [Vec<Node>; 4] = [
        vec![Node::LoopEnd],
        vec![Node::LoopBegin],
        vec![Node::LoopBegin, Node::LoopEnd, Node::LoopEnd],
        vec![Node::Increment(1), Node::LoopBegin, Node::LoopBegin, Node::LoopEnd],
    ];
    for code in cases {
        let error = emit(&code, shims()).unwrap_err();
        assert_eq!(error, CompileError::UnmatchedBracket);
        assert_eq!(error.message(), "Unclosing loop found.");
    }
}

#[test]
fn program_of_lone_closing_bracket_is_refused() {
    let error = Program::new("]", shims()).err().unwrap();
    assert_eq!(error, CompileError::UnmatchedBracket);
    assert_eq!(error.message(), "Unclosing loop found.");
}

#[test]
fn program_of_trailing_open_bracket_is_refused() {
    let error = Program::new("+[", shims()).err().unwrap();
    assert_eq!(error, CompileError::UnmatchedBracket);
    assert_eq!(error.message(), "Unclosing loop found.");
}

#[test]
fn program_holds_the_emitted_code() {
    let program = Program::new("+[>[-]<] a comment", shims()).unwrap();
    let code = parse("+[>[-]<]").unwrap();
    assert_eq!(program.bytes(), &emit(&code, shims()).unwrap());
}

#[test]
fn code_depends_on_the_shim_addresses() {
    let one = Program::new(".", shims()).unwrap();
    let other = Program::new(".", Shims { write_byte: 1, read_byte: 2 }).unwrap();
    assert_eq!(one.bytes().len(), other.bytes().len());
    assert_eq!(&other.bytes()[16..24], &[1, 0, 0, 0, 0, 0, 0, 0]);
    assert_eq!(&one.bytes()[16..24], &[0x88, 0x77, 0x66, 0x55, 0x44, 0x33, 0x22, 0x11]);
}

#[test]
fn deeply_nested_loops_compile() {
    let mut text = String::new();
    for _ in 0..200 {
        text.push('[');
    }
    for _ in 0..200 {
        text.push(']');
    }
    let program = Program::new(&text, shims()).unwrap();
    assert_eq!(program.bytes().len(), 14 + 400 * 11 + 9);
}

#[test]
fn loaded_image_holds_the_code() {
    let program = Program::new("++++++++[>++++++++<-]>+.", shims()).unwrap();
    let image = program.load().unwrap();
    assert_eq!(&image[..], &program.bytes()[..]);
}

#[test]
fn emitted_code_is_never_empty() {
    let program = Program::new("", shims()).unwrap();
    assert_eq!(program.bytes().len(), 23);
    let image = program.load().unwrap();
    assert_eq!(image.len(), 23);
}

#[test]
fn each_instruction_has_its_size() {
    let sizes = [("+", 5), ("-", 5), (">", 7), ("<", 7), (".", 27), (",", 26), ("[]", 22)];
    for (source, size) in sizes {
        let program = Program::new(source, shims()).unwrap();
        assert_eq!(program.bytes().len(), 14 + size + 9, "{:?}", source);
    }
}

#[test]
fn folded_counts_go_into_the_immediates() {
    let program = Program::new(&"+".repeat(256), shims()).unwrap();
    assert_eq!(&program.bytes()[14..19], &[0x43, 0x80, 0x04, 0x2C, 0x00]);
    let program = Program::new(&"-".repeat(3), shims()).unwrap();
    assert_eq!(&program.bytes()[14..19], &[0x43, 0x80, 0x2C, 0x2C, 0x03]);
    let program = Program::new(&">".repeat(300), shims()).unwrap();
    assert_eq!(&program.bytes()[14..21], &[0x49, 0x81, 0xC5, 0x2C, 0x01, 0x00, 0x00]);
}

#[test]
fn fast_balanced_texts_compile() {
    for source in ["", "[]", "[[]]", "+[-]", ",[.,]", "[][]", "+[>+[>+<-]<-]"] {
        assert!(Program::new(source, shims()).is_ok(), "{:?}", source);
    }
}
