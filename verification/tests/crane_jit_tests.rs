use bfjit::crane_jit::Program;
use bfjit::error::CompileError;
use bfjit::shims::Shims;

fn shims() -> Shims {
    Shims { write_byte: 0x1111111111111111, read_byte: 0x2222222222222222 }
}

#[test]
fn crane_lone_closing_bracket_is_refused() {
    let error = Program::new("]", shims()).err().unwrap();
    assert_eq!(error, CompileError::UnmatchedBracket);
    assert_eq!(error.message(), "Unclosing loop found.");
}

#[test]
fn crane_trailing_open_bracket_is_refused() {
    let error = Program::new("+[", shims()).err().unwrap();
    assert_eq!(error, CompileError::UnmatchedBracket);
    assert_eq!(error.message(), "Unclosing loop found.");
}

#[test]
fn crane_compiles_the_empty_program() {
    let program = Program::new("", shims()).unwrap();
    assert!(!program.bytes().is_empty());
}

#[test]
fn crane_compiles_every_instruction() {
    let program = Program::new("+-><.,[-]", shims()).unwrap();
    assert!(!program.bytes().is_empty());
}

#[test]
fn crane_compiles_nested_loops() {
    let program = Program::new("+++++[>+++++[>++<-]<-]>>.", shims()).unwrap();
    assert!(!program.bytes().is_empty());
}

#[test]
fn crane_compiles_loops_around_host_calls() {
    let program = Program::new(",[.[-],]", shims()).unwrap();
    assert!(!program.bytes().is_empty());
}

#[test]
fn crane_loaded_image_holds_the_code() {
    let program = Program::new("++++++++[>++++++++<-]>+.", shims()).unwrap();
    let image = program.load().unwrap();
    assert_eq!(&image[..], &program.bytes()[..]);
}

#[test]
fn crane_refuses_unbalanced_brackets_of_every_shape() {
    for source in ["]", "[", "][", "[]]", "[[]", "+[", "[]]["] {
        let error = Program::new(source, shims()).err().unwrap();
        assert_eq!(error, CompileError::UnmatchedBracket, "{:?}", source);
    }
}

#[test]
fn crane_compiles_long_moves_and_wrapped_counts() {
    let mut source = String::new();
    source.push_str(&"+".repeat(256));
    source.push_str(&">".repeat(1000));
    source.push_str(&"<".repeat(1000));
    source.push_str(&"-".repeat(255));
    source.push('.');
    let program = Program::new(&source, shims()).unwrap();
    assert!(!program.bytes().is_empty());
}

#[test]
fn crane_compiles_deeply_nested_loops() {
    let mut source = String::new();
    for _ in 0..100 {
        source.push_str("+[");
    }
    for _ in 0..100 {
        source.push_str("-]");
    }
    let program = Program::new(&source, shims()).unwrap();
    assert!(!program.bytes().is_empty());
}

#[test]
fn crane_same_text_gives_the_same_code() {
    let first = Program::new("+[>,.<-]", shims()).unwrap();
    let second = Program::new("+[>,.<-]", shims()).unwrap();
    assert_eq!(first.bytes(), second.bytes());
}

#[test]
fn crane_comments_change_nothing() {
    let plain = Program::new("+[>,.<-]", shims()).unwrap();
    let commented = Program::new("add one + loop [ > read , write . back < - ] done", shims()).unwrap();
    assert_eq!(plain.bytes(), commented.bytes());
}

#[test]
fn crane_write_calls_the_write_routine() {
    let base = Program::new(".", shims()).unwrap();
    let other_write = Shims { write_byte: 0x3333333333333333, read_byte: 0x2222222222222222 };
    let other_read = Shims { write_byte: 0x1111111111111111, read_byte: 0x4444444444444444 };
    assert_ne!(base.bytes(), Program::new(".", other_write).unwrap().bytes());
    assert_eq!(base.bytes(), Program::new(".", other_read).unwrap().bytes());
}

#[test]
fn crane_read_calls_the_read_routine() {
    let base = Program::new(",", shims()).unwrap();
    let other_write = Shims { write_byte: 0x3333333333333333, read_byte: 0x2222222222222222 };
    let other_read = Shims { write_byte: 0x1111111111111111, read_byte: 0x4444444444444444 };
    assert_eq!(base.bytes(), Program::new(",", other_write).unwrap().bytes());
    assert_ne!(base.bytes(), Program::new(",", other_read).unwrap().bytes());
}

#[test]
fn crane_code_follows_the_count() {
    let one = Program::new("+", shims()).unwrap();
    let two = Program::new("++", shims()).unwrap();
    let wrapped = Program::new(&"+".repeat(257), shims()).unwrap();
    assert_ne!(one.bytes(), two.bytes());
    assert_eq!(one.bytes(), wrapped.bytes());
}
