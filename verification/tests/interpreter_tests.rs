use bfjit::interpreter::{Interpreter, OpCode, Request, Run, Stop, INIT_MEMORY_SIZE};
use bfjit::parser::{parse, Node};

fn run_text(source: &str, input: &[u8], max_steps: u64) -> Result<Run, String> {
    let mut machine = Interpreter::new();
    machine.run(source, &input.to_vec(), max_steps)
}

#[test]
fn prints_capital_a() {
    let run = run_text("++++++++[>++++++++<-]>+.", b"", 100_000).unwrap();
    assert_eq!(run.output, vec![0x41]);
    assert_eq!(run.stop, Stop::Halted);
}

#[test]
fn nested_loops_print_fifty() {
    let run = run_text("+++++[>+++++[>++<-]<-]>>.", b"", 100_000).unwrap();
    assert_eq!(run.output, vec![0x32]);
    assert_eq!(run.stop, Stop::Halted);
}

#[test]
fn echoes_one_byte() {
    let run = run_text(",.", b"x", 100).unwrap();
    assert_eq!(run.output, b"x".to_vec());
    assert_eq!(run.stop, Stop::Halted);
}

#[test]
fn end_of_input_reads_as_zero() {
    let run = run_text(",.", b"", 100).unwrap();
    assert_eq!(run.output, vec![0x00]);
    assert_eq!(run.stop, Stop::Halted);
}

#[test]
fn end_of_input_overwrites_the_cell() {
    let run = run_text("+++,.", b"", 100).unwrap();
    assert_eq!(run.output, vec![0x00]);
}

#[test]
fn endless_loop_uses_up_any_budget() {
    for budget in [0u64, 1, 2, 3, 1000, 100_000] {
        let run = run_text("+[]", b"", budget).unwrap();
        assert_eq!(run.stop, Stop::OutOfSteps);
        assert_eq!(run.output, Vec::<u8>::new());
    }
}

#[test]
fn lone_closing_bracket_is_refused() {
    let err = run_text("]", b"", 100).unwrap_err();
    assert_eq!(err, "Unclosing loop found.");
}

#[test]
fn trailing_open_bracket_is_refused() {
    let err = run_text("+[", b"", 100).unwrap_err();
    assert_eq!(err, "Unclosing loop found.");
    let err = run_text("[[]", b"", 100).unwrap_err();
    assert_eq!(err, "Unclosing loop found.");
}

#[test]
fn comment_only_source_runs_to_nothing() {
    let run = run_text("hello world\n\t 123", b"abc", 100).unwrap();
    assert_eq!(run.output, Vec::<u8>::new());
    assert_eq!(run.stop, Stop::Halted);
}

#[test]
fn compile_resolves_loop_partners() {
    let nodes = parse("+[>[-]<]").unwrap();
    let ops = Interpreter::compile(&nodes).unwrap();
    assert_eq!(
        ops,
        vec![
            OpCode::Increment(1),
            OpCode::LoopBegin(7),
            OpCode::Next(1),
            OpCode::LoopBegin(5),
            OpCode::Decrement(1),
            OpCode::LoopEnd(3),
            OpCode::Prev(1),
            OpCode::LoopEnd(1),
        ]
    );
}

#[test]
fn compile_refuses_unbalanced_brackets() {
    let cases: [Vec<Node>; 4] = [
        vec![Node::LoopEnd],
        vec![Node::LoopBegin],
        vec![Node::LoopBegin, Node::LoopEnd, Node::LoopEnd],
        vec![Node::LoopEnd, Node::LoopBegin],
    ];
    for nodes in cases {
        assert_eq!(Interpreter::compile(&nodes).unwrap_err(), "Unclosing loop found.");
    }
}

#[test]
fn compile_accepts_the_empty_program() {
    assert_eq!(Interpreter::compile(&Vec::new()).unwrap(), Vec::<OpCode>::new());
}

#[test]
fn fresh_machine_is_halted() {
    let machine = Interpreter::new();
    assert_eq!(machine.pending(), Request::Halt);
}

#[test]
fn step_by_step_requests() {
    let mut machine = Interpreter::new();
    machine.load(",+.").unwrap();
    assert_eq!(machine.pending(), Request::Read);
    machine.step(Some(7));
    assert_eq!(machine.pending(), Request::Silent);
    machine.step(None);
    assert_eq!(machine.pending(), Request::Write(8));
    machine.step(None);
    assert_eq!(machine.pending(), Request::Halt);
    machine.step(None);
    assert_eq!(machine.pending(), Request::Halt);
}

#[test]
fn reset_goes_back_to_the_start() {
    let mut machine = Interpreter::new();
    machine.load("+.").unwrap();
    machine.step(None);
    assert_eq!(machine.pending(), Request::Write(1));
    machine.reset();
    assert_eq!(machine.pending(), Request::Silent);
    machine.step(None);
    assert_eq!(machine.pending(), Request::Write(1));
}

#[test]
fn cells_wrap_modulo_256() {
    let run = run_text("-.", b"", 100).unwrap();
    assert_eq!(run.output, vec![255]);
    let run = run_text("-++.", b"", 100).unwrap();
    assert_eq!(run.output, vec![1]);
}

#[test]
fn moving_left_of_the_first_cell_stops_the_run() {
    let run = run_text("+.<.", b"", 100).unwrap();
    assert_eq!(run.output, vec![1]);
    assert_eq!(run.stop, Stop::OutOfBounds);
}

#[test]
fn cells_to_the_right_start_at_zero() {
    let mut machine = Interpreter::new();
    machine.load(">+.").unwrap();
    machine.step(None);
    assert_eq!(machine.pending(), Request::Silent);
    machine.step(None);
    assert_eq!(machine.pending(), Request::Write(1));
}

#[test]
fn compile_keeps_counts() {
    let nodes = vec![Node::Next(INIT_MEMORY_SIZE * 3), Node::Increment(0)];
    let ops = Interpreter::compile(&nodes).unwrap();
    assert_eq!(ops, vec![OpCode::Next(INIT_MEMORY_SIZE * 3), OpCode::Increment(0)]);
}

#[test]
fn failed_load_keeps_the_old_program() {
    let mut machine = Interpreter::new();
    machine.load("+.").unwrap();
    assert!(machine.load("]").is_err());
    machine.step(None);
    assert_eq!(machine.pending(), Request::Write(1));
}

#[test]
fn tape_grows_past_its_first_size() {
    let mut source = ">".repeat(INIT_MEMORY_SIZE + 5);
    source.push_str("+++.");
    let run = run_text(&source, b"", 100).unwrap();
    assert_eq!(run.output, vec![3]);
    assert_eq!(run.stop, Stop::Halted);
}

#[test]
fn input_is_consumed_in_order() {
    let run = run_text(",.,.,.,.", b"abc", 100).unwrap();
    assert_eq!(run.output, vec![b'a', b'b', b'c', 0]);
}

#[test]
fn echo_until_end_of_input() {
    let run = run_text(",[.,]", b"hello", 1000).unwrap();
    assert_eq!(run.output, b"hello".to_vec());
    assert_eq!(run.stop, Stop::Halted);
}

#[test]
fn the_budget_counts_instructions_of_the_folded_program() {
    let run = run_text("+++.", b"", 1).unwrap();
    assert_eq!(run.stop, Stop::OutOfSteps);
    assert_eq!(run.output, Vec::<u8>::new());
    let run = run_text("+++.", b"", 2).unwrap();
    assert_eq!(run.stop, Stop::Halted);
    assert_eq!(run.output, vec![3]);
}

#[test]
fn a_run_leaves_the_machine_at_the_start() {
    let mut machine = Interpreter::new();
    let first = machine.run("+.", &Vec::new(), 100).unwrap();
    assert_eq!(first.output, vec![1]);
    assert_eq!(machine.pending(), Request::Silent);
    machine.step(None);
    assert_eq!(machine.pending(), Request::Write(1));
}

#[test]
fn hello_world() {
    let source = "++++++++++[>+++++++>++++++++++>+++>+<<<<-]>++.>+.+++++++..+++.>++.<<+++++++++++++++.>.+++.------.--------.>+.>.";
    let run = run_text(source, b"", 100_000).unwrap();
    assert_eq!(run.output, b"Hello World!\n".to_vec());
}

#[test]
fn skipped_loop_body_is_not_run() {
    let run = run_text("[.]+.", b"", 100).unwrap();
    assert_eq!(run.output, vec![1]);
}
