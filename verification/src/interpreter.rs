//! Reference interpreter.
//!
//! The interpreter does no input or output of its own. A host asks the machine what its next
//! instruction needs ([`Interpreter::pending`]), does the reading or writing, and then lets
//! the machine execute that instruction ([`Interpreter::step`]). [`Interpreter::run`] plays
//! the host for a whole program over an input held in memory.

use vstd::prelude::*;
use crate::loops::{balanced, matching, depth, depth_change, never_negative, still_open,
    unclosed_loop_text, unclosed_loop_error};
use crate::parser::{parse, parse_spec, Node};

verus! {

/// Number of cells a fresh tape holds.
pub const INIT_MEMORY_SIZE: usize = 4096000;

/// One instruction of the interpreter's program, with loop ends resolved to indices.
#[derive(Debug, Copy, Clone, PartialEq, Eq, Structural)]
pub enum OpCode {
    /// Add the count to the current cell, modulo 256.
    Increment(u8),
    /// Subtract the count from the current cell, modulo 256.
    Decrement(u8),
    /// Move the data pointer right by the count.
    Next(usize),
    /// Move the data pointer left by the count.
    Prev(usize),
    /// Emit the current cell.
    Write,
    /// Read one byte into the current cell.
    Read,
    /// Open a loop; the index is that of the matching `LoopEnd`.
    LoopBegin(usize),
    /// Close a loop; the index is that of the matching `LoopBegin`.
    LoopEnd(usize),
}

/// What the next instruction needs from the host.
#[derive(Debug, Copy, Clone, PartialEq, Eq, Structural)]
pub enum Request {
    /// The program has ended.
    Halt,
    /// The instruction needs nothing from the host.
    Silent,
    /// The instruction emits this byte.
    Write(u8),
    /// The instruction consumes one byte of input.
    Read,
    /// The instruction would move the data pointer off the tape.
    OutOfBounds,
}

/// Why a run stopped.
#[derive(Debug, Copy, Clone, PartialEq, Eq, Structural)]
pub enum Stop {
    /// The program ran to its end.
    Halted,
    /// The step budget was used up first.
    OutOfSteps,
    /// The program tried to move the data pointer off the tape.
    OutOfBounds,
}

/// What a bounded run produced.
#[derive(Debug, PartialEq, Eq)]
pub struct Run {
    /// The bytes written, in order.
    pub output: Vec<u8>,
    /// Why the run stopped.
    pub stop: Stop,
}

/// The machine state as mathematics.
pub struct Machine {
    pub program: Seq<OpCode>,
    pub memory: Seq<u8>,
    pub pc: int,
    pub dp: int,
}

/// The instruction at `i` is what the instruction of the source at `i` becomes: the same
/// instruction, with a loop end resolved to the index of its partner.
pub open spec fn op_resolves(code: Seq<Node>, i: int, op: OpCode) -> bool {
    match code[i] {
        Node::Increment(n) => op == OpCode::Increment(n),
        Node::Decrement(n) => op == OpCode::Decrement(n),
        Node::Next(n) => op == OpCode::Next(n),
        Node::Prev(n) => op == OpCode::Prev(n),
        Node::Write => op == OpCode::Write,
        Node::Read => op == OpCode::Read,
        Node::LoopBegin => op matches OpCode::LoopBegin(close) && matching(code, i, close as int),
        Node::LoopEnd => op matches OpCode::LoopEnd(open) && matching(code, open as int, i),
    }
}

/// `ops` is the program of `code`, instruction by instruction.
pub open spec fn resolves(code: Seq<Node>, ops: Seq<OpCode>) -> bool {
    &&& ops.len() == code.len()
    &&& forall|i: int| 0 <= i < code.len() ==> op_resolves(code, i, #[trigger] ops[i])
}

/// Every loop instruction points at an instruction of the program.
pub open spec fn targets_in_range(program: Seq<OpCode>) -> bool {
    forall|i: int|
        0 <= i < program.len() ==> match #[trigger] program[i] {
            OpCode::LoopBegin(t) => t < program.len(),
            OpCode::LoopEnd(t) => t < program.len(),
            _ => true,
        }
}

/// A run of `n` zero cells.
pub open spec fn zeros(n: nat) -> Seq<u8> {
    Seq::new(n, |i: int| 0u8)
}

/// The larger of two integers.
pub open spec fn larger(a: int, b: int) -> int {
    if a >= b {
        a
    } else {
        b
    }
}

/// The length to which a tape of `len` cells grows to hold cell `dp`: twice its length, capped
/// at the largest length there is, or `dp + 1` where that is more.
pub open spec fn grown_len(len: int, dp: int) -> int {
    larger(if 2 * len <= usize::MAX { 2 * len } else { usize::MAX as int }, dp + 1)
}

/// The tape made long enough to hold cell `dp`: unchanged where it already is, else extended
/// with zero cells.
pub open spec fn grown(memory: Seq<u8>, dp: int) -> Seq<u8> {
    if dp < memory.len() {
        memory
    } else {
        memory + zeros((grown_len(memory.len() as int, dp) - memory.len()) as nat)
    }
}

impl Machine {
    /// The loop instructions point into the program, and the data pointer is one that a tape
    /// can hold.
    pub open spec fn well_formed(self) -> bool {
        &&& targets_in_range(self.program)
        &&& 0 <= self.pc
        &&& 0 <= self.dp < usize::MAX
    }

    /// The program has ended.
    pub open spec fn halted(self) -> bool {
        self.pc >= self.program.len()
    }

    /// The value of the current cell; cells past the end of the tape hold zero.
    pub open spec fn current(self) -> u8 {
        if 0 <= self.dp < self.memory.len() {
            self.memory[self.dp]
        } else {
            0
        }
    }

    /// What the next instruction needs from the host.
    pub open spec fn pending(self) -> Request {
        if self.halted() {
            Request::Halt
        } else {
            match self.program[self.pc] {
                OpCode::Write => Request::Write(self.current()),
                OpCode::Read => Request::Read,
                OpCode::Next(n) => if self.dp + n >= usize::MAX {
                    Request::OutOfBounds
                } else {
                    Request::Silent
                },
                OpCode::Prev(n) => if self.dp < n {
                    Request::OutOfBounds
                } else {
                    Request::Silent
                },
                _ => Request::Silent,
            }
        }
    }

    /// The state after the next instruction. `input` is the byte that a `Read` stores; at the
    /// end of the input it stores zero. A halted machine, and one whose next instruction
    /// would leave the tape, stays as it is.
    pub open spec fn step(self, input: Option<u8>) -> Machine {
        if self.pending() is Halt || self.pending() is OutOfBounds {
            self
        } else {
            let memory = grown(self.memory, self.dp);
            let cell = memory[self.dp];
            match self.program[self.pc] {
                OpCode::Increment(n) => Machine {
                    memory: memory.update(self.dp, ((cell + n) % 256) as u8),
                    pc: self.pc + 1,
                    ..self
                },
                OpCode::Decrement(n) => Machine {
                    memory: memory.update(self.dp, ((cell - n) % 256) as u8),
                    pc: self.pc + 1,
                    ..self
                },
                OpCode::Next(n) => Machine { memory, dp: self.dp + n, pc: self.pc + 1, ..self },
                OpCode::Prev(n) => Machine { memory, dp: self.dp - n, pc: self.pc + 1, ..self },
                OpCode::Write => Machine { memory, pc: self.pc + 1, ..self },
                OpCode::Read => Machine {
                    memory: memory.update(
                        self.dp,
                        match input {
                            Some(byte) => byte,
                            None => 0u8,
                        },
                    ),
                    pc: self.pc + 1,
                    ..self
                },
                OpCode::LoopBegin(close) => Machine {
                    memory,
                    pc: if cell == 0 {
                        close + 1
                    } else {
                        self.pc + 1
                    },
                    ..self
                },
                OpCode::LoopEnd(open) => Machine {
                    memory,
                    pc: if cell != 0 {
                        open + 1
                    } else {
                        self.pc + 1
                    },
                    ..self
                },
            }
        }
    }

    /// The machine at the start of a run of the same program.
    pub open spec fn restarted(self) -> Machine {
        Machine { program: self.program, memory: zeros(INIT_MEMORY_SIZE as nat), pc: 0, dp: 0 }
    }
}

/// The output and the stop reason of a run of at most `fuel` instructions that starts in `m`
/// with `input` still unread and `output` already written.
pub open spec fn run_from(m: Machine, input: Seq<u8>, output: Seq<u8>, fuel: nat) -> (Seq<u8>, Stop)
    decreases fuel,
{
    match m.pending() {
        Request::Halt => (output, Stop::Halted),
        Request::OutOfBounds => (output, Stop::OutOfBounds),
        request => if fuel == 0 {
            (output, Stop::OutOfSteps)
        } else {
            match request {
                Request::Write(byte) => run_from(
                    m.step(None),
                    input,
                    output.push(byte),
                    (fuel - 1) as nat,
                ),
                Request::Read => if input.len() > 0 {
                    run_from(m.step(Some(input[0])), input.drop_first(), output, (fuel - 1) as nat)
                } else {
                    run_from(m.step(None), input, output, (fuel - 1) as nat)
                },
                _ => run_from(m.step(None), input, output, (fuel - 1) as nat),
            }
        },
    }
}

/// An instruction sequence has at most one program: the partner of each loop instruction is
/// determined.
pub proof fn lemma_resolution_unique(code: Seq<Node>, first: Seq<OpCode>, second: Seq<OpCode>)
    requires
        resolves(code, first),
        resolves(code, second),
    ensures
        first == second,
{
    assert forall|i: int| 0 <= i < code.len() implies first[i] == second[i] by {
        assert(op_resolves(code, i, first[i]));
        assert(op_resolves(code, i, second[i]));
        match code[i] {
            Node::LoopBegin => {
                crate::loops::lemma_matching_close_unique(
                    code,
                    i,
                    first[i]->LoopBegin_0 as int,
                    second[i]->LoopBegin_0 as int,
                );
            },
            Node::LoopEnd => {
                crate::loops::lemma_matching_open_unique(
                    code,
                    first[i]->LoopEnd_0 as int,
                    second[i]->LoopEnd_0 as int,
                    i,
                );
            },
            _ => {},
        }
    }
    assert(first =~= second);
}

/// A machine without instructions halts at once and writes nothing.
pub proof fn lemma_empty_program_is_silent(m: Machine, input: Seq<u8>, fuel: nat)
    requires
        m.program.len() == 0,
        m.pc >= 0,
    ensures
        run_from(m, input, Seq::empty(), fuel) == (Seq::<u8>::empty(), Stop::Halted),
{
}

/// The program of a loop that never ends: set the cell to one, then loop on it with an
/// empty body.
pub open spec fn endless() -> Seq<OpCode> {
    seq![OpCode::Increment(1), OpCode::LoopBegin(2), OpCode::LoopEnd(1)]
}

/// The endless program is the program of the text `+[]`.
pub proof fn lemma_endless_is_the_program_of_its_text()
    ensures
        parse_spec(seq!['+', '[', ']']) == seq![Node::Increment(1), Node::LoopBegin, Node::LoopEnd],
        resolves(seq![Node::Increment(1), Node::LoopBegin, Node::LoopEnd], endless()),
{
    let text = seq!['+', '[', ']'];
    let code = seq![Node::Increment(1), Node::LoopBegin, Node::LoopEnd];
    assert(text.drop_last() =~= seq!['+', '[']);
    assert(seq!['+', '['].drop_last() =~= seq!['+']);
    assert(seq!['+'].drop_last() =~= Seq::<char>::empty());
    reveal_with_fuel(crate::parser::lex, 4);
    assert(crate::parser::lex(text) =~= code);
    assert(code.drop_last() =~= seq![Node::Increment(1), Node::LoopBegin]);
    assert(seq![Node::Increment(1), Node::LoopBegin].drop_last() =~= seq![Node::Increment(1)]);
    assert(seq![Node::Increment(1)].drop_last() =~= Seq::<Node>::empty());
    reveal_with_fuel(crate::parser::simplify, 4);
    assert(crate::parser::simplify(code) =~= code);
    reveal_with_fuel(depth, 4);
    assert(depth(code, 1) == 0);
    assert(depth(code, 2) == 1);
    assert(depth(code, 3) == 0);
    assert(matching(code, 1, 2));
}

/// A machine that stands at the end of the endless loop on a cell that is not zero stays
/// there, whatever the budget, and writes nothing.
proof fn lemma_spinning(m: Machine, input: Seq<u8>, output: Seq<u8>, fuel: nat)
    requires
        m.program == endless(),
        m.pc == 2,
        m.dp == 0,
        m.memory.len() > 0,
        m.memory[0] != 0,
    ensures
        run_from(m, input, output, fuel) == (output, Stop::OutOfSteps),
    decreases fuel,
{
    if fuel > 0 {
        assert(m.step(None) == m);
        lemma_spinning(m, input, output, (fuel - 1) as nat);
    }
}

/// The endless loop never ends: started on a zeroed tape, it neither halts nor writes
/// within any budget of steps.
pub proof fn lemma_endless_loop_never_halts(input: Seq<u8>, fuel: nat)
    ensures
        run_from(
            Machine { program: endless(), memory: zeros(INIT_MEMORY_SIZE as nat), pc: 0, dp: 0 },
            input,
            Seq::empty(),
            fuel,
        ) == (Seq::<u8>::empty(), Stop::OutOfSteps),
{
    let start = Machine {
        program: endless(),
        memory: zeros(INIT_MEMORY_SIZE as nat),
        pc: 0,
        dp: 0,
    };
    reveal_with_fuel(run_from, 3);
    if fuel >= 2 {
        let counted = start.step(None);
        let entered = counted.step(None);
        assert(counted.memory[0] == 1);
        assert(entered.pc == 2);
        assert(entered.memory[0] == 1);
        lemma_spinning(entered, input, Seq::empty(), (fuel - 2) as nat);
    }
}

/// A `Read` at the end of the input stores zero in the current cell and goes on with the
/// next instruction.
pub proof fn lemma_read_at_end_of_input(m: Machine)
    requires
        m.well_formed(),
        m.pending() is Read,
    ensures
        m.step(None).current() == 0,
        m.step(None).pc == m.pc + 1,
        m.step(None).dp == m.dp,
{
}

/// A `Read` stores the byte it is given, and a `Write` that follows writes that byte.
pub proof fn lemma_read_stores_the_byte(m: Machine, byte: u8)
    requires
        m.well_formed(),
        m.pending() is Read,
    ensures
        m.step(Some(byte)).current() == byte,
        m.step(Some(byte)).pc == m.pc + 1,
{
}

/// The state of the loop resolution after the first `done` instructions: `opens` holds the
/// positions of the loops still open, innermost last, and every other instruction so far is
/// resolved.
spec fn compiling(code: Seq<Node>, done: int, opens: Seq<usize>, ops: Seq<OpCode>) -> bool {
    &&& 0 <= done <= code.len()
    &&& ops.len() == done
    &&& never_negative(code, done)
    &&& depth(code, done) == opens.len()
    &&& forall|k: int| 0 <= k < opens.len() ==> still_open(code, done, #[trigger] opens[k] as int, k)
    &&& forall|j: int|
        0 <= j < done ==> op_resolves(code, j, #[trigger] ops[j]) || opens.contains(j as usize)
}

impl View for Interpreter {
    type V = Machine;

    closed spec fn view(&self) -> Machine {
        Machine {
            program: self.program@,
            memory: self.memory@,
            pc: self.pc as int,
            dp: self.dp as int,
        }
    }
}

/// The machine state of the interpreter.
pub struct Interpreter {
    program: Vec<OpCode>,
    memory: Vec<u8>,
    pc: usize,
    dp: usize,
}

impl Interpreter {
    /// A machine with no program, a zeroed tape, and both counters at zero.
    pub fn new() -> (machine: Self)
        ensures
            machine@.program.len() == 0,
            machine@ == machine@.restarted(),
            machine@.well_formed(),
    {
        let machine = Interpreter {
            program: Vec::new(),
            memory: vec![0u8; INIT_MEMORY_SIZE],
            pc: 0,
            dp: 0,
        };
        assert(machine.memory@ =~= zeros(INIT_MEMORY_SIZE as nat));
        machine
    }

    /// Resolves the loops of an instruction sequence. Fails, with the message
    /// "Unclosing loop found.", exactly when the brackets are not balanced.
    pub fn compile(nodes: &Vec<Node>) -> (result: Result<Vec<OpCode>, String>)
        ensures
            result is Ok <==> balanced(nodes@),
            result matches Ok(ops) ==> resolves(nodes@, ops@) && targets_in_range(ops@),
            result matches Err(message) ==> message@ == unclosed_loop_text(),
    {
        let mut loop_idx: Vec<usize> = Vec::new();
        let mut result: Vec<OpCode> = Vec::new();
        let n = nodes.len();
        let mut i: usize = 0;
        while i < n
            invariant
                n == nodes.len(),
                compiling(nodes@, i as int, loop_idx@, result@),
            decreases n - i,
        {
            let ghost code = nodes@;
            let ghost before = result@;
            let ghost opens = loop_idx@;
            assert(depth(code, i + 1) == depth(code, i as int) + depth_change(code[i as int]));
            match nodes[i] {
                Node::Increment(n) => result.push(OpCode::Increment(n)),
                Node::Decrement(n) => result.push(OpCode::Decrement(n)),
                Node::Prev(n) => result.push(OpCode::Prev(n)),
                Node::Next(n) => result.push(OpCode::Next(n)),
                Node::Write => result.push(OpCode::Write),
                Node::Read => result.push(OpCode::Read),
                Node::LoopBegin => {
                    loop_idx.push(i);
                    result.push(OpCode::LoopBegin(0));
                    proof {
                        assert(loop_idx@[opens.len() as int] == i);
                        assert forall|j: int| 0 <= j < i + 1 implies op_resolves(
                            code,
                            j,
                            #[trigger] result@[j],
                        ) || loop_idx@.contains(j as usize) by {
                            if j < i && opens.contains(j as usize) {
                                let k = choose|k: int| 0 <= k < opens.len() && opens[k] == j as usize;
                                assert(loop_idx@[k] == j as usize);
                            }
                        }
                    }
                },
                Node::LoopEnd => {
                    let idx = match loop_idx.pop() {
                        Some(idx) => idx,
                        None => {
                            assert(depth(code, i + 1) < 0);
                            return Err(unclosed_loop_error());
                        },
                    };
                    proof {
                        assert(still_open(code, i as int, opens[opens.len() - 1] as int, opens.len() - 1));
                        assert(matching(code, idx as int, i as int));
                    }
                    result[idx] = OpCode::LoopBegin(i);
                    result.push(OpCode::LoopEnd(idx));
                    proof {
                        assert forall|j: int| 0 <= j < i + 1 implies op_resolves(
                            code,
                            j,
                            #[trigger] result@[j],
                        ) || loop_idx@.contains(j as usize) by {
                            if j < i && j != idx {
                                assert(result@[j] == before[j]);
                                if opens.contains(j as usize) {
                                    let k = choose|k: int|
                                        0 <= k < opens.len() && opens[k] == j as usize;
                                    assert(still_open(code, i as int, opens[k] as int, k));
                                    if k == opens.len() - 1 {
                                        assert(false);
                                    }
                                    assert(loop_idx@[k] == j as usize);
                                }
                            }
                        }
                    }
                },
            }
            proof {
                assert forall|k: int| 0 <= k < loop_idx@.len() implies still_open(
                    code,
                    i + 1,
                    #[trigger] loop_idx@[k] as int,
                    k,
                ) by {
                    if k < opens.len() {
                        assert(still_open(code, i as int, opens[k] as int, k));
                    }
                }
            }
            i += 1;
        }
        if loop_idx.len() > 0 {
            return Err(unclosed_loop_error());
        }
        proof {
            assert forall|j: int| 0 <= j < result@.len() implies match #[trigger] result@[j] {
                OpCode::LoopBegin(t) => t < result@.len(),
                OpCode::LoopEnd(t) => t < result@.len(),
                _ => true,
            } by {
                assert(op_resolves(nodes@, j, result@[j]));
            }
        }
        Ok(result)
    }

    /// Lexes, folds and resolves a source text, and makes the result the machine's program,
    /// ready to run from its first instruction on a zeroed tape. On an unbalanced text the
    /// machine stays as it is.
    pub fn load(&mut self, source: &str) -> (result: Result<(), String>)
        ensures
            result is Ok <==> balanced(parse_spec(source@)),
            result is Ok ==> resolves(parse_spec(source@), final(self)@.program) && final(self)@
                == final(self)@.restarted() && final(self)@.well_formed(),
            result matches Err(message) ==> message@ == unclosed_loop_text() && final(self)@ == old(
                self,
            )@,
    {
        let nodes = match parse(source) {
            Ok(nodes) => nodes,
            Err(message) => {
                return Err(message);
            },
        };
        let program = match Self::compile(&nodes) {
            Ok(program) => program,
            Err(message) => {
                return Err(message);
            },
        };
        self.program = program;
        self.reset();
        Ok(())
    }

    /// What the next instruction needs from the host.
    pub fn pending(&self) -> (request: Request)
        ensures
            request == self@.pending(),
    {
        if self.pc >= self.program.len() {
            return Request::Halt;
        }
        match self.program[self.pc] {
            OpCode::Write => {
                if self.dp < self.memory.len() {
                    Request::Write(self.memory[self.dp])
                } else {
                    Request::Write(0)
                }
            },
            OpCode::Read => Request::Read,
            OpCode::Next(n) => {
                if n >= usize::MAX - self.dp {
                    Request::OutOfBounds
                } else {
                    Request::Silent
                }
            },
            OpCode::Prev(n) => {
                if self.dp < n {
                    Request::OutOfBounds
                } else {
                    Request::Silent
                }
            },
            _ => Request::Silent,
        }
    }

    /// Makes the tape long enough to hold the current cell.
    fn grow(&mut self)
        requires
            old(self)@.well_formed(),
        ensures
            final(self)@ == (Machine { memory: grown(old(self)@.memory, old(self)@.dp), ..old(self)@ }),
            final(self)@.dp < final(self)@.memory.len(),
    {
        let len = self.memory.len();
        if self.dp >= len {
            let doubled = if len <= usize::MAX / 2 {
                len * 2
            } else {
                usize::MAX
            };
            let new_len = if doubled > self.dp {
                doubled
            } else {
                self.dp + 1
            };
            let ghost old_memory = self.memory@;
            self.memory.resize(new_len, 0);
            proof {
                assert(old_memory.len() <= usize::MAX);
                assert(self.memory@ =~= grown(old_memory, self.dp as int));
            }
        }
    }

    /// Executes the next instruction. `input` is the byte that a `Read` stores; at the end of
    /// the input, pass `None`, and the cell gets zero. A halted machine, and one whose next
    /// instruction would leave the tape, stays as it is.
    pub fn step(&mut self, input: Option<u8>)
        requires
            old(self)@.well_formed(),
        ensures
            final(self)@ == old(self)@.step(input),
            final(self)@.well_formed(),
    {
        match self.pending() {
            Request::Halt => {
                return ;
            },
            Request::OutOfBounds => {
                return ;
            },
            _ => {},
        }
        assert(self.pc < self.program.len());
        self.grow();
        let cell = self.memory[self.dp];
        match self.program[self.pc] {
            OpCode::Increment(n) => {
                self.memory[self.dp] = cell.wrapping_add(n);
                self.pc = self.pc + 1;
            },
            OpCode::Decrement(n) => {
                self.memory[self.dp] = cell.wrapping_sub(n);
                self.pc = self.pc + 1;
            },
            OpCode::Next(n) => {
                self.dp = self.dp + n;
                self.pc = self.pc + 1;
            },
            OpCode::Prev(n) => {
                self.dp = self.dp - n;
                self.pc = self.pc + 1;
            },
            OpCode::Write => {
                self.pc = self.pc + 1;
            },
            OpCode::Read => {
                self.memory[self.dp] = match input {
                    Some(byte) => byte,
                    None => 0,
                };
                self.pc = self.pc + 1;
            },
            OpCode::LoopBegin(close) => {
                self.pc = if cell == 0 {
                    close + 1
                } else {
                    self.pc + 1
                };
            },
            OpCode::LoopEnd(open) => {
                self.pc = if cell != 0 {
                    open + 1
                } else {
                    self.pc + 1
                };
            },
        }
    }

    /// Loads a source text and runs it on the bytes of `input`, for at most `max_steps`
    /// instructions, collecting what it writes. Fails, before anything runs, exactly when the
    /// brackets of the text are not balanced. Afterwards the machine is back at the start of
    /// the loaded program, on a zeroed tape.
    pub fn run(&mut self, source: &str, input: &Vec<u8>, max_steps: u64) -> (result: Result<
        Run,
        String,
    >)
        ensures
            result is Ok <==> balanced(parse_spec(source@)),
            result matches Ok(run) ==> {
                &&& resolves(parse_spec(source@), final(self)@.program)
                &&& final(self)@ == final(self)@.restarted()
                &&& final(self)@.well_formed()
                &&& (run.output@, run.stop) == run_from(
                    final(self)@,
                    input@,
                    Seq::empty(),
                    max_steps as nat,
                )
            },
            result matches Err(message) ==> message@ == unclosed_loop_text() && final(self)@ == old(
                self,
            )@,
    {
        match self.load(source) {
            Ok(()) => {},
            Err(message) => {
                return Err(message);
            },
        }
        let ghost start = self@;
        let mut output: Vec<u8> = Vec::new();
        let mut consumed: usize = 0;
        let mut remaining = max_steps;
        assert(input@.skip(0) == input@);
        loop
            invariant
                balanced(parse_spec(source@)),
                resolves(parse_spec(source@), start.program),
                start == start.restarted(),
                self@.well_formed(),
                self@.program == start.program,
                consumed <= input.len(),
                run_from(start, input@, Seq::empty(), max_steps as nat) == run_from(
                    self@,
                    input@.skip(consumed as int),
                    output@,
                    remaining as nat,
                ),
            decreases remaining,
        {
            let request = self.pending();
            let stop = match request {
                Request::Halt => Some(Stop::Halted),
                Request::OutOfBounds => Some(Stop::OutOfBounds),
                _ => if remaining == 0 {
                    Some(Stop::OutOfSteps)
                } else {
                    None
                },
            };
            if let Some(stop) = stop {
                self.reset();
                return Ok(Run { output, stop });
            }
            match request {
                Request::Write(byte) => {
                    output.push(byte);
                    self.step(None);
                },
                Request::Read => {
                    if consumed < input.len() {
                        assert(input@.skip(consumed as int).drop_first() == input@.skip(
                            consumed + 1,
                        ));
                        self.step(Some(input[consumed]));
                        consumed += 1;
                    } else {
                        self.step(None);
                    }
                },
                _ => {
                    self.step(None);
                },
            }
            remaining -= 1;
        }
    }

    /// Puts the machine back at the start of its program, on a zeroed tape.
    pub fn reset(&mut self)
        ensures
            final(self)@ == old(self)@.restarted(),
    {
        self.memory = vec![0u8; INIT_MEMORY_SIZE];
        self.pc = 0;
        self.dp = 0;
        assert(self.memory@ =~= zeros(INIT_MEMORY_SIZE as nat));
    }
}

} // verus!
