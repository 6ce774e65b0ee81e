//! Front end: source text to a folded instruction sequence.
//!
//! Lexing keeps the eight instruction characters and drops everything else. The fold pass then
//! merges each pair of neighbouring counted instructions of one kind into a single instruction
//! whose count is the wrapping sum. Bracket balance is not checked here.

use vstd::prelude::*;

verus! {

/// One instruction of the folded program.
#[derive(Debug, Copy, Clone, PartialEq, Eq, Structural)]
pub enum Node {
    /// Add the count to the current cell, modulo 256.
    Increment(u8),
    /// Subtract the count from the current cell, modulo 256.
    Decrement(u8),
    /// Move the data pointer right by the count.
    Next(usize),
    /// Move the data pointer left by the count.
    Prev(usize),
    /// Emit the current cell.
    Write,
    /// Read one byte into the current cell.
    Read,
    /// Open a loop.
    LoopBegin,
    /// Close a loop.
    LoopEnd,
}

/// The instruction that a single source character stands for, if any.
pub open spec fn lex_char(c: char) -> Option<Node> {
    if c == '+' {
        Some(Node::Increment(1))
    } else if c == '-' {
        Some(Node::Decrement(1))
    } else if c == '>' {
        Some(Node::Next(1))
    } else if c == '<' {
        Some(Node::Prev(1))
    } else if c == '.' {
        Some(Node::Write)
    } else if c == ',' {
        Some(Node::Read)
    } else if c == '[' {
        Some(Node::LoopBegin)
    } else if c == ']' {
        Some(Node::LoopEnd)
    } else {
        None
    }
}

/// The unit instructions of a text, in order, with every other character dropped.
pub open spec fn lex(source: Seq<char>) -> Seq<Node>
    decreases source.len(),
{
    if source.len() == 0 {
        Seq::empty()
    } else {
        match lex_char(source.last()) {
            Some(node) => lex(source.drop_last()).push(node),
            None => lex(source.drop_last()),
        }
    }
}

/// Sum of two byte counts, modulo 256.
pub open spec fn wrap_u8(x: u8, y: u8) -> u8 {
    ((x + y) % 256) as u8
}

/// Sum of two pointer distances, modulo the size of the machine word.
pub open spec fn wrap_usize(x: usize, y: usize) -> usize {
    ((x + y) % (usize::MAX + 1)) as usize
}

/// Whether two instructions are counted instructions of the same kind.
pub open spec fn same_foldable_kind(a: Node, b: Node) -> bool {
    ||| a is Increment && b is Increment
    ||| a is Decrement && b is Decrement
    ||| a is Next && b is Next
    ||| a is Prev && b is Prev
}

/// The single instruction that replaces `prev` followed by `next`, where the two fold.
pub open spec fn merged(prev: Node, next: Node) -> Option<Node> {
    match (prev, next) {
        (Node::Increment(x), Node::Increment(y)) => Some(Node::Increment(wrap_u8(x, y))),
        (Node::Decrement(x), Node::Decrement(y)) => Some(Node::Decrement(wrap_u8(x, y))),
        (Node::Next(x), Node::Next(y)) => Some(Node::Next(wrap_usize(x, y))),
        (Node::Prev(x), Node::Prev(y)) => Some(Node::Prev(wrap_usize(x, y))),
        _ => None,
    }
}

/// The folded sequence `acc` extended by one more instruction.
pub open spec fn fold_push(acc: Seq<Node>, next: Node) -> Seq<Node> {
    if acc.len() > 0 && merged(acc.last(), next) is Some {
        acc.drop_last().push(merged(acc.last(), next)->0)
    } else {
        acc.push(next)
    }
}

/// The fold pass: instructions are taken left to right, each one merged into the last
/// instruction of the output where the two are of the same counted kind.
pub open spec fn simplify(code: Seq<Node>) -> Seq<Node>
    decreases code.len(),
{
    if code.len() == 0 {
        Seq::empty()
    } else {
        fold_push(simplify(code.drop_last()), code.last())
    }
}

/// The folded program of a source text.
pub open spec fn parse_spec(source: Seq<char>) -> Seq<Node> {
    simplify(lex(source))
}

/// No two neighbours are counted instructions of the same kind.
pub open spec fn fully_folded(code: Seq<Node>) -> bool {
    forall|i: int| 0 <= i < code.len() - 1 ==> !same_foldable_kind(#[trigger] code[i], code[i + 1])
}

/// The output of the fold pass never holds two neighbouring counted instructions of one kind.
pub proof fn lemma_simplify_fully_folded(code: Seq<Node>)
    ensures
        fully_folded(simplify(code)),
    decreases code.len(),
{
    if code.len() > 0 {
        lemma_simplify_fully_folded(code.drop_last());
    }
}

/// The fold pass leaves a sequence alone in which no two neighbours fold.
pub proof fn lemma_simplify_fixed_point(code: Seq<Node>)
    requires
        fully_folded(code),
    ensures
        simplify(code) == code,
    decreases code.len(),
{
    if code.len() > 0 {
        let front = code.drop_last();
        assert forall|i: int| 0 <= i < front.len() - 1 implies !same_foldable_kind(
            #[trigger] front[i],
            front[i + 1],
        ) by {
            assert(!same_foldable_kind(code[i], code[i + 1]));
        }
        lemma_simplify_fixed_point(front);
        if front.len() > 0 {
            assert(!same_foldable_kind(code[front.len() - 1], code[front.len() as int]));
        }
        assert(front.push(code.last()) =~= code);
    }
}

/// Folding twice is folding once.
pub proof fn lemma_simplify_idempotent(code: Seq<Node>)
    ensures
        simplify(simplify(code)) == simplify(code),
{
    lemma_simplify_fully_folded(code);
    lemma_simplify_fixed_point(simplify(code));
}

/// A text without any instruction character parses to the empty program.
pub proof fn lemma_comments_parse_to_nothing(source: Seq<char>)
    requires
        forall|i: int| 0 <= i < source.len() ==> lex_char(#[trigger] source[i]) is None,
    ensures
        parse_spec(source).len() == 0,
    decreases source.len(),
{
    if source.len() > 0 {
        lemma_comments_parse_to_nothing(source.drop_last());
    }
}

/// A text of `n` copies of one character.
pub open spec fn repeated(c: char, n: nat) -> Seq<char> {
    Seq::new(n, |i: int| c)
}

/// The counted instruction of the kind of `unit` with the count `n`, reduced modulo the
/// range of the count.
pub open spec fn counted(unit: Node, n: nat) -> Node {
    match unit {
        Node::Increment(_) => Node::Increment((n % 256) as u8),
        Node::Decrement(_) => Node::Decrement((n % 256) as u8),
        Node::Next(_) => Node::Next((n % (usize::MAX as nat + 1)) as usize),
        Node::Prev(_) => Node::Prev((n % (usize::MAX as nat + 1)) as usize),
        other => other,
    }
}

/// Whether an instruction carries a count.
pub open spec fn is_counted(node: Node) -> bool {
    node is Increment || node is Decrement || node is Next || node is Prev
}

/// Merging one more unit instruction into a counted instruction of the same kind raises its
/// count by one, modulo the range of the count.
pub proof fn lemma_count_one_more(unit: Node, n: nat)
    requires
        is_counted(unit),
        unit == counted(unit, 1),
    ensures
        merged(counted(unit, n), unit) == Some(counted(unit, n + 1)),
{
    let word = usize::MAX as int + 1;
    vstd::arithmetic::div_mod::lemma_add_mod_noop(n as int, 1, 256);
    vstd::arithmetic::div_mod::lemma_add_mod_noop(n as int, 1, word);
    vstd::arithmetic::div_mod::lemma_small_mod(1, 256);
    vstd::arithmetic::div_mod::lemma_small_mod(1, word as nat);
    vstd::arithmetic::div_mod::lemma_mod_bound(n as int, 256);
    vstd::arithmetic::div_mod::lemma_mod_bound(n as int, word);
}

/// The fold pass of a sequence followed by one more instruction.
pub proof fn lemma_simplify_push(code: Seq<Node>, next: Node)
    ensures
        simplify(code.push(next)) == fold_push(simplify(code), next),
{
    assert(code.push(next).drop_last() =~= code);
}

/// Folding `n` more unit instructions of one counted kind onto a sequence that does not end
/// in that kind appends a single instruction whose count is `n` modulo the range of the
/// count: 256 for cell arithmetic, the size of the machine word for pointer moves.
pub proof fn lemma_run_folds_to_one(before: Seq<Node>, c: char, n: nat)
    requires
        n >= 1,
        lex_char(c) is Some,
        is_counted(lex_char(c)->0),
        before.len() > 0 ==> !same_foldable_kind(before.last(), lex_char(c)->0),
    ensures
        simplify(before + lex(repeated(c, n))) == simplify(before).push(
            counted(lex_char(c)->0, n),
        ),
    decreases n,
{
    let unit = lex_char(c)->0;
    let text = repeated(c, n);
    assert(text.drop_last() =~= repeated(c, (n - 1) as nat));
    assert(text.last() == c);
    assert(unit == counted(unit, 1)) by {
        vstd::arithmetic::div_mod::lemma_small_mod(1, 256);
        vstd::arithmetic::div_mod::lemma_small_mod(1, (usize::MAX as int + 1) as nat);
    }
    if n == 1 {
        assert(lex(repeated(c, 0)) =~= Seq::<Node>::empty());
        assert(lex(text) =~= seq![unit]);
        assert(before + lex(text) =~= before.push(unit));
        lemma_simplify_push(before, unit);
        lemma_simplify_keeps_last_kind(before);
        let folded = simplify(before);
        if folded.len() > 0 {
            assert(!same_foldable_kind(folded.last(), unit));
            assert(merged(folded.last(), unit) is None);
        }
        assert(fold_push(folded, unit) == folded.push(unit));
    } else {
        lemma_run_folds_to_one(before, c, (n - 1) as nat);
        let shorter = lex(repeated(c, (n - 1) as nat));
        assert(lex(text) == shorter.push(unit));
        assert(before + lex(text) =~= (before + shorter).push(unit));
        lemma_simplify_push(before + shorter, unit);
        let folded = simplify(before).push(counted(unit, (n - 1) as nat));
        assert(simplify(before + shorter) == folded);
        assert(folded.drop_last() =~= simplify(before));
        assert(folded.last() == counted(unit, (n - 1) as nat));
        lemma_count_one_more(unit, (n - 1) as nat);
        assert(merged(folded.last(), unit) == Some(counted(unit, n)));
        assert(fold_push(folded, unit) == folded.drop_last().push(counted(unit, n)));
        assert(simplify(before + lex(text)) == simplify(before).push(counted(unit, n)));
    }
}

/// The fold pass keeps the kind of the last instruction: the output ends in a counted
/// instruction of some kind exactly when the input does, and is empty exactly when the
/// input is.
pub proof fn lemma_simplify_keeps_last_kind(code: Seq<Node>)
    ensures
        simplify(code).len() == 0 <==> code.len() == 0,
        code.len() > 0 ==> forall|other: Node|
            same_foldable_kind(simplify(code).last(), other) == same_foldable_kind(
                code.last(),
                other,
            ),
    decreases code.len(),
{
    if code.len() > 0 {
        lemma_simplify_keeps_last_kind(code.drop_last());
    }
}

/// A run of one counted instruction character folds to one instruction whose count wraps:
/// 256 times `+` give `Increment(0)`.
pub proof fn lemma_run_wraps(c: char, n: nat)
    requires
        n >= 1,
        lex_char(c) is Some,
        is_counted(lex_char(c)->0),
    ensures
        parse_spec(repeated(c, n)) == seq![counted(lex_char(c)->0, n)],
{
    lemma_run_folds_to_one(Seq::empty(), c, n);
    assert(Seq::<Node>::empty() + lex(repeated(c, n)) =~= lex(repeated(c, n)));
    assert(simplify(Seq::<Node>::empty()).push(counted(lex_char(c)->0, n)) =~= seq![
        counted(lex_char(c)->0, n),
    ]);
}

/// The character of an instruction.
pub open spec fn glyph(node: Node) -> char {
    match node {
        Node::Increment(_) => '+',
        Node::Decrement(_) => '-',
        Node::Next(_) => '>',
        Node::Prev(_) => '<',
        Node::Write => '.',
        Node::Read => ',',
        Node::LoopBegin => '[',
        Node::LoopEnd => ']',
    }
}

/// How often the character of an instruction is written out: its count, or once where it
/// has none. A cell count of zero stands for 256, the shortest run that folds to it.
pub open spec fn repetitions(node: Node) -> nat {
    match node {
        Node::Increment(n) => if n == 0 {
            256
        } else {
            n as nat
        },
        Node::Decrement(n) => if n == 0 {
            256
        } else {
            n as nat
        },
        Node::Next(n) => n as nat,
        Node::Prev(n) => n as nat,
        _ => 1,
    }
}

/// The canonical text of a program: each instruction written as its character, a counted
/// instruction as many times as its count says.
pub open spec fn unparse(code: Seq<Node>) -> Seq<char>
    decreases code.len(),
{
    if code.len() == 0 {
        Seq::empty()
    } else {
        unparse(code.drop_last()) + repeated(glyph(code.last()), repetitions(code.last()))
    }
}

/// No pointer move has the count zero. Such a move would stand for a run as long as the
/// machine word has values, which no text in memory holds.
pub open spec fn no_zero_moves(code: Seq<Node>) -> bool {
    forall|i: int| 0 <= i < code.len() ==> repetitions(#[trigger] code[i]) > 0
}

/// Every pointer move of the sequence has a count from 1 to `bound`.
pub open spec fn moves_within(code: Seq<Node>, bound: int) -> bool {
    forall|i: int|
        0 <= i < code.len() ==> match #[trigger] code[i] {
            Node::Next(n) => 1 <= n <= bound,
            Node::Prev(n) => 1 <= n <= bound,
            _ => true,
        }
}

/// Every instruction that lexing gives is a unit: its count, where it has one, is 1; and
/// there are no more of them than the text has characters.
pub proof fn lemma_lex_gives_units(source: Seq<char>)
    ensures
        lex(source).len() <= source.len(),
        moves_within(lex(source), 1),
    decreases source.len(),
{
    if source.len() > 0 {
        lemma_lex_gives_units(source.drop_last());
    }
}

/// Folding unit moves never wraps a pointer count as long as there are no more instructions
/// than the machine word has values: each count is at most the number of instructions.
pub proof fn lemma_moves_do_not_wrap(units: Seq<Node>)
    requires
        moves_within(units, 1),
        units.len() <= usize::MAX,
    ensures
        moves_within(simplify(units), units.len() as int),
    decreases units.len(),
{
    if units.len() > 0 {
        let front = units.drop_last();
        let next = units.last();
        assert forall|i: int| 0 <= i < front.len() implies match #[trigger] front[i] {
            Node::Next(n) => 1 <= n <= 1,
            Node::Prev(n) => 1 <= n <= 1,
            _ => true,
        } by {
            assert(front[i] == units[i]);
        }
        lemma_moves_do_not_wrap(front);
        let folded = simplify(front);
        let result = simplify(units);
        let last = units.len() - 1;
        assert(units[last] == next);
        assert(match units[last] {
            Node::Next(n) => 1 <= n <= 1,
            Node::Prev(n) => 1 <= n <= 1,
            _ => true,
        });
        if folded.len() > 0 && merged(folded.last(), next) is Some {
            let top = folded.len() - 1;
            assert(folded[top] == folded.last());
            assert(match folded[top] {
                Node::Next(n) => 1 <= n <= front.len(),
                Node::Prev(n) => 1 <= n <= front.len(),
                _ => true,
            });
            assert(result == folded.drop_last().push(merged(folded.last(), next)->0));
            assert forall|i: int| 0 <= i < result.len() implies match #[trigger] result[i] {
                Node::Next(n) => 1 <= n <= units.len(),
                Node::Prev(n) => 1 <= n <= units.len(),
                _ => true,
            } by {
                if i < top {
                    assert(result[i] == folded[i]);
                } else {
                    assert(result[i] == merged(folded.last(), next)->0);
                    match (folded.last(), next) {
                        (Node::Next(x), Node::Next(y)) => {
                            vstd::arithmetic::div_mod::lemma_small_mod(
                                (x + y) as nat,
                                (usize::MAX as int + 1) as nat,
                            );
                        },
                        (Node::Prev(x), Node::Prev(y)) => {
                            vstd::arithmetic::div_mod::lemma_small_mod(
                                (x + y) as nat,
                                (usize::MAX as int + 1) as nat,
                            );
                        },
                        _ => {},
                    }
                }
            }
        } else {
            assert(result == folded.push(next));
            assert forall|i: int| 0 <= i < result.len() implies match #[trigger] result[i] {
                Node::Next(n) => 1 <= n <= units.len(),
                Node::Prev(n) => 1 <= n <= units.len(),
                _ => true,
            } by {
                if i < folded.len() {
                    assert(result[i] == folded[i]);
                }
            }
        }
    }
}

/// Lexing a text in two parts gives the two results one after the other.
pub proof fn lemma_lex_concat(first: Seq<char>, second: Seq<char>)
    ensures
        lex(first + second) == lex(first) + lex(second),
    decreases second.len(),
{
    if second.len() == 0 {
        assert(first + second =~= first);
        assert(lex(first) + lex(second) =~= lex(first));
    } else {
        lemma_lex_concat(first, second.drop_last());
        assert((first + second).drop_last() =~= first + second.drop_last());
        assert((first + second).last() == second.last());
        match lex_char(second.last()) {
            Some(node) => {
                assert(lex(first) + lex(second) =~= (lex(first) + lex(second.drop_last())).push(
                    node,
                ));
            },
            None => {},
        }
    }
}

/// A folded program without zero moves is what its canonical text parses to.
pub proof fn lemma_unparse_then_parse(code: Seq<Node>)
    requires
        fully_folded(code),
        no_zero_moves(code),
    ensures
        parse_spec(unparse(code)) == code,
    decreases code.len(),
{
    if code.len() == 0 {
    } else {
        let front = code.drop_last();
        let node = code.last();
        assert(fully_folded(front)) by {
            assert forall|i: int| 0 <= i < front.len() - 1 implies !same_foldable_kind(
                #[trigger] front[i],
                front[i + 1],
            ) by {
                assert(!same_foldable_kind(code[i], code[i + 1]));
            }
        }
        assert(no_zero_moves(front)) by {
            assert forall|i: int| 0 <= i < front.len() implies repetitions(#[trigger] front[i])
                > 0 by {
                assert(repetitions(code[i]) > 0);
            }
        }
        lemma_unparse_then_parse(front);
        let text = repeated(glyph(node), repetitions(node));
        lemma_lex_concat(unparse(front), text);
        let units = lex(unparse(front));
        assert(simplify(units) == front);
        lemma_simplify_keeps_last_kind(units);
        if front.len() > 0 {
            assert(!same_foldable_kind(code[front.len() - 1], code[front.len() as int]));
            assert(front.last() == code[front.len() - 1]);
        }
        if is_counted(node) {
            assert(repetitions(node) >= 1);
            lemma_run_folds_to_one(units, glyph(node), repetitions(node));
            assert(counted(lex_char(glyph(node))->0, repetitions(node)) == node) by {
                let word = usize::MAX as int + 1;
                if node is Increment || node is Decrement {
                    if repetitions(node) == 256 {
                        assert(256nat % 256 == 0);
                    } else {
                        vstd::arithmetic::div_mod::lemma_small_mod(repetitions(node), 256);
                    }
                } else {
                    vstd::arithmetic::div_mod::lemma_small_mod(repetitions(node), word as nat);
                }
            }
            assert(front.push(node) =~= code);
        } else {
            assert(text =~= seq![glyph(node)]);
            assert(text.drop_last() =~= Seq::<char>::empty());
            assert(lex(text.drop_last()) =~= Seq::<Node>::empty());
            assert(lex(text) =~= seq![node]);
            assert(units + lex(text) =~= units.push(node));
            lemma_simplify_push(units, node);
            assert(front.push(node) =~= code);
        }
    }
}

/// Parsing is idempotent through the canonical text: the program of a source, written out
/// and parsed again, is the same program. This holds of every source that a machine can
/// hold, one of no more characters than the machine word has values.
pub proof fn lemma_parse_round_trip(source: Seq<char>)
    requires
        source.len() <= usize::MAX,
    ensures
        parse_spec(unparse(parse_spec(source))) == parse_spec(source),
{
    lemma_simplify_fully_folded(lex(source));
    lemma_lex_gives_units(source);
    lemma_moves_do_not_wrap(lex(source));
    let program = parse_spec(source);
    assert forall|i: int| 0 <= i < program.len() implies repetitions(#[trigger] program[i])
        > 0 by {}
    lemma_unparse_then_parse(program);
}

/// Merges `next` into the last instruction of a folded sequence, or appends it.
fn push_folded(result: &mut Vec<Node>, next: Node)
    ensures
        final(result)@ == fold_push(old(result)@, next),
{
    let len = result.len();
    if len > 0 {
        let combined = match (result[len - 1], next) {
            (Node::Increment(x), Node::Increment(y)) => Some(Node::Increment(x.wrapping_add(y))),
            (Node::Decrement(x), Node::Decrement(y)) => Some(Node::Decrement(x.wrapping_add(y))),
            (Node::Prev(x), Node::Prev(y)) => Some(Node::Prev(x.wrapping_add(y))),
            (Node::Next(x), Node::Next(y)) => Some(Node::Next(x.wrapping_add(y))),
            _ => None,
        };
        if let Some(new_op) = combined {
            result.pop();
            result.push(new_op);
            return ;
        }
    }
    result.push(next);
}

/// Runs the fold pass over a sequence of instructions.
pub fn pass_simplify(code: &Vec<Node>) -> (result: Vec<Node>)
    ensures
        result@ == simplify(code@),
        fully_folded(result@),
{
    let mut result: Vec<Node> = Vec::new();
    let n = code.len();
    let mut i: usize = 0;
    while i < n
        invariant
            n == code.len(),
            i <= n,
            result@ == simplify(code@.take(i as int)),
        decreases n - i,
    {
        proof {
            assert(code@.take(i + 1).drop_last() == code@.take(i as int));
        }
        push_folded(&mut result, code[i]);
        i += 1;
    }
    proof {
        assert(code@.take(n as int) == code@);
        lemma_simplify_fully_folded(code@);
    }
    result
}

/// Lexes and folds a source text. Every text is accepted.
pub fn parse(source: &str) -> (result: Result<Vec<Node>, String>)
    ensures
        result is Ok,
        result->Ok_0@ == parse_spec(source@),
        fully_folded(result->Ok_0@),
{
    let mut code: Vec<Node> = Vec::new();
    proof {
        vstd::string::axiom_spec_iter(source);
    }
    for c in it: source.chars()
        invariant
            it.seq() == source@,
            code@ == lex(source@.take(it.index())),
    {
        proof {
            assert(source@.take(it.index() + 1).drop_last() == source@.take(it.index()));
        }
        match c {
            '+' => code.push(Node::Increment(1)),
            '-' => code.push(Node::Decrement(1)),
            '>' => code.push(Node::Next(1)),
            '<' => code.push(Node::Prev(1)),
            '.' => code.push(Node::Write),
            ',' => code.push(Node::Read),
            '[' => code.push(Node::LoopBegin),
            ']' => code.push(Node::LoopEnd),
            _ => {},
        }
    }
    proof {
        assert(source@.take(source@.len() as int) == source@);
    }
    let folded = pass_simplify(&code);
    Ok(folded)
}

} // verus!
