//! Loop structure of an instruction sequence: nesting depth, balance, and which bracket
//! closes which.

use vstd::prelude::*;
use crate::parser::{lex, merged, parse_spec, simplify, Node};

verus! {

/// What one instruction adds to the nesting depth.
pub open spec fn depth_change(node: Node) -> int {
    match node {
        Node::LoopBegin => 1,
        Node::LoopEnd => -1,
        _ => 0,
    }
}

/// Number of loops open after the first `k` instructions, counting a `LoopEnd` without a
/// partner as minus one.
pub open spec fn depth(code: Seq<Node>, k: int) -> int
    decreases k,
{
    if k <= 0 {
        0
    } else {
        depth(code, k - 1) + depth_change(code[k - 1])
    }
}

/// The depth never drops below zero on the first `k` instructions.
pub open spec fn never_negative(code: Seq<Node>, k: int) -> bool {
    forall|m: int| 0 <= m <= k ==> #[trigger] depth(code, m) >= 0
}

/// Every `LoopEnd` closes an open loop and no loop is left open at the end.
pub open spec fn balanced(code: Seq<Node>) -> bool {
    never_negative(code, code.len() as int) && depth(code, code.len() as int) == 0
}

/// The `LoopBegin` at `open` and the `LoopEnd` at `close` delimit one loop: the depth after
/// `close` is the depth before `open`, and stays above it in between.
pub open spec fn matching(code: Seq<Node>, open: int, close: int) -> bool {
    &&& 0 <= open < close < code.len()
    &&& code[open] is LoopBegin
    &&& code[close] is LoopEnd
    &&& depth(code, close + 1) == depth(code, open)
    &&& forall|m: int| open < m <= close ==> #[trigger] depth(code, m) > depth(code, open)
}

/// The loop opened at `open` at nesting level `level` has not been closed by the first `done`
/// instructions.
pub open spec fn still_open(code: Seq<Node>, done: int, open: int, level: int) -> bool {
    &&& 0 <= open < done
    &&& code[open] is LoopBegin
    &&& depth(code, open) == level
    &&& forall|m: int| open < m <= done ==> #[trigger] depth(code, m) > level
}

/// The message for unbalanced brackets: a `LoopEnd` without a partner, or a loop left
/// open at the end.
pub open spec fn unclosed_loop_text() -> Seq<char> {
    "Unclosing loop found."@
}

/// The error message for unbalanced brackets.
pub fn unclosed_loop_error() -> (message: String)
    ensures
        message@ == unclosed_loop_text(),
{
    "Unclosing loop found.".to_owned()
}

/// Whether the brackets of an instruction sequence are balanced.
pub fn is_balanced(code: &Vec<Node>) -> (result: bool)
    ensures
        result == balanced(code@),
{
    let n = code.len();
    let mut open: usize = 0;
    let mut i: usize = 0;
    while i < n
        invariant
            n == code.len(),
            i <= n,
            never_negative(code@, i as int),
            depth(code@, i as int) == open,
            open <= i,
        decreases n - i,
    {
        assert(depth(code@, i + 1) == depth(code@, i as int) + depth_change(code@[i as int]));
        match code[i] {
            Node::LoopBegin => {
                open += 1;
            },
            Node::LoopEnd => {
                if open == 0 {
                    return false;
                }
                open -= 1;
            },
            _ => {},
        }
        i += 1;
    }
    open == 0
}

/// The `LoopEnd` that closes the loop opened at `open`.
pub open spec fn close_of(code: Seq<Node>, open: int) -> int {
    choose|close: int| matching(code, open, close)
}

/// The `LoopBegin` that opens the loop closed at `close`.
pub open spec fn open_of(code: Seq<Node>, close: int) -> int {
    choose|open: int| matching(code, open, close)
}

/// A `LoopBegin` has at most one matching `LoopEnd`.
pub proof fn lemma_matching_close_unique(code: Seq<Node>, open: int, close1: int, close2: int)
    requires
        matching(code, open, close1),
        matching(code, open, close2),
    ensures
        close1 == close2,
{
    if close1 < close2 {
        assert(depth(code, close1 + 1) > depth(code, open));
    } else if close2 < close1 {
        assert(depth(code, close2 + 1) > depth(code, open));
    }
}

/// A `LoopEnd` has at most one matching `LoopBegin`.
pub proof fn lemma_matching_open_unique(code: Seq<Node>, open1: int, open2: int, close: int)
    requires
        matching(code, open1, close),
        matching(code, open2, close),
    ensures
        open1 == open2,
{
    if open1 < open2 {
        // open2 lies inside the loop of open1, so it is deeper than open1; the loop of open2
        // ends at the depth of open2, yet the loop of open1 ends at the depth of open1.
        assert(depth(code, open2) > depth(code, open1));
    } else if open2 < open1 {
        assert(depth(code, open1) > depth(code, open2));
    }
}

/// Searches forward from `k` for the instruction that brings the depth back to that of `open`.
proof fn lemma_find_close(code: Seq<Node>, open: int, k: int) -> (close: int)
    requires
        0 <= open < k <= code.len(),
        code[open] is LoopBegin,
        depth(code, code.len() as int) <= depth(code, open),
        forall|m: int| open < m <= k ==> #[trigger] depth(code, m) > depth(code, open),
    ensures
        matching(code, open, close),
    decreases code.len() - k,
{
    // The depth at k is above that of `open`, so k is not yet the end of the sequence.
    assert(depth(code, k) > depth(code, open));
    assert(depth(code, k + 1) == depth(code, k) + depth_change(code[k]));
    if depth(code, k + 1) == depth(code, open) {
        k
    } else {
        lemma_find_close(code, open, k + 1)
    }
}

/// In a balanced sequence every `LoopBegin` has a matching `LoopEnd`.
pub proof fn lemma_loop_begin_has_match(code: Seq<Node>, open: int) -> (close: int)
    requires
        balanced(code),
        0 <= open < code.len(),
        code[open] is LoopBegin,
    ensures
        matching(code, open, close),
{
    assert(depth(code, open) >= 0);
    assert(depth(code, open + 1) == depth(code, open) + 1);
    lemma_find_close(code, open, open + 1)
}

/// Searches backward from `k` for the instruction that opened the loop closed at `close`.
proof fn lemma_find_open(code: Seq<Node>, close: int, k: int) -> (open: int)
    requires
        0 <= k <= close < code.len(),
        code[close] is LoopEnd,
        depth(code, 0) <= depth(code, close + 1),
        never_negative(code, code.len() as int),
        forall|m: int| k < m <= close ==> #[trigger] depth(code, m) > depth(code, close + 1),
        depth(code, k) >= depth(code, close + 1),
    ensures
        matching(code, open, close),
    decreases k,
{
    if depth(code, k) == depth(code, close + 1) {
        // The depth rises right after k, so the instruction at k opens a loop.
        assert(depth(code, k + 1) > depth(code, k));
        k
    } else {
        assert(k > 0) by {
            assert(depth(code, close + 1) >= 0);
        }
        lemma_find_open(code, close, k - 1)
    }
}

/// In a balanced sequence every `LoopEnd` has a matching `LoopBegin`.
pub proof fn lemma_loop_end_has_match(code: Seq<Node>, close: int) -> (open: int)
    requires
        balanced(code),
        0 <= close < code.len(),
        code[close] is LoopEnd,
    ensures
        matching(code, open, close),
{
    assert(depth(code, close + 1) == depth(code, close) - 1);
    assert(depth(code, close + 1) >= 0);
    lemma_find_open(code, close, close)
}

/// The instruction at `close` is the one and only partner of the `LoopBegin` at `open`.
pub open spec fn only_close(code: Seq<Node>, open: int, close: int) -> bool {
    matching(code, open, close) && forall|other: int| #[trigger]
        matching(code, open, other) ==> other == close
}

/// The instruction at `open` is the one and only partner of the `LoopEnd` at `close`.
pub open spec fn only_open(code: Seq<Node>, open: int, close: int) -> bool {
    matching(code, open, close) && forall|other: int| #[trigger]
        matching(code, other, close) ==> other == open
}

/// In a balanced sequence the loop instructions pair up: every `LoopBegin` has exactly one
/// matching `LoopEnd`, at which the nesting depth is back where the loop began, and every
/// `LoopEnd` has exactly one matching `LoopBegin`.
pub proof fn lemma_loops_pair_up(code: Seq<Node>)
    requires
        balanced(code),
    ensures
        forall|open: int|
            0 <= open < code.len() && #[trigger] code[open] is LoopBegin ==> exists|close: int|
                only_close(code, open, close),
        forall|close: int|
            0 <= close < code.len() && #[trigger] code[close] is LoopEnd ==> exists|open: int|
                only_open(code, open, close),
{
    assert forall|open: int|
        0 <= open < code.len() && #[trigger] code[open] is LoopBegin implies exists|close: int|
        only_close(code, open, close) by {
        let close = lemma_loop_begin_has_match(code, open);
        assert forall|other: int| #[trigger] matching(code, open, other) implies other == close by {
            lemma_matching_close_unique(code, open, other, close);
        }
        assert(only_close(code, open, close));
    }
    assert forall|close: int|
        0 <= close < code.len() && #[trigger] code[close] is LoopEnd implies exists|open: int|
        only_open(code, open, close) by {
        let open = lemma_loop_end_has_match(code, close);
        assert forall|other: int| #[trigger] matching(code, other, close) implies other == open by {
            lemma_matching_open_unique(code, other, open, close);
        }
        assert(only_open(code, open, close));
    }
}

/// The loop instructions of a sequence, in order.
pub open spec fn brackets(code: Seq<Node>) -> Seq<Node>
    decreases code.len(),
{
    if code.len() == 0 {
        Seq::empty()
    } else if code.last() is LoopBegin || code.last() is LoopEnd {
        brackets(code.drop_last()).push(code.last())
    } else {
        brackets(code.drop_last())
    }
}

/// Whether the depth stayed at zero or above over the whole sequence, and the depth at its
/// end.
pub open spec fn profile(code: Seq<Node>) -> (bool, int)
    decreases code.len(),
{
    if code.len() == 0 {
        (true, 0)
    } else {
        let before = profile(code.drop_last());
        let depth = before.1 + depth_change(code.last());
        (before.0 && depth >= 0, depth)
    }
}

/// The depth after `k` instructions depends on those instructions only.
pub proof fn lemma_depth_prefix(code: Seq<Node>, other: Seq<Node>, k: int)
    requires
        0 <= k <= code.len(),
        k <= other.len(),
        forall|m: int| 0 <= m < k ==> code[m] == other[m],
    ensures
        depth(code, k) == depth(other, k),
    decreases k,
{
    if k > 0 {
        lemma_depth_prefix(code, other, k - 1);
    }
}

/// The profile of a sequence says whether its depth is never negative, and gives its depth
/// at the end.
pub proof fn lemma_profile(code: Seq<Node>)
    ensures
        profile(code).0 == never_negative(code, code.len() as int),
        profile(code).1 == depth(code, code.len() as int),
        balanced(code) <==> profile(code) == (true, 0int),
    decreases code.len(),
{
    if code.len() > 0 {
        let front = code.drop_last();
        let len = code.len() as int;
        lemma_profile(front);
        assert forall|m: int| 0 <= m <= len - 1 implies depth(code, m) == depth(front, m) by {
            lemma_depth_prefix(code, front, m);
        }
        assert(depth(code, len) == depth(code, len - 1) + depth_change(code[len - 1]));
        if never_negative(code, len) {
            assert forall|m: int| 0 <= m <= len - 1 implies #[trigger] depth(front, m) >= 0 by {
                assert(depth(code, m) >= 0);
            }
        }
        if profile(code).0 {
            assert forall|m: int| 0 <= m <= len implies #[trigger] depth(code, m) >= 0 by {
                if m < len {
                    assert(depth(front, m) >= 0);
                }
            }
        }
    }
}

/// Folding leaves the loop instructions as they are, and with them the depth.
pub proof fn lemma_simplify_keeps_brackets(code: Seq<Node>)
    ensures
        brackets(simplify(code)) == brackets(code),
        profile(simplify(code)) == profile(code),
    decreases code.len(),
{
    if code.len() > 0 {
        let front = code.drop_last();
        let next = code.last();
        lemma_simplify_keeps_brackets(front);
        let folded = simplify(front);
        if folded.len() > 0 && merged(folded.last(), next) is Some {
            let joined = folded.drop_last().push(merged(folded.last(), next)->0);
            assert(joined.drop_last() =~= folded.drop_last());
            assert(simplify(code) == joined);
        } else {
            assert(folded.push(next).drop_last() =~= folded);
        }
    }
}

/// Folding keeps the balance of the brackets: the folded program is balanced exactly when
/// the instructions were.
pub proof fn lemma_simplify_keeps_balance(code: Seq<Node>)
    ensures
        balanced(simplify(code)) <==> balanced(code),
{
    lemma_simplify_keeps_brackets(code);
    lemma_profile(code);
    lemma_profile(simplify(code));
}

/// The loop instructions alone decide the balance.
pub proof fn lemma_brackets_decide_balance(code: Seq<Node>)
    ensures
        balanced(brackets(code)) <==> balanced(code),
{
    lemma_brackets_profile(code);
    lemma_profile(code);
    lemma_profile(brackets(code));
}

/// The loop instructions alone have the profile of the whole sequence.
pub proof fn lemma_brackets_profile(code: Seq<Node>)
    ensures
        profile(brackets(code)) == profile(code),
    decreases code.len(),
{
    if code.len() > 0 {
        lemma_brackets_profile(code.drop_last());
        if code.last() is LoopBegin || code.last() is LoopEnd {
            assert(brackets(code.drop_last()).push(code.last()).drop_last() =~= brackets(
                code.drop_last(),
            ));
        }
    }
}

/// The program of a source text is balanced exactly when the brackets of the text are: the
/// loop instructions of the program are the brackets of the text, in order.
pub proof fn lemma_program_has_the_brackets_of_the_source(source: Seq<char>)
    ensures
        brackets(parse_spec(source)) == brackets(lex(source)),
        balanced(parse_spec(source)) <==> balanced(brackets(lex(source))),
{
    lemma_simplify_keeps_brackets(lex(source));
    lemma_simplify_keeps_balance(lex(source));
    lemma_brackets_decide_balance(lex(source));
}

} // verus!
