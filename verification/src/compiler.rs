use vstd::prelude::*;

use crate::opcode::{is_command, op_pair_ok, prog_wf, unfold_op, unfold_ops, Opcode};

verus! {

/// Why a program text was rejected.
#[derive(Clone, Copy, PartialEq, Eq, Structural, Debug)]
pub enum CompileError {
    /// A loop-close command with no open loop to match; carries the command's
    /// position in the filtered command stream.
    UnmatchedCloseBracket(usize),
    /// At least one loop-open command was never closed.
    UnmatchedOpenBracket,
}

/// The command characters of a text, in order, with every other character
/// discarded.
pub open spec fn filter_commands(s: Seq<char>) -> Seq<char>
    decreases s.len(),
{
    if s.len() == 0 {
        Seq::empty()
    } else if is_command(s.last()) {
        filter_commands(s.drop_last()).push(s.last())
    } else {
        filter_commands(s.drop_last())
    }
}

/// Bracket nesting depth of a command stream: opens minus closes.
pub open spec fn depth(s: Seq<char>) -> int
    decreases s.len(),
{
    if s.len() == 0 {
        0
    } else {
        depth(s.drop_last()) + (if s.last() == '[' {
            1int
        } else if s.last() == ']' {
            -1int
        } else {
            0int
        })
    }
}

/// Balanced brackets: no prefix closes more loops than it opened, and every
/// open is eventually closed.
pub open spec fn balanced(s: Seq<char>) -> bool {
    depth(s) == 0 && forall|j: int| 0 <= j <= s.len() ==> depth(#[trigger] s.take(j)) >= 0
}

/// One non-bracket command appended to an opcode sequence: a move or
/// arithmetic command folds into a preceding opcode of the same kind,
/// everything else appends a fresh opcode with count 1.
pub open spec fn fold_command(ops: Seq<Opcode>, c: char) -> Seq<Opcode> {
    if c == '>' {
        if ops.len() > 0 && ops.last() is Right {
            ops.update(ops.len() - 1, Opcode::Right((ops.last()->Right_0 + 1) as u64))
        } else {
            ops.push(Opcode::Right(1))
        }
    } else if c == '<' {
        if ops.len() > 0 && ops.last() is Left {
            ops.update(ops.len() - 1, Opcode::Left((ops.last()->Left_0 + 1) as u64))
        } else {
            ops.push(Opcode::Left(1))
        }
    } else if c == '+' {
        if ops.len() > 0 && ops.last() is Plus {
            ops.update(ops.len() - 1, Opcode::Plus((ops.last()->Plus_0 + 1) as u64))
        } else {
            ops.push(Opcode::Plus(1))
        }
    } else if c == '-' {
        if ops.len() > 0 && ops.last() is Minus {
            ops.update(ops.len() - 1, Opcode::Minus((ops.last()->Minus_0 + 1) as u64))
        } else {
            ops.push(Opcode::Minus(1))
        }
    } else if c == '.' {
        ops.push(Opcode::Out)
    } else {
        ops.push(Opcode::Input)
    }
}

/// The result of compiling the command stream `cmds` from position `i`
/// onward, having already built `ops`, with the positions of the still
/// unmatched opens in `stack` (innermost last).
pub open spec fn compile_from(
    cmds: Seq<char>,
    i: int,
    ops: Seq<Opcode>,
    stack: Seq<usize>,
) -> Result<Seq<Opcode>, CompileError>
    decreases cmds.len() - i,
{
    if i < 0 || i >= cmds.len() {
        if stack.len() == 0 {
            Ok(ops)
        } else {
            Err(CompileError::UnmatchedOpenBracket)
        }
    } else {
        let c = cmds[i];
        if c == '[' {
            compile_from(
                cmds,
                i + 1,
                ops.push(Opcode::OpenLoop(0)),
                stack.push(ops.len() as usize),
            )
        } else if c == ']' {
            if stack.len() == 0 {
                Err(CompileError::UnmatchedCloseBracket(i as usize))
            } else {
                compile_from(
                    cmds,
                    i + 1,
                    ops.update(stack.last() as int, Opcode::OpenLoop(ops.len() as usize)).push(
                        Opcode::CloseLoop(stack.last()),
                    ),
                    stack.drop_last(),
                )
            }
        } else if c == '>' || c == '<' || c == '+' || c == '-' || c == '.' || c == ',' {
            compile_from(cmds, i + 1, fold_command(ops, c), stack)
        } else {
            compile_from(cmds, i + 1, ops, stack)
        }
    }
}

/// The opcode sequence of an already filtered command stream.
pub open spec fn compile_commands(cmds: Seq<char>) -> Result<Seq<Opcode>, CompileError> {
    compile_from(cmds, 0, Seq::empty(), Seq::empty())
}

/// The opcode sequence of a program text: its commands, filtered out of the
/// text, folded and bracket-resolved.
pub open spec fn compile_spec(program: Seq<char>) -> Result<Seq<Opcode>, CompileError> {
    compile_commands(filter_commands(program))
}

/// Whether the count carried by a move or arithmetic opcode is at most `b`.
pub open spec fn count_le(op: Opcode, b: int) -> bool {
    match op {
        Opcode::Right(n) => n <= b,
        Opcode::Left(n) => n <= b,
        Opcode::Plus(n) => n <= b,
        Opcode::Minus(n) => n <= b,
        _ => true,
    }
}

/// Every counted opcode carries a count of at most `b`.
pub open spec fn counts_le(ops: Seq<Opcode>, b: int) -> bool {
    forall|j: int| 0 <= j < ops.len() ==> count_le(#[trigger] ops[j], b)
}

/// The pending-open stack points at distinct `OpenLoop` opcodes, in
/// increasing position order.
pub open spec fn stack_ok(ops: Seq<Opcode>, stack: Seq<usize>) -> bool {
    &&& forall|k: int|
        0 <= k < stack.len() ==> (#[trigger] stack[k]) < ops.len() && ops[stack[k] as int] is OpenLoop
    &&& forall|k1: int, k2: int| 0 <= k1 < k2 < stack.len() ==> stack[k1] < stack[k2]
}

/// Mid-compilation shape of the loop opcode at position `j`: a close always
/// points back at a resolved open off the stack, and an open is either still
/// pending on the stack or already mutually resolved.
pub open spec fn partial_pair_ok(ops: Seq<Opcode>, stack: Seq<usize>, j: int) -> bool {
    match ops[j] {
        Opcode::OpenLoop(c) => stack.contains(j as usize) || (j < c < ops.len() && ops[c as int]
            == Opcode::CloseLoop(j as usize)),
        Opcode::CloseLoop(o) => o < j && ops[o as int] == Opcode::OpenLoop(j as usize)
            && !stack.contains(o),
        _ => true,
    }
}

/// Mid-compilation well-formedness of the whole opcode sequence.
pub open spec fn partial_wf(ops: Seq<Opcode>, stack: Seq<usize>) -> bool {
    forall|j: int| 0 <= j < ops.len() ==> #[trigger] partial_pair_ok(ops, stack, j)
}

/// Everything that holds of the compiler's state when it has consumed the
/// first `i` commands of `cmds`.
pub open spec fn comp_inv(cmds: Seq<char>, i: int, ops: Seq<Opcode>, stack: Seq<usize>) -> bool {
    &&& 0 <= i <= cmds.len()
    &&& cmds.len() <= usize::MAX
    &&& stack.len() == depth(cmds.take(i))
    &&& forall|j: int| 0 <= j <= i ==> depth(#[trigger] cmds.take(j)) >= 0
    &&& stack_ok(ops, stack)
    &&& partial_wf(ops, stack)
    &&& counts_le(ops, i)
    &&& ops.len() <= i
    &&& unfold_ops(ops) == filter_commands(cmds.take(i))
}

proof fn lemma_contains_push<A>(s: Seq<A>, x: A, y: A)
    ensures
        s.push(x).contains(y) <==> (s.contains(y) || y == x),
{
    if s.contains(y) {
        let k = choose|k: int| 0 <= k < s.len() && s[k] == y;
        assert(s.push(x)[k] == y);
    }
    if y == x {
        assert(s.push(x)[s.len() as int] == y);
    }
    if s.push(x).contains(y) {
        let k = choose|k: int| 0 <= k < s.push(x).len() && s.push(x)[k] == y;
        if k < s.len() {
            assert(s[k] == y);
        }
    }
}

proof fn lemma_contains_drop_last<A>(s: Seq<A>, y: A)
    requires
        s.len() > 0,
    ensures
        s.drop_last().contains(y) ==> s.contains(y),
        s.contains(y) ==> (s.drop_last().contains(y) || y == s.last()),
{
    if s.drop_last().contains(y) {
        let k = choose|k: int| 0 <= k < s.drop_last().len() && s.drop_last()[k] == y;
        assert(s[k] == y);
    }
    if s.contains(y) {
        let k = choose|k: int| 0 <= k < s.len() && s[k] == y;
        if k < s.len() - 1 {
            assert(s.drop_last()[k] == y);
        }
    }
}

proof fn lemma_take_full<A>(s: Seq<A>)
    ensures
        s.take(s.len() as int) == s,
{
    assert(s.take(s.len() as int) =~= s);
}

proof fn lemma_depth_step(s: Seq<char>, j: int)
    requires
        0 <= j < s.len(),
    ensures
        depth(s.take(j + 1)) == depth(s.take(j)) + (if s[j] == '[' {
            1int
        } else if s[j] == ']' {
            -1int
        } else {
            0int
        }),
{
    assert(s.take(j + 1).drop_last() =~= s.take(j));
    assert(s.take(j + 1).last() == s[j]);
}

proof fn lemma_filter_step(s: Seq<char>, j: int)
    requires
        0 <= j < s.len(),
    ensures
        filter_commands(s.take(j + 1)) == (if is_command(s[j]) {
            filter_commands(s.take(j)).push(s[j])
        } else {
            filter_commands(s.take(j))
        }),
{
    assert(s.take(j + 1).drop_last() =~= s.take(j));
    assert(s.take(j + 1).last() == s[j]);
}

proof fn lemma_unfold_push(ops: Seq<Opcode>, op: Opcode)
    ensures
        unfold_ops(ops.push(op)) == unfold_ops(ops) + unfold_op(op),
{
    assert(ops.push(op).drop_last() =~= ops);
    assert(ops.push(op).last() == op);
}

proof fn lemma_unfold_update(ops: Seq<Opcode>, k: int, op: Opcode)
    requires
        0 <= k < ops.len(),
        unfold_op(op) == unfold_op(ops[k]),
    ensures
        unfold_ops(ops.update(k, op)) == unfold_ops(ops),
    decreases ops.len(),
{
    let u = ops.update(k, op);
    if k == ops.len() - 1 {
        assert(u.drop_last() =~= ops.drop_last());
        assert(u.last() == op);
    } else {
        assert(u.drop_last() =~= ops.drop_last().update(k, op));
        lemma_unfold_update(ops.drop_last(), k, op);
        assert(u.last() == ops.last());
    }
}

proof fn lemma_unfold_fold_command(ops: Seq<Opcode>, c: char, b: int)
    requires
        c == '>' || c == '<' || c == '+' || c == '-' || c == '.' || c == ',',
        counts_le(ops, b),
        0 <= b,
        b + 1 <= u64::MAX,
    ensures
        unfold_ops(fold_command(ops, c)) == unfold_ops(ops).push(c),
        counts_le(fold_command(ops, c), b + 1),
{
    let f = fold_command(ops, c);
    if ops.len() > 0 && ((c == '>' && ops.last() is Right) || (c == '<' && ops.last() is Left) || (
    c == '+' && ops.last() is Plus) || (c == '-' && ops.last() is Minus)) {
        let k = ops.len() - 1;
        assert(count_le(ops[k as int], b));
        assert(f.drop_last() =~= ops.drop_last());
        assert(unfold_op(f.last()) =~= unfold_op(ops.last()).push(c));
        assert(unfold_ops(f) == unfold_ops(ops.drop_last()) + unfold_op(f.last()));
        assert(unfold_ops(ops) == unfold_ops(ops.drop_last()) + unfold_op(ops.last()));
        assert(unfold_ops(f) =~= unfold_ops(ops).push(c));
        assert forall|j: int| 0 <= j < f.len() implies count_le(#[trigger] f[j], b + 1) by {
            if j < k {
                assert(count_le(ops[j], b));
            }
        }
    } else {
        lemma_unfold_push(ops, f.last());
        assert(f == ops.push(f.last()));
        assert(unfold_op(f.last()) =~= seq![c]);
        assert(unfold_ops(f) =~= unfold_ops(ops).push(c));
        assert forall|j: int| 0 <= j < f.len() implies count_le(#[trigger] f[j], b + 1) by {
            if j < ops.len() {
                assert(count_le(ops[j], b));
            }
        }
    }
}

/// What `compile_from` returns, characterized without reference to the
/// algorithm: success exactly on balanced bracket structure, mutually
/// resolved loop indices, expansion back to the command stream, and each
/// error exactly at its structural violation.
proof fn lemma_compile_from(cmds: Seq<char>, i: int, ops: Seq<Opcode>, stack: Seq<usize>)
    requires
        comp_inv(cmds, i, ops, stack),
    ensures
        ({
            let res = compile_from(cmds, i, ops, stack);
            &&& ((res is Ok) <==> (depth(cmds) == 0 && forall|j: int|
                i <= j <= cmds.len() ==> depth(#[trigger] cmds.take(j)) >= 0))
            &&& (match res {
                Ok(rops) => prog_wf(rops) && unfold_ops(rops) == filter_commands(cmds),
                Err(CompileError::UnmatchedCloseBracket(k)) => i <= k < cmds.len() && cmds[k as int]
                    == ']' && depth(cmds.take(k + 1)) < 0 && (forall|j: int|
                    0 <= j <= k ==> depth(#[trigger] cmds.take(j)) >= 0),
                Err(CompileError::UnmatchedOpenBracket) => depth(cmds) > 0 && (forall|j: int|
                    0 <= j <= cmds.len() ==> depth(#[trigger] cmds.take(j)) >= 0),
            })
        }),
    decreases cmds.len() - i,
{
    lemma_take_full(cmds);
    if i >= cmds.len() {
        if stack.len() == 0 {
            assert forall|j: int| 0 <= j < ops.len() implies #[trigger] op_pair_ok(ops, j) by {
                assert(partial_pair_ok(ops, stack, j));
            }
        }
    } else {
        let c = cmds[i];
        lemma_depth_step(cmds, i);
        lemma_filter_step(cmds, i);
        if c == '[' {
            let pos = ops.len() as usize;
            let ops2 = ops.push(Opcode::OpenLoop(0));
            let stack2 = stack.push(pos);
            assert(stack_ok(ops2, stack2)) by {
                assert forall|k: int|
                    0 <= k < stack2.len() implies (#[trigger] stack2[k]) < ops2.len()
                    && ops2[stack2[k] as int] is OpenLoop by {
                    if k < stack.len() {
                        assert(stack[k] < ops.len() && ops[stack[k] as int] is OpenLoop);
                        assert(ops2[stack2[k] as int] == ops[stack[k] as int]);
                    }
                }
                assert forall|k1: int, k2: int|
                    0 <= k1 < k2 < stack2.len() implies stack2[k1] < stack2[k2] by {
                    if k2 < stack.len() {
                        assert(stack[k1] < stack[k2]);
                    } else {
                        assert(stack2[k1] == stack[k1] && stack[k1] < ops.len());
                    }
                }
            }
            assert(partial_wf(ops2, stack2)) by {
                assert forall|j: int|
                    0 <= j < ops2.len() implies #[trigger] partial_pair_ok(ops2, stack2, j) by {
                    if j < ops.len() {
                        assert(partial_pair_ok(ops, stack, j));
                        match ops[j] {
                            Opcode::OpenLoop(c0) => {
                                if stack.contains(j as usize) {
                                    lemma_contains_push(stack, pos, j as usize);
                                } else {
                                    assert(ops2[c0 as int] == ops[c0 as int]);
                                }
                            },
                            Opcode::CloseLoop(o) => {
                                assert(ops2[o as int] == ops[o as int]);
                                lemma_contains_push(stack, pos, o);
                                assert(o < ops.len());
                            },
                            _ => {},
                        }
                    } else {
                        lemma_contains_push(stack, pos, pos);
                        assert(stack2.contains(pos));
                    }
                }
            }
            assert(unfold_ops(ops2) == filter_commands(cmds.take(i + 1))) by {
                lemma_unfold_push(ops, Opcode::OpenLoop(0));
                assert(unfold_ops(ops) + unfold_op(Opcode::OpenLoop(0)) =~= unfold_ops(ops).push(
                    '[',
                ));
            }
            assert(counts_le(ops2, i + 1)) by {
                assert forall|j: int| 0 <= j < ops2.len() implies count_le(#[trigger] ops2[j], i + 1) by {
                    if j < ops.len() {
                        assert(count_le(ops[j], i));
                    }
                }
            }
            lemma_compile_from(cmds, i + 1, ops2, stack2);
        } else if c == ']' {
            if stack.len() == 0 {
                assert(depth(cmds.take(i + 1)) == -1);
            } else {
                let open = stack.last();
                assert(stack[stack.len() - 1] == open && open < ops.len() && ops[open as int] is OpenLoop);
                let close = ops.len() as usize;
                let ops2 = ops.update(open as int, Opcode::OpenLoop(close)).push(
                    Opcode::CloseLoop(open),
                );
                let stack2 = stack.drop_last();
                assert forall|k: int| 0 <= k < stack2.len() implies stack2[k] < open by {
                    assert(stack[k] < stack[stack.len() - 1]);
                }
                assert(stack_ok(ops2, stack2)) by {
                    assert forall|k: int|
                        0 <= k < stack2.len() implies (#[trigger] stack2[k]) < ops2.len()
                        && ops2[stack2[k] as int] is OpenLoop by {
                        assert(stack[k] < ops.len() && ops[stack[k] as int] is OpenLoop);
                        assert(stack2[k] < open);
                        assert(ops2[stack2[k] as int] == ops[stack[k] as int]);
                    }
                    assert forall|k1: int, k2: int|
                        0 <= k1 < k2 < stack2.len() implies stack2[k1] < stack2[k2] by {
                        assert(stack[k1] < stack[k2]);
                    }
                }
                assert(partial_wf(ops2, stack2)) by {
                    assert forall|j: int|
                        0 <= j < ops2.len() implies #[trigger] partial_pair_ok(ops2, stack2, j) by {
                        if j == open {
                            assert(ops2[j] == Opcode::OpenLoop(close));
                            assert(ops2[close as int] == Opcode::CloseLoop(open));
                        } else if j == close {
                            assert(ops2[j] == Opcode::CloseLoop(open));
                            assert(ops2[open as int] == Opcode::OpenLoop(close));
                            if stack2.contains(open) {
                                let k = choose|k: int|
                                    0 <= k < stack2.len() && stack2[k] == open;
                                assert(stack2[k] < open);
                            }
                        } else if j < ops.len() {
                            assert(partial_pair_ok(ops, stack, j));
                            match ops[j] {
                                Opcode::OpenLoop(c0) => {
                                    if stack.contains(j as usize) {
                                        let k = choose|k: int|
                                            0 <= k < stack.len() && stack[k] == j as usize;
                                        assert(k < stack.len() - 1) by {
                                            assert(j != open);
                                        }
                                        assert(stack2[k] == j as usize);
                                        assert(stack2.contains(j as usize));
                                    } else {
                                        assert(ops[c0 as int] is CloseLoop);
                                        assert(c0 != open);
                                        assert(ops2[c0 as int] == ops[c0 as int]);
                                    }
                                },
                                Opcode::CloseLoop(o) => {
                                    assert(!stack.contains(o));
                                    assert(stack.contains(open)) by {
                                        assert(stack[stack.len() - 1] == open);
                                    }
                                    assert(o != open);
                                    assert(ops2[o as int] == ops[o as int]);
                                    lemma_contains_drop_last(stack, o);
                                },
                                _ => {},
                            }
                        }
                    }
                }
                assert(unfold_ops(ops2) == filter_commands(cmds.take(i + 1))) by {
                    let upd = ops.update(open as int, Opcode::OpenLoop(close));
                    lemma_unfold_update(ops, open as int, Opcode::OpenLoop(close));
                    lemma_unfold_push(upd, Opcode::CloseLoop(open));
                    assert(unfold_ops(upd) + unfold_op(Opcode::CloseLoop(open)) =~= unfold_ops(
                        ops,
                    ).push(']'));
                }
                assert(counts_le(ops2, i + 1)) by {
                    assert forall|j: int|
                        0 <= j < ops2.len() implies count_le(#[trigger] ops2[j], i + 1) by {
                        if j < ops.len() && j != open {
                            assert(count_le(ops[j], i));
                        }
                    }
                }
                lemma_compile_from(cmds, i + 1, ops2, stack2);
            }
        } else if c == '>' || c == '<' || c == '+' || c == '-' || c == '.' || c == ',' {
            let ops2 = fold_command(ops, c);
            lemma_unfold_fold_command(ops, c, i);
            let folded = ops.len() > 0 && ((c == '>' && ops.last() is Right) || (c == '<'
                && ops.last() is Left) || (c == '+' && ops.last() is Plus) || (c == '-'
                && ops.last() is Minus));
            assert(stack_ok(ops2, stack)) by {
                assert forall|k: int|
                    0 <= k < stack.len() implies (#[trigger] stack[k]) < ops2.len()
                    && ops2[stack[k] as int] is OpenLoop by {
                    assert(stack[k] < ops.len() && ops[stack[k] as int] is OpenLoop);
                    assert(ops2[stack[k] as int] == ops[stack[k] as int]);
                }
            }
            assert(partial_wf(ops2, stack)) by {
                assert forall|j: int|
                    0 <= j < ops2.len() implies #[trigger] partial_pair_ok(ops2, stack, j) by {
                    if j < ops.len() && !(folded && j == ops.len() - 1) {
                        assert(partial_pair_ok(ops, stack, j));
                        match ops[j] {
                            Opcode::OpenLoop(c0) => {
                                if !stack.contains(j as usize) {
                                    assert(ops[c0 as int] is CloseLoop);
                                    assert(ops2[c0 as int] == ops[c0 as int]);
                                }
                            },
                            Opcode::CloseLoop(o) => {
                                assert(ops[o as int] is OpenLoop);
                                assert(ops2[o as int] == ops[o as int]);
                            },
                            _ => {},
                        }
                    }
                }
            }
            assert(ops2.len() <= i + 1);
            lemma_compile_from(cmds, i + 1, ops2, stack);
        } else {
            assert(filter_commands(cmds.take(i + 1)) == filter_commands(cmds.take(i)));
            lemma_compile_from(cmds, i + 1, ops, stack);
        }
        assert(depth(cmds.take(i)) >= 0);
    }
}

proof fn lemma_filter_of_push(s: Seq<char>, c: char)
    ensures
        filter_commands(s.push(c)) == (if is_command(c) {
            filter_commands(s).push(c)
        } else {
            filter_commands(s)
        }),
{
    assert(s.push(c).drop_last() =~= s);
    assert(s.push(c).last() == c);
}

/// Filtering never grows a text.
proof fn lemma_filter_len(s: Seq<char>)
    ensures
        filter_commands(s).len() <= s.len(),
    decreases s.len(),
{
    if s.len() > 0 {
        lemma_filter_len(s.drop_last());
    }
}

/// A filtered command stream is left unchanged by filtering again.
proof fn lemma_filter_idempotent(s: Seq<char>)
    ensures
        filter_commands(filter_commands(s)) == filter_commands(s),
    decreases s.len(),
{
    if s.len() > 0 {
        lemma_filter_idempotent(s.drop_last());
        if is_command(s.last()) {
            lemma_filter_of_push(filter_commands(s.drop_last()), s.last());
        }
    }
}

/// The compiler's invariant holds trivially before the first command.
proof fn lemma_comp_inv_init(cmds: Seq<char>)
    requires
        cmds.len() <= usize::MAX,
    ensures
        comp_inv(cmds, 0, Seq::empty(), Seq::empty()),
{
    assert(cmds.take(0) =~= Seq::<char>::empty());
    assert(depth(cmds.take(0)) == 0);
    assert(unfold_ops(Seq::empty()) == Seq::<char>::empty());
    assert(filter_commands(cmds.take(0)) == Seq::<char>::empty());
}

/// Folding is a pure function of the filtered command stream: two program
/// texts whose command characters agree compile to the same result, whatever
/// other text surrounds them.
pub proof fn lemma_compile_pure(p1: Seq<char>, p2: Seq<char>)
    requires
        filter_commands(p1) == filter_commands(p2),
    ensures
        compile_spec(p1) == compile_spec(p2),
{
}

/// Folding is idempotent: expanding a compiled opcode sequence back into its
/// command stream and compiling that stream yields the very same opcode
/// sequence — in particular, the same number of opcodes.
pub proof fn lemma_refold(program: Seq<char>, ops: Seq<Opcode>)
    requires
        program.len() <= usize::MAX,
        compile_spec(program) == Ok::<Seq<Opcode>, CompileError>(ops),
    ensures
        compile_spec(unfold_ops(ops)) == Ok::<Seq<Opcode>, CompileError>(ops),
{
    let f = filter_commands(program);
    lemma_filter_len(program);
    lemma_comp_inv_init(f);
    lemma_compile_from(f, 0, Seq::empty(), Seq::empty());
    lemma_filter_idempotent(program);
    assert(unfold_ops(ops) == f);
}

/// Translates a program text into its opcode sequence: discards every
/// non-command character, folds each run of identical move or arithmetic
/// commands into one counted opcode, and resolves every loop bracket to the
/// position of its partner, failing on the first unmatched close bracket or,
/// once the text is consumed, on a still unmatched open bracket.
pub fn optimize(program: Vec<char>) -> (r: Result<Vec<Opcode>, CompileError>)
    ensures
        ({
            let f = filter_commands(program@);
            &&& ((r is Ok) <==> balanced(f))
            &&& (match r {
                Ok(ops) => compile_spec(program@) == Ok::<Seq<Opcode>, CompileError>(ops@)
                    && prog_wf(ops@) && unfold_ops(ops@) == f,
                Err(e) => compile_spec(program@) == Err::<Seq<Opcode>, CompileError>(e) && (match e {
                    CompileError::UnmatchedCloseBracket(k) => k < f.len() && f[k as int] == ']'
                        && depth(f.take(k + 1)) < 0 && (forall|j: int|
                        0 <= j <= k ==> depth(#[trigger] f.take(j)) >= 0),
                    CompileError::UnmatchedOpenBracket => depth(f) > 0 && (forall|j: int|
                        0 <= j <= f.len() ==> depth(#[trigger] f.take(j)) >= 0),
                }),
            })
        }),
{
    let ghost p = program@;
    let mut cmds: Vec<char> = Vec::new();
    let mut i: usize = 0;
    while i < program.len()
        invariant
            i <= program.len(),
            program@ == p,
            cmds@ == filter_commands(p.take(i as int)),
        decreases program.len() - i,
    {
        let c = program[i];
        proof {
            lemma_filter_step(p, i as int);
        }
        if c == '>' || c == '<' || c == '+' || c == '-' || c == '.' || c == ',' || c == '['
            || c == ']' {
            cmds.push(c);
        }
        i = i + 1;
    }
    proof {
        lemma_take_full(p);
        lemma_filter_len(p);
    }
    let ghost f = cmds@;
    assert(f == filter_commands(p));
    proof {
        lemma_comp_inv_init(f);
        lemma_compile_from(f, 0, Seq::empty(), Seq::empty());
        lemma_filter_idempotent(p);
    }
    let n = cmds.len();
    let mut opcodes: Vec<Opcode> = Vec::new();
    let mut stack: Vec<usize> = Vec::new();
    let mut j: usize = 0;
    while j < n
        invariant
            j <= n,
            n == cmds@.len(),
            cmds@ == f,
            program@ == p,
            f == filter_commands(p),
            f.len() <= usize::MAX,
            counts_le(opcodes@, j as int),
            stack_ok(opcodes@, stack@),
            compile_from(f, j as int, opcodes@, stack@) == compile_commands(f),
        decreases n - j,
    {
        let ghost ops0 = opcodes@;
        let ghost stack0 = stack@;
        let c = cmds[j];
        if c == '[' {
            let pos = opcodes.len();
            opcodes.push(Opcode::OpenLoop(0));
            stack.push(pos);
            proof {
                assert(opcodes@ == ops0.push(Opcode::OpenLoop(0)));
                assert(stack@ == stack0.push(pos as usize));
                assert forall|k: int|
                    0 <= k < stack@.len() implies (#[trigger] stack@[k]) < opcodes@.len()
                    && opcodes@[stack@[k] as int] is OpenLoop by {
                    if k < stack0.len() {
                        assert(stack0[k] < ops0.len() && ops0[stack0[k] as int] is OpenLoop);
                        assert(opcodes@[stack@[k] as int] == ops0[stack0[k] as int]);
                    }
                }
                assert forall|k1: int, k2: int|
                    0 <= k1 < k2 < stack@.len() implies stack@[k1] < stack@[k2] by {
                    if k2 < stack0.len() {
                        assert(stack0[k1] < stack0[k2]);
                    } else {
                        assert(stack@[k1] == stack0[k1] && stack0[k1] < ops0.len());
                    }
                }
                assert forall|q: int|
                    0 <= q < opcodes@.len() implies count_le(#[trigger] opcodes@[q], j + 1) by {
                    if q < ops0.len() {
                        assert(count_le(ops0[q], j as int));
                    }
                }
            }
        } else if c == ']' {
            if stack.len() == 0 {
                proof {
                    lemma_comp_inv_init(f);
                    lemma_compile_from(f, 0, Seq::empty(), Seq::empty());
                    lemma_filter_idempotent(p);
                }
                assert(compile_from(f, j as int, ops0, stack0) == Err::<
                    Seq<Opcode>,
                    CompileError,
                >(CompileError::UnmatchedCloseBracket(j)));
                return Err(CompileError::UnmatchedCloseBracket(j));
            }
            let open_index = stack.pop().unwrap();
            let close_index = opcodes.len();
            assert(open_index < close_index && ops0[open_index as int] is OpenLoop) by {
                assert(stack0[stack0.len() - 1] == open_index);
            }
            opcodes.push(Opcode::CloseLoop(open_index));
            opcodes.set(open_index, Opcode::OpenLoop(close_index));
            proof {
                assert(stack@ == stack0.drop_last());
                assert(opcodes@ =~= ops0.update(
                    open_index as int,
                    Opcode::OpenLoop(close_index as usize),
                ).push(Opcode::CloseLoop(open_index)));
                assert forall|k: int| 0 <= k < stack@.len() implies stack@[k] < open_index by {
                    assert(stack0[k] < stack0[stack0.len() - 1]);
                }
                assert forall|k: int|
                    0 <= k < stack@.len() implies (#[trigger] stack@[k]) < opcodes@.len()
                    && opcodes@[stack@[k] as int] is OpenLoop by {
                    assert(stack0[k] < ops0.len() && ops0[stack0[k] as int] is OpenLoop);
                    assert(opcodes@[stack@[k] as int] == ops0[stack0[k] as int]);
                }
                assert forall|k1: int, k2: int|
                    0 <= k1 < k2 < stack@.len() implies stack@[k1] < stack@[k2] by {
                    assert(stack0[k1] < stack0[k2]);
                }
                assert forall|q: int|
                    0 <= q < opcodes@.len() implies count_le(#[trigger] opcodes@[q], j + 1) by {
                    if q < ops0.len() && q != open_index {
                        assert(count_le(ops0[q], j as int));
                    }
                }
            }
        } else if c == '>' {
            let len = opcodes.len();
            let mut fold: bool = false;
            if len > 0 {
                if let Opcode::Right(count) = opcodes[len - 1] {
                    assert(count_le(ops0[len - 1], j as int));
                    opcodes.set(len - 1, Opcode::Right(count + 1));
                    fold = true;
                }
            }
            if !fold {
                opcodes.push(Opcode::Right(1));
            }
            proof {
                assert(opcodes@ == fold_command(ops0, c));
                lemma_fold_keeps_inv(ops0, stack0, c, j as int);
            }
        } else if c == '<' {
            let len = opcodes.len();
            let mut fold: bool = false;
            if len > 0 {
                if let Opcode::Left(count) = opcodes[len - 1] {
                    assert(count_le(ops0[len - 1], j as int));
                    opcodes.set(len - 1, Opcode::Left(count + 1));
                    fold = true;
                }
            }
            if !fold {
                opcodes.push(Opcode::Left(1));
            }
            proof {
                assert(opcodes@ == fold_command(ops0, c));
                lemma_fold_keeps_inv(ops0, stack0, c, j as int);
            }
        } else if c == '+' {
            let len = opcodes.len();
            let mut fold: bool = false;
            if len > 0 {
                if let Opcode::Plus(count) = opcodes[len - 1] {
                    assert(count_le(ops0[len - 1], j as int));
                    opcodes.set(len - 1, Opcode::Plus(count + 1));
                    fold = true;
                }
            }
            if !fold {
                opcodes.push(Opcode::Plus(1));
            }
            proof {
                assert(opcodes@ == fold_command(ops0, c));
                lemma_fold_keeps_inv(ops0, stack0, c, j as int);
            }
        } else if c == '-' {
            let len = opcodes.len();
            let mut fold: bool = false;
            if len > 0 {
                if let Opcode::Minus(count) = opcodes[len - 1] {
                    assert(count_le(ops0[len - 1], j as int));
                    opcodes.set(len - 1, Opcode::Minus(count + 1));
                    fold = true;
                }
            }
            if !fold {
                opcodes.push(Opcode::Minus(1));
            }
            proof {
                assert(opcodes@ == fold_command(ops0, c));
                lemma_fold_keeps_inv(ops0, stack0, c, j as int);
            }
        } else if c == '.' {
            opcodes.push(Opcode::Out);
            proof {
                assert(opcodes@ == fold_command(ops0, c));
                lemma_fold_keeps_inv(ops0, stack0, c, j as int);
            }
        } else if c == ',' {
            opcodes.push(Opcode::Input);
            proof {
                assert(opcodes@ == fold_command(ops0, c));
                lemma_fold_keeps_inv(ops0, stack0, c, j as int);
            }
        }
        j = j + 1;
    }
    if stack.len() == 0 {
        assert(compile_commands(f) == Ok::<Seq<Opcode>, CompileError>(opcodes@));
        Ok(opcodes)
    } else {
        assert(compile_commands(f) == Err::<Seq<Opcode>, CompileError>(
            CompileError::UnmatchedOpenBracket,
        ));
        Err(CompileError::UnmatchedOpenBracket)
    }
}

/// A folded move or arithmetic command keeps the compiler's executable
/// invariants: counted opcodes stay bounded and the pending-open stack still
/// points at open loops.
proof fn lemma_fold_keeps_inv(ops: Seq<Opcode>, stack: Seq<usize>, c: char, b: int)
    requires
        c == '>' || c == '<' || c == '+' || c == '-' || c == '.' || c == ',',
        counts_le(ops, b),
        stack_ok(ops, stack),
        0 <= b,
        b + 1 <= u64::MAX,
    ensures
        counts_le(fold_command(ops, c), b + 1),
        stack_ok(fold_command(ops, c), stack),
{
    let ops2 = fold_command(ops, c);
    lemma_unfold_fold_command(ops, c, b);
    assert forall|k: int|
        0 <= k < stack.len() implies (#[trigger] stack[k]) < ops2.len()
        && ops2[stack[k] as int] is OpenLoop by {
        assert(stack[k] < ops.len() && ops[stack[k] as int] is OpenLoop);
        assert(ops2[stack[k] as int] == ops[stack[k] as int]);
    }
}

} // verus!
