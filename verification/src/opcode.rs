use vstd::prelude::*;

verus! {

/// One compiled instruction. Counted variants carry how many identical
/// commands were folded into them; the loop variants carry the index of the
/// matching partner opcode, resolved by the compiler.
#[derive(Clone, Copy, PartialEq, Eq, Structural, Debug)]
pub enum Opcode {
    /// Move the data pointer right this many cells.
    Right(u64),
    /// Move the data pointer left this many cells.
    Left(u64),
    /// Increment the current cell this many times (modulo 256).
    Plus(u64),
    /// Decrement the current cell this many times (modulo 256).
    Minus(u64),
    /// Emit the current cell's byte.
    Out,
    /// Read one byte into the current cell.
    Input,
    /// Loop entry; the payload is the index of the matching `CloseLoop`.
    OpenLoop(usize),
    /// Loop exit; the payload is the index of the matching `OpenLoop`.
    CloseLoop(usize),
}

/// The eight characters recognized as commands; every other character of a
/// program text is ignored.
pub open spec fn is_command(c: char) -> bool {
    c == '>' || c == '<' || c == '+' || c == '-' || c == '.' || c == ',' || c == '[' || c == ']'
}

/// The run of command characters that one opcode stands for, counts expanded.
pub open spec fn unfold_op(op: Opcode) -> Seq<char> {
    match op {
        Opcode::Right(n) => Seq::new(n as nat, |j: int| '>'),
        Opcode::Left(n) => Seq::new(n as nat, |j: int| '<'),
        Opcode::Plus(n) => Seq::new(n as nat, |j: int| '+'),
        Opcode::Minus(n) => Seq::new(n as nat, |j: int| '-'),
        Opcode::Out => seq!['.'],
        Opcode::Input => seq![','],
        Opcode::OpenLoop(_) => seq!['['],
        Opcode::CloseLoop(_) => seq![']'],
    }
}

/// The command stream that an opcode sequence stands for: each opcode
/// expanded back into its run of commands, in order.
pub open spec fn unfold_ops(ops: Seq<Opcode>) -> Seq<char>
    decreases ops.len(),
{
    if ops.len() == 0 {
        Seq::empty()
    } else {
        unfold_ops(ops.drop_last()) + unfold_op(ops.last())
    }
}

/// Whether the loop opcode at position `j`, if it is one, points at a partner
/// that points back at it.
pub open spec fn op_pair_ok(ops: Seq<Opcode>, j: int) -> bool {
    match ops[j] {
        Opcode::OpenLoop(c) => j < c < ops.len() && ops[c as int] == Opcode::CloseLoop(j as usize),
        Opcode::CloseLoop(o) => o < j && ops[o as int] == Opcode::OpenLoop(j as usize),
        _ => true,
    }
}

/// A well-formed opcode sequence: every `OpenLoop` points forward at a
/// `CloseLoop` that points back at it, and vice versa.
pub open spec fn prog_wf(ops: Seq<Opcode>) -> bool {
    forall|j: int| 0 <= j < ops.len() ==> #[trigger] op_pair_ok(ops, j)
}

} // verus!
