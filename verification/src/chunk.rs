//! The bytecode chunk: a compiled program.  A chunk holds a flat instruction
//! sequence, the constant pool its operands index, and a parallel table of
//! source positions used to attach a row and column to runtime faults.

use crate::value::Value;
use vstd::prelude::*;

verus! {

/// One bytecode instruction, with its operand where it has one.  Operands
/// are indices into the owning chunk's constant pool.
#[derive(Copy, Clone, Debug, PartialEq, Eq, Structural)]
pub enum OpCode {
    /// Push `constants[k]` onto the value stack.
    Push(usize),
    /// Pop and discard the top of the value stack.
    Pop,
    /// Pop b, pop a, push the wrapping sum a + b.
    Add,
    /// Pop b, pop a, push the wrapping difference a - b.
    Subtract,
    /// Pop b, pop a, push the wrapping product a * b.
    Multiply,
    /// Pop a, push the wrapping negation -a.
    Negate,
    /// Pop the top value and bind it into the globals under the name held
    /// by `constants[k]`, which must be a string; overwrites any prior
    /// binding for that name.
    Insert(usize),
    /// Push the value bound in the globals under the name held by
    /// `constants[k]`, which must be a string.
    Load(usize),
    /// Halt execution, leaving the final stack contents as the result.
    End,
}

/// A 1-based source position.
#[derive(Copy, Clone, Debug, PartialEq, Eq, Structural)]
pub struct Pos {
    pub row: usize,
    pub column: usize,
}

/// An instruction operand is in range for a given constant pool, and for
/// the name-carrying instructions it designates a string constant.
pub open spec fn operand_ok(op: OpCode, consts: Seq<Value>) -> bool {
    match op {
        OpCode::Push(k) => k < consts.len(),
        OpCode::Insert(k) => k < consts.len() && consts[k as int] is Str,
        OpCode::Load(k) => k < consts.len() && consts[k as int] is Str,
        _ => true,
    }
}

/// A compiled program: instructions, the constant pool they index, and one
/// source position per instruction for error reporting.
#[derive(Debug)]
pub struct Chunk {
    pub code: Vec<OpCode>,
    pub constants: Vec<Value>,
    pub lines: Vec<Pos>,
}

impl Chunk {
    /// Well-formedness: the debug table parallels the instruction sequence
    /// and every operand indexes a suitable constant.  The compiler emits
    /// only well-formed chunks, by construction; the virtual machine does
    /// not rely on it and faults on a bad operand instead.
    pub open spec fn wf(self) -> bool {
        &&& self.lines@.len() == self.code@.len()
        &&& forall|i: int|
            0 <= i < self.code@.len() ==> operand_ok(#[trigger] self.code@[i], self.constants@)
    }

    /// A fresh, empty chunk.
    pub fn new() -> (r: Chunk)
        ensures
            r.code@ == Seq::<OpCode>::empty(),
            r.constants@ == Seq::<Value>::empty(),
            r.lines@ == Seq::<Pos>::empty(),
            r.wf(),
    {
        Chunk { code: Vec::new(), constants: Vec::new(), lines: Vec::new() }
    }

    /// Append one instruction together with the source position it came
    /// from.
    pub fn emit(&mut self, op: OpCode, pos: Pos)
        ensures
            final(self).code@ == old(self).code@.push(op),
            final(self).lines@ == old(self).lines@.push(pos),
            final(self).constants@ == old(self).constants@,
            old(self).wf() && operand_ok(op, old(self).constants@) ==> final(self).wf(),
    {
        self.code.push(op);
        self.lines.push(pos);
    }

    /// Append a constant to the pool and return its index, for use as an
    /// instruction operand.
    pub fn add_constant(&mut self, v: Value) -> (k: usize)
        ensures
            final(self).constants@ == old(self).constants@.push(v),
            final(self).code@ == old(self).code@,
            final(self).lines@ == old(self).lines@,
            k == old(self).constants@.len(),
            old(self).wf() ==> final(self).wf(),
    {
        let k = self.constants.len();
        self.constants.push(v);
        proof {
            assert forall|i: int|
                0 <= i < self.code@.len() && operand_ok(
                    self.code@[i],
                    old(self).constants@,
                ) implies operand_ok(#[trigger] self.code@[i], self.constants@) by {
                match self.code@[i] {
                    OpCode::Push(_) => {},
                    OpCode::Insert(_) => {},
                    OpCode::Load(_) => {},
                    _ => {},
                }
            }
        }
        k
    }
}

} // verus!
