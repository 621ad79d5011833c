//! The instruction set: immutable once parsed. Labels and comments carry
//! their text as bytes, verbatim.

use vstd::prelude::*;
use crate::ports::Port;

verus! {

/// A jump target name, scoped to one node's instruction list.
#[derive(Clone, Debug, PartialEq, Eq)]
pub struct Label(pub Vec<u8>);

impl View for Label {
    type V = Seq<u8>;

    open spec fn view(&self) -> Seq<u8> {
        self.0@
    }
}

/// One instruction of a node's program.
#[derive(Clone, Debug, PartialEq, Eq)]
pub enum Instruction {
    Nop,
    Swp,
    Sav,
    Neg,
    Comment(Vec<u8>),
    CreateLabel(Label),
    Jmp(Label),
    Jez(Label),
    Jnz(Label),
    Jgz(Label),
    Jlz(Label),
    Jro(Port),
    Add(Port),
    Sub(Port),
    Mov(Port, Port),
}

/// Mathematical image of an `Instruction`.
pub enum InstrV {
    Nop,
    Swp,
    Sav,
    Neg,
    Comment(Seq<u8>),
    CreateLabel(Seq<u8>),
    Jmp(Seq<u8>),
    Jez(Seq<u8>),
    Jnz(Seq<u8>),
    Jgz(Seq<u8>),
    Jlz(Seq<u8>),
    Jro(Port),
    Add(Port),
    Sub(Port),
    Mov(Port, Port),
}

impl View for Instruction {
    type V = InstrV;

    open spec fn view(&self) -> InstrV {
        match self {
            Instruction::Nop => InstrV::Nop,
            Instruction::Swp => InstrV::Swp,
            Instruction::Sav => InstrV::Sav,
            Instruction::Neg => InstrV::Neg,
            Instruction::Comment(t) => InstrV::Comment(t@),
            Instruction::CreateLabel(l) => InstrV::CreateLabel(l@),
            Instruction::Jmp(l) => InstrV::Jmp(l@),
            Instruction::Jez(l) => InstrV::Jez(l@),
            Instruction::Jnz(l) => InstrV::Jnz(l@),
            Instruction::Jgz(l) => InstrV::Jgz(l@),
            Instruction::Jlz(l) => InstrV::Jlz(l@),
            Instruction::Jro(p) => InstrV::Jro(*p),
            Instruction::Add(p) => InstrV::Add(*p),
            Instruction::Sub(p) => InstrV::Sub(*p),
            Instruction::Mov(s, d) => InstrV::Mov(*s, *d),
        }
    }
}

/// Byte-for-byte copy of a byte vector.
pub fn copy_bytes(v: &Vec<u8>) -> (r: Vec<u8>)
    ensures
        r@ == v@,
{
    let mut out: Vec<u8> = Vec::new();
    let mut i: usize = 0;
    while i < v.len()
        invariant
            i <= v.len(),
            out@ == v@.take(i as int),
        decreases v.len() - i,
    {
        out.push(v[i]);
        proof {
            assert(out@ =~= v@.take(i + 1));
        }
        i = i + 1;
    }
    proof {
        assert(v@.take(v@.len() as int) =~= v@);
    }
    out
}

impl Label {
    /// A copy with the same name.
    pub fn duplicate(&self) -> (r: Label)
        ensures
            r@ == self@,
    {
        Label(copy_bytes(&self.0))
    }
}

impl Instruction {
    /// A structurally equal copy.
    pub fn duplicate(&self) -> (r: Instruction)
        ensures
            r@ == self@,
    {
        match self {
            Instruction::Nop => Instruction::Nop,
            Instruction::Swp => Instruction::Swp,
            Instruction::Sav => Instruction::Sav,
            Instruction::Neg => Instruction::Neg,
            Instruction::Comment(t) => Instruction::Comment(copy_bytes(t)),
            Instruction::CreateLabel(l) => Instruction::CreateLabel(l.duplicate()),
            Instruction::Jmp(l) => Instruction::Jmp(l.duplicate()),
            Instruction::Jez(l) => Instruction::Jez(l.duplicate()),
            Instruction::Jnz(l) => Instruction::Jnz(l.duplicate()),
            Instruction::Jgz(l) => Instruction::Jgz(l.duplicate()),
            Instruction::Jlz(l) => Instruction::Jlz(l.duplicate()),
            Instruction::Jro(p) => Instruction::Jro(*p),
            Instruction::Add(p) => Instruction::Add(*p),
            Instruction::Sub(p) => Instruction::Sub(*p),
            Instruction::Mov(s, d) => Instruction::Mov(*s, *d),
        }
    }
}

} // verus!
