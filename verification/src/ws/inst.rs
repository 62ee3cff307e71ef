//! The instructions that the decoder yields.

use vstd::prelude::*;

use crate::ws::bits::BitSeq;

verus! {

/// The tag of an instruction.
#[derive(Clone, Copy, Debug, PartialEq, Eq, Structural, Hash)]
pub enum Opcode {
    Push,
    Dup,
    Drop,
    Add,
    Sub,
    Printc,
    Printi,
    Label,
    Jmp,
    Jz,
    End,
}

impl Opcode {
    /// Whether the instruction carries an argument: a pushed value, a label
    /// or a jump target.
    pub open spec fn has_arg_spec(self) -> bool {
        self == Opcode::Push || self == Opcode::Label || self == Opcode::Jmp || self == Opcode::Jz
    }

    pub fn has_arg(self) -> (b: bool)
        ensures
            b == self.has_arg_spec(),
    {
        match self {
            Opcode::Push | Opcode::Label | Opcode::Jmp | Opcode::Jz => true,
            _ => false,
        }
    }
}

/// A decoded instruction. The four that take an argument hold its binary
/// digits in the order in which the source wrote them.
#[derive(Debug, PartialEq, Eq)]
pub enum Inst {
    Push(BitSeq),
    Dup,
    Drop,
    Add,
    Sub,
    Printc,
    Printi,
    Label(BitSeq),
    Jmp(BitSeq),
    Jz(BitSeq),
    End,
}

impl Inst {
    /// The tag of the instruction.
    pub open spec fn opcode_spec(&self) -> Opcode {
        match self {
            Inst::Push(_) => Opcode::Push,
            Inst::Dup => Opcode::Dup,
            Inst::Drop => Opcode::Drop,
            Inst::Add => Opcode::Add,
            Inst::Sub => Opcode::Sub,
            Inst::Printc => Opcode::Printc,
            Inst::Printi => Opcode::Printi,
            Inst::Label(_) => Opcode::Label,
            Inst::Jmp(_) => Opcode::Jmp,
            Inst::Jz(_) => Opcode::Jz,
            Inst::End => Opcode::End,
        }
    }

    /// The digits of the argument; none where the instruction takes no
    /// argument.
    pub open spec fn arg_spec(&self) -> Seq<bool> {
        match self {
            Inst::Push(bits) => bits@,
            Inst::Label(bits) => bits@,
            Inst::Jmp(bits) => bits@,
            Inst::Jz(bits) => bits@,
            _ => Seq::empty(),
        }
    }

    /// The instruction with the given tag. The digits are kept where the tag
    /// takes an argument and dropped where it takes none.
    pub fn new(opcode: Opcode, arg: BitSeq) -> (inst: Inst)
        ensures
            inst@ == (
                opcode,
                if opcode.has_arg_spec() {
                    arg@
                } else {
                    Seq::empty()
                },
            ),
    {
        match opcode {
            Opcode::Push => Inst::Push(arg),
            Opcode::Dup => Inst::Dup,
            Opcode::Drop => Inst::Drop,
            Opcode::Add => Inst::Add,
            Opcode::Sub => Inst::Sub,
            Opcode::Printc => Inst::Printc,
            Opcode::Printi => Inst::Printi,
            Opcode::Label => Inst::Label(arg),
            Opcode::Jmp => Inst::Jmp(arg),
            Opcode::Jz => Inst::Jz(arg),
            Opcode::End => Inst::End,
        }
    }

    pub fn opcode(&self) -> (op: Opcode)
        ensures
            op == self.opcode_spec(),
    {
        match self {
            Inst::Push(_) => Opcode::Push,
            Inst::Dup => Opcode::Dup,
            Inst::Drop => Opcode::Drop,
            Inst::Add => Opcode::Add,
            Inst::Sub => Opcode::Sub,
            Inst::Printc => Opcode::Printc,
            Inst::Printi => Opcode::Printi,
            Inst::Label(_) => Opcode::Label,
            Inst::Jmp(_) => Opcode::Jmp,
            Inst::Jz(_) => Opcode::Jz,
            Inst::End => Opcode::End,
        }
    }
}

impl View for Inst {
    type V = (Opcode, Seq<bool>);

    /// The tag and the digits of the argument.
    open spec fn view(&self) -> (Opcode, Seq<bool>) {
        (self.opcode_spec(), self.arg_spec())
    }
}

} // verus!
