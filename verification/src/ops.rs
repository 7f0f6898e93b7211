use vstd::prelude::*;

verus! {

/// One operation of the instruction sequence.
///
/// `Push` carries the literal word verbatim, as text; it is not validated
/// here, the downstream assembler parses it. The control-flow markers
/// `If`, `Else` and `End` carry no payload: their meaning comes from
/// their position in the sequence.
#[derive(Debug, PartialEq, Eq)]
pub enum Op {
    Push(String),
    Add,
    Sub,
    Mul,
    Div,
    Equal,
    Print,
    If,
    Else,
    End,
    Nop,
}

/// The mathematical image of an operation: a push literal is a sequence
/// of characters, every other operation is bare.
pub enum OpV {
    Push(Seq<char>),
    Add,
    Sub,
    Mul,
    Div,
    Equal,
    Print,
    If,
    Else,
    End,
    Nop,
}

impl View for Op {
    type V = OpV;

    open spec fn view(&self) -> OpV {
        match self {
            Op::Push(w) => OpV::Push(w@),
            Op::Add => OpV::Add,
            Op::Sub => OpV::Sub,
            Op::Mul => OpV::Mul,
            Op::Div => OpV::Div,
            Op::Equal => OpV::Equal,
            Op::Print => OpV::Print,
            Op::If => OpV::If,
            Op::Else => OpV::Else,
            Op::End => OpV::End,
            Op::Nop => OpV::Nop,
        }
    }
}

/// The views of the operations of a sequence, in order.
pub open spec fn ops_view(ops: Seq<Op>) -> Seq<OpV> {
    ops.map_values(|op: Op| op@)
}

} // verus!
