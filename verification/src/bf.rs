//! Instruction set of the eight-symbol tape language.

use vstd::prelude::*;

verus! {

/// One instruction of the tape language, one per source symbol.
#[derive(Clone, Copy, Debug, PartialEq, Eq, Structural, PartialOrd, Ord, Hash)]
pub enum Inst {
    /// `>`
    Right,
    /// `<`
    Left,
    /// `+`
    Inc,
    /// `-`
    Dec,
    /// `.`
    Output,
    /// `,`
    Input,
    /// `[`
    Head,
    /// `]`
    Tail,
}

} // verus!
