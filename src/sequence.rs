use vstd::prelude::*;

use crate::symbol::Symbol;

verus! {

/// How a separator symbol stands among the repeated items.
#[derive(Clone, Copy, Debug, PartialEq, Eq, Hash, Structural)]
pub enum Separator {
    /// Items are concatenated directly.
    Null,
    /// The separator stands strictly between consecutive items.
    Proper(Symbol),
    /// Every item, the last included, is followed by the separator.
    Trailing(Symbol),
    /// Either of `Proper` and `Trailing`.
    Liberal(Symbol),
}

/// A repetition rule: `lhs` derives between `start` and `end` copies of `rhs`
/// (no upper bound where `end` is `None`), delimited as `separator` says.
#[derive(Clone, Copy, Debug)]
pub struct Sequence<H> {
    pub lhs: Symbol,
    pub rhs: Symbol,
    pub start: u32,
    pub end: Option<u32>,
    pub separator: Separator,
    pub history: H,
}

/// The shape of a sequence: what decides its expansion, without its target
/// symbol and its history.
#[derive(Clone, Copy, Debug, PartialEq, Eq, Hash, Structural)]
pub struct PartialSequence {
    pub rhs: Symbol,
    pub start: u32,
    pub end: Option<u32>,
    pub separator: Separator,
}

/// Bounds are in order: no upper bound, or one not below the lower bound.
pub open spec fn ordered(s: PartialSequence) -> bool {
    match s.end {
        Some(e) => s.start <= e,
        None => true,
    }
}

impl<H> Sequence<H> {
    pub open spec fn shape(&self) -> PartialSequence {
        PartialSequence { rhs: self.rhs, start: self.start, end: self.end, separator: self.separator }
    }

    pub fn partial(&self) -> (r: PartialSequence)
        ensures
            r == self.shape(),
    {
        PartialSequence { rhs: self.rhs, start: self.start, end: self.end, separator: self.separator }
    }

    /// The same sequence with other bounds.
    pub fn inclusive(self, start: u32, end: Option<u32>) -> (r: Sequence<H>)
        ensures
            r.lhs == self.lhs && r.rhs == self.rhs && r.separator == self.separator,
            r.history == self.history,
            r.start == start && r.end == end,
    {
        Sequence { start, end, ..self }
    }

    /// The same sequence with another separator.
    pub fn separator(self, separator: Separator) -> (r: Sequence<H>)
        ensures
            r.lhs == self.lhs && r.rhs == self.rhs && r.start == self.start && r.end == self.end,
            r.history == self.history,
            r.separator == separator,
    {
        Sequence { separator, ..self }
    }
}

} // verus!
