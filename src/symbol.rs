use vstd::prelude::*;

verus! {

/// An opaque grammar symbol, identified by a number that its source hands out.
#[derive(Clone, Copy, Debug, PartialEq, Eq, Hash, PartialOrd, Ord, Structural)]
pub struct Symbol {
    pub id: u64,
}

/// Hands out fresh symbols, each distinct from all those handed out before.
pub struct SymbolSource {
    pub next: u64,
}

impl SymbolSource {
    /// A source whose first symbol is numbered 0.
    pub fn new() -> (r: SymbolSource)
        ensures
            r.next == 0,
    {
        SymbolSource { next: 0 }
    }

    /// Mints a fresh symbol.
    pub fn sym(&mut self) -> (r: Symbol)
        requires
            old(self).next < u64::MAX,
        ensures
            r.id == old(self).next,
            final(self).next == old(self).next + 1,
    {
        let r = Symbol { id: self.next };
        self.next = self.next + 1;
        r
    }
}

}
