use vstd::prelude::*;

use crate::symbol::Symbol;

verus! {

/// Read access to a rule of a context-free grammar, whether it owns its parts
/// or refers to them.
pub trait GrammarRule {
    /// The type of history carried with the rule.
    type History;

    spec fn spec_lhs(&self) -> Symbol;

    spec fn spec_rhs(&self) -> Seq<Symbol>;

    spec fn spec_history(&self) -> Self::History;

    /// Returns the rule's left-hand side.
    fn lhs(&self) -> (r: Symbol)
        ensures
            r == self.spec_lhs(),
    ;

    /// Returns the rule's right-hand side.
    fn rhs(&self) -> (r: &[Symbol])
        ensures
            r@ == self.spec_rhs(),
    ;

    /// Returns the history carried with the rule.
    fn history(&self) -> (r: &Self::History)
        ensures
            *r == self.spec_history(),
    ;
}

impl<'a, R: GrammarRule> GrammarRule for &'a R {
    type History = R::History;

    open spec fn spec_lhs(&self) -> Symbol {
        (**self).spec_lhs()
    }

    open spec fn spec_rhs(&self) -> Seq<Symbol> {
        (**self).spec_rhs()
    }

    open spec fn spec_history(&self) -> R::History {
        (**self).spec_history()
    }

    fn lhs(&self) -> (r: Symbol) {
        (**self).lhs()
    }

    fn rhs(&self) -> (r: &[Symbol]) {
        (**self).rhs()
    }

    fn history(&self) -> (r: &R::History) {
        (**self).history()
    }
}

/// A rule that owns its parts.
#[derive(Clone, Debug)]
pub struct Rule<H> {
    pub lhs: Symbol,
    pub rhs: Vec<Symbol>,
    pub history: H,
}

impl<H> Rule<H> {
    pub fn new(lhs: Symbol, rhs: Vec<Symbol>, history: H) -> (r: Rule<H>)
        ensures
            r.lhs == lhs && r.rhs@ == rhs@ && r.history == history,
    {
        Rule { lhs, rhs, history }
    }
}

impl<H> GrammarRule for Rule<H> {
    type History = H;

    open spec fn spec_lhs(&self) -> Symbol {
        self.lhs
    }

    open spec fn spec_rhs(&self) -> Seq<Symbol> {
        self.rhs@
    }

    open spec fn spec_history(&self) -> H {
        self.history
    }

    fn lhs(&self) -> (r: Symbol) {
        self.lhs
    }

    fn rhs(&self) -> (r: &[Symbol]) {
        self.rhs.as_slice()
    }

    fn history(&self) -> (r: &H) {
        &self.history
    }
}

/// A rule whose right-hand side and history belong to someone else.
#[derive(Clone, Copy, Debug)]
pub struct RuleRef<'a, H> {
    pub lhs: Symbol,
    pub rhs: &'a [Symbol],
    pub history: &'a H,
}

impl<'a, H> GrammarRule for RuleRef<'a, H> {
    type History = H;

    open spec fn spec_lhs(&self) -> Symbol {
        self.lhs
    }

    open spec fn spec_rhs(&self) -> Seq<Symbol> {
        self.rhs@
    }

    open spec fn spec_history(&self) -> H {
        *self.history
    }

    fn lhs(&self) -> (r: Symbol) {
        self.lhs
    }

    fn rhs(&self) -> (r: &[Symbol]) {
        self.rhs
    }

    fn history(&self) -> (r: &H) {
        self.history
    }
}

} // verus!
