use vstd::prelude::*;

use crate::rule::Rule;
use crate::symbol::{Symbol, SymbolSource};

verus! {

/// A rule as a mathematical value: left-hand side, right-hand side, history.
pub type RuleModel<R> = (Symbol, Seq<Symbol>, R);

pub open spec fn model_of<R>(rules: Seq<Rule<R>>) -> Seq<RuleModel<R>> {
    rules.map_values(|r: Rule<R>| (r.lhs, r.rhs@, r.history))
}

/// The destination of generated rules, and the source of fresh symbols.
pub struct Grammar<R> {
    pub rules: Vec<Rule<R>>,
    pub sym_source: SymbolSource,
}

impl<R> Grammar<R> {
    pub open spec fn model(&self) -> Seq<RuleModel<R>> {
        model_of(self.rules@)
    }

    pub open spec fn next_id(&self) -> u64 {
        self.sym_source.next
    }

    /// An empty grammar whose symbols are numbered from `first`.
    pub fn new(first: u64) -> (r: Grammar<R>)
        ensures
            r.model() == Seq::<RuleModel<R>>::empty(),
            r.next_id() == first,
    {
        let g = Grammar { rules: Vec::new(), sym_source: SymbolSource { next: first } };
        assert(g.model() =~= Seq::<RuleModel<R>>::empty());
        g
    }

    /// Mints a fresh symbol.
    pub fn sym(&mut self) -> (r: Symbol)
        requires
            old(self).next_id() < u64::MAX,
        ensures
            r.id == old(self).next_id(),
            final(self).next_id() == old(self).next_id() + 1,
            final(self).rules == old(self).rules,
    {
        self.sym_source.sym()
    }

    /// Appends the alternative `lhs ::= rhs` carrying `history`.
    pub fn rhs_with_history(&mut self, lhs: Symbol, rhs: Vec<Symbol>, history: R) -> (r: ())
        ensures
            final(self).model() == old(self).model().push((lhs, rhs@, history)),
            final(self).sym_source == old(self).sym_source,
    {
        self.rules.push(Rule::new(lhs, rhs, history));
        assert(final(self).model() =~= old(self).model().push((lhs, rhs@, history)));
    }
}

} // verus!
