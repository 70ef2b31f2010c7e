use vstd::prelude::*;

use crate::expansion::{
    alternatives, children, joined, largest_bound, lemma_children, lemma_tree_size_bound, split_point, tree_size,
};
use crate::grammar::{Grammar, RuleModel};
use crate::history::{Action, RewriteSequence};
use crate::sequence::{ordered, PartialSequence, Separator, Sequence};
use crate::symbol::Symbol;

verus! {

/// The symbol that an association list gives to `k`: its last entry for `k`.
pub open spec fn lookup(m: Seq<(PartialSequence, Symbol)>, k: PartialSequence) -> Option<Symbol>
    decreases m.len(),
{
    if m.len() == 0 {
        None
    } else if m.last().0 == k {
        Some(m.last().1)
    } else {
        lookup(m.drop_last(), k)
    }
}

pub open spec fn name_of(m: Seq<(PartialSequence, Symbol)>, k: PartialSequence) -> Symbol {
    lookup(m, k)->Some_0
}

/// Each key stands in the list once.
pub open spec fn keys_unique(m: Seq<(PartialSequence, Symbol)>) -> bool {
    forall|j: int| 0 <= j < m.len() ==> lookup(#[trigger] m.subrange(0, j), m[j].0) is None
}

/// All the children of `s` have a symbol.
pub open spec fn children_named(m: Seq<(PartialSequence, Symbol)>, s: PartialSequence) -> bool {
    forall|i: int| 0 <= i < children(s).len() ==> lookup(m, #[trigger] children(s)[i]) is Some
}

/// The rules that one reduction step of `s` emits for `lhs`.
pub open spec fn emit<R>(lhs: Symbol, s: PartialSequence, m: Seq<(PartialSequence, Symbol)>, h: R) -> Seq<RuleModel<R>> {
    let c = children(s).map_values(|k: PartialSequence| name_of(m, k));
    alternatives(lhs, s, c).map_values(|rhs: Seq<Symbol>| (lhs, rhs, h))
}

/// The rules emitted for the internal shapes of `log`, in that order.
pub open spec fn emitted<R>(log: Seq<PartialSequence>, m: Seq<(PartialSequence, Symbol)>, h: R) -> Seq<RuleModel<R>>
    decreases log.len(),
{
    if log.len() == 0 {
        Seq::empty()
    } else {
        emitted(log.drop_last(), m, h) + emit(name_of(m, log.last()), log.last(), m, h)
    }
}

pub open spec fn stack_weight<R>(st: Seq<Sequence<R>>) -> nat
    decreases st.len(),
{
    if st.len() == 0 {
        0
    } else {
        stack_weight(st.drop_last()) + tree_size(st.last().shape())
    }
}

/// Rewrites sequence rules into ordinary rules of a destination grammar.
pub struct SequencesToProductions<R> {
    pub destination: Grammar<R>,
    pub stack: Vec<Sequence<R>>,
    pub map: Vec<(PartialSequence, Symbol)>,
}

/// From `a` to `b`, `d` shapes were named with the next `d` fresh symbols and
/// pushed on the stack with history `no_op`, in the same order.
pub open spec fn grew<R>(a: SequencesToProductions<R>, b: SequencesToProductions<R>, no_op: R) -> bool {
    let d = b.map@.len() - a.map@.len();
    &&& d >= 0
    &&& b.stack@.len() - a.stack@.len() == d
    &&& b.destination.next_id() - a.destination.next_id() == d
    &&& b.map@.subrange(0, a.map@.len() as int) == a.map@
    &&& b.stack@.subrange(0, a.stack@.len() as int) == a.stack@
    &&& forall|j: int| 0 <= j < d ==> {
        let e = #[trigger] b.map@[a.map@.len() + j];
        let q = b.stack@[a.stack@.len() + j];
        &&& q.lhs == e.1
        &&& q.shape() == e.0
        &&& q.history == no_op
        &&& ordered(q.shape())
        &&& e.1.id == a.destination.next_id() + j
    }
}

/// One reduction step of `sequence` took `a` to `b`.
pub open spec fn reduced<R>(a: SequencesToProductions<R>, b: SequencesToProductions<R>, sequence: Sequence<R>, no_op: R) -> bool {
    &&& keys_unique(b.map@)
    &&& grew(a, b, no_op)
    &&& children_named(b.map@, sequence.shape())
    &&& forall|j: int| a.map@.len() <= j < b.map@.len() ==> children(sequence.shape()).contains(
        #[trigger] b.map@[j].0,
    )
    &&& b.destination.model() == a.destination.model() + emit(sequence.lhs, sequence.shape(), b.map@, sequence.history)
    &&& b.destination.next_id() + stack_weight(b.stack@) + 1 <= a.destination.next_id() + stack_weight(a.stack@)
        + tree_size(sequence.shape())
}

/// The log has one entry per name and holds every named shape; each logged
/// shape is named, and so are the shapes it refers to.
pub open spec fn closed(log: Seq<PartialSequence>, m: Seq<(PartialSequence, Symbol)>) -> bool {
    &&& log.len() == m.len()
    &&& forall|j: int| 0 <= j < m.len() ==> log.contains(#[trigger] m[j].0)
    &&& forall|t: int| 0 <= t < log.len() ==> lookup(m, #[trigger] log[t]) is Some && children_named(m, log[t])
}

pub open spec fn extends(m1: Seq<(PartialSequence, Symbol)>, m2: Seq<(PartialSequence, Symbol)>) -> bool {
    &&& m1.len() <= m2.len()
    &&& m2.subrange(0, m1.len() as int) == m1
    &&& keys_unique(m2)
}

pub proof fn lemma_lookup_none_at(m: Seq<(PartialSequence, Symbol)>, k: PartialSequence, j: int)
    requires
        lookup(m, k) is None,
        0 <= j < m.len(),
    ensures
        m[j].0 != k,
    decreases m.len(),
{
    if j < m.len() - 1 {
        lemma_lookup_none_at(m.drop_last(), k, j);
    }
}

proof fn lemma_lookup_at(m: Seq<(PartialSequence, Symbol)>, j: int)
    requires
        keys_unique(m),
        0 <= j < m.len(),
    ensures
        lookup(m, m[j].0) == Some(m[j].1),
    decreases m.len(),
{
    let n = m.len() - 1;
    if j < n {
        assert(m.subrange(0, n) =~= m.drop_last());
        lemma_lookup_none_at(m.drop_last(), m[n].0, j);
        assert forall|i: int| 0 <= i < m.drop_last().len() implies lookup(
            #[trigger] m.drop_last().subrange(0, i),
            m.drop_last()[i].0,
        ) is None by {
            assert(m.drop_last().subrange(0, i) =~= m.subrange(0, i));
        }
        lemma_lookup_at(m.drop_last(), j);
    }
}

proof fn lemma_children_named_extend(m1: Seq<(PartialSequence, Symbol)>, m2: Seq<(PartialSequence, Symbol)>, s: PartialSequence)
    requires
        extends(m1, m2),
        children_named(m1, s),
    ensures
        children_named(m2, s),
        children(s).map_values(|k: PartialSequence| name_of(m1, k)) == children(s).map_values(
            |k: PartialSequence| name_of(m2, k),
        ),
{
    assert forall|i: int| 0 <= i < children(s).len() implies lookup(m2, #[trigger] children(s)[i])
        == lookup(m1, children(s)[i]) by {
        lemma_lookup_extend(m1, m2, children(s)[i]);
    }
    assert(children(s).map_values(|k: PartialSequence| name_of(m1, k)) =~= children(s).map_values(
        |k: PartialSequence| name_of(m2, k),
    ));
}

proof fn lemma_emitted_extend<R>(log: Seq<PartialSequence>, m1: Seq<(PartialSequence, Symbol)>, m2: Seq<(PartialSequence, Symbol)>, h: R)
    requires
        extends(m1, m2),
        forall|t: int| 0 <= t < log.len() ==> lookup(m1, #[trigger] log[t]) is Some && children_named(m1, log[t]),
    ensures
        emitted(log, m1, h) == emitted(log, m2, h),
    decreases log.len(),
{
    if log.len() > 0 {
        let x = log.last();
        assert(log[log.len() - 1] == x);
        lemma_emitted_extend(log.drop_last(), m1, m2, h);
        lemma_children_named_extend(m1, m2, x);
        lemma_lookup_extend(m1, m2, x);
    }
}

/// `b` is `a` after the expansion of the shape `shape` for `lhs`: one fresh
/// symbol for each distinct shape reached from `shape`, the rules of `lhs`
/// with history `root`, then the rules of each shape of a log that covers all
/// the names, with history `no_op`.
pub open spec fn expanded<R>(
    a: SequencesToProductions<R>,
    b: SequencesToProductions<R>,
    lhs: Symbol,
    shape: PartialSequence,
    root: R,
    no_op: R,
) -> bool {
    &&& keys_unique(b.map@)
    &&& b.destination.next_id() == a.destination.next_id() + b.map@.len()
    &&& b.destination.next_id() <= a.destination.next_id() + tree_size(shape)
    &&& forall|j: int| 0 <= j < b.map@.len() ==> (#[trigger] b.map@[j]).1.id == a.destination.next_id() + j
    &&& children_named(b.map@, shape)
    &&& reached(b.map@, shape)
    &&& exists|log: Seq<PartialSequence>| {
        &&& closed(log, b.map@)
        &&& b.destination.model() == a.destination.model() + emit(lhs, shape, b.map@, root) + emitted(log, b.map@, no_op)
    }
}

/// Where sequence rules go: a list that keeps them, or an engine that
/// rewrites them at once.
pub trait SequenceDestination<H>: Sized {
    /// `seq` can be taken in this state.
    spec fn accepts(&self, seq: Sequence<H>) -> bool;

    /// `after` is `before` with `seq` taken in.
    spec fn added(before: Self, after: Self, seq: Sequence<H>) -> bool;

    /// Takes in a sequence rule.
    fn add_sequence(&mut self, seq: Sequence<H>)
        requires
            old(self).accepts(seq),
        ensures
            Self::added(*old(self), *final(self), seq),
    ;
}

impl<H> SequenceDestination<H> for Vec<Sequence<H>> {
    open spec fn accepts(&self, seq: Sequence<H>) -> bool {
        true
    }

    open spec fn added(before: Self, after: Self, seq: Sequence<H>) -> bool {
        after@ == before@.push(seq)
    }

    fn add_sequence(&mut self, seq: Sequence<H>) {
        self.push(seq);
    }
}

impl<H: RewriteSequence<R>, R: Action + Copy> SequenceDestination<H> for SequencesToProductions<R> {
    open spec fn accepts(&self, seq: Sequence<H>) -> bool {
        &&& ordered(seq.shape())
        &&& symbols_before(seq, self.destination.next_id())
        &&& self.destination.next_id() + 16 * largest_bound(seq.shape()) + 16 <= u64::MAX
    }

    open spec fn added(before: Self, after: Self, seq: Sequence<H>) -> bool {
        rewrote(before, after, seq)
    }

    fn add_sequence(&mut self, seq: Sequence<H>) {
        self.rewrite(seq);
    }
}

/// The symbols that `seq` names were handed out before `next`, so no
/// symbol minted from `next` on can be one of them.
pub open spec fn symbols_before<H>(seq: Sequence<H>, next: u64) -> bool {
    &&& seq.lhs.id < next
    &&& seq.rhs.id < next
    &&& match seq.separator {
        Separator::Null => true,
        Separator::Proper(x) => x.id < next,
        Separator::Trailing(x) => x.id < next,
        Separator::Liberal(x) => x.id < next,
    }
}

/// `b` is `a` after rewriting the sequence rule `seq`: its own rules carry
/// the history that `seq.history` makes for it, the internal rules the no-op
/// of that history.
pub open spec fn rewrote<H: RewriteSequence<R>, R: Action>(a: SequencesToProductions<R>, b: SequencesToProductions<R>, seq: Sequence<H>) -> bool {
    expanded(
        a,
        b,
        seq.lhs,
        seq.shape(),
        seq.history.spec_sequence(seq),
        seq.history.spec_sequence(seq).spec_no_op(),
    )
}

/// Each named shape is a child of `shape` or of a shape named before it.
pub open spec fn reached(m: Seq<(PartialSequence, Symbol)>, shape: PartialSequence) -> bool {
    forall|j: int| 0 <= j < m.len() ==> children(shape).contains(#[trigger] m[j].0) || exists|i: int|
        0 <= i < j && children(m[i].0).contains(m[j].0)
}

proof fn lemma_lookup_index(m: Seq<(PartialSequence, Symbol)>, k: PartialSequence) -> (i: int)
    requires
        lookup(m, k) is Some,
    ensures
        0 <= i < m.len(),
        m[i].0 == k,
    decreases m.len(),
{
    if m.last().0 == k {
        m.len() - 1
    } else {
        let i = lemma_lookup_index(m.drop_last(), k);
        assert(m.drop_last()[i] == m[i]);
        i
    }
}

proof fn lemma_lookup_extend(m1: Seq<(PartialSequence, Symbol)>, m2: Seq<(PartialSequence, Symbol)>, k: PartialSequence)
    requires
        m1.len() <= m2.len(),
        m2.subrange(0, m1.len() as int) == m1,
        keys_unique(m2),
        lookup(m1, k) is Some,
    ensures
        lookup(m2, k) == lookup(m1, k),
    decreases m2.len(),
{
    if m2.len() == m1.len() {
        assert(m2 =~= m1);
    } else {
        let m3 = m2.drop_last();
        assert(m3.subrange(0, m1.len() as int) =~= m1);
        assert forall|j: int| 0 <= j < m3.len() implies lookup(#[trigger] m3.subrange(0, j), m3[j].0) is None by {
            assert(m3.subrange(0, j) =~= m2.subrange(0, j));
            assert(m2[j] == m3[j]);
        }
        lemma_lookup_extend(m1, m3, k);
        let n = m2.len() - 1;
        assert(m2.subrange(0, n) =~= m3);
        assert(lookup(m2.subrange(0, n), m2[n].0) is None);
    }
}

fn join(separator: Separator, a: Symbol, b: Symbol) -> (r: Vec<Symbol>)
    ensures
        r@ == joined(separator, a, b),
{
    match separator {
        Separator::Proper(x) => vec![a, x, b],
        _ => vec![a, b],
    }
}

fn single(x: Symbol) -> (r: Vec<Symbol>)
    ensures
        r@ == seq![x],
{
    let v = vec![x];
    assert(v@ =~= seq![x]);
    v
}

impl<R: Copy> SequencesToProductions<R> {
    pub fn new(destination: Grammar<R>) -> (r: SequencesToProductions<R>)
        ensures
            r.destination == destination,
            r.stack@.len() == 0,
            r.map@.len() == 0,
    {
        SequencesToProductions { destination, stack: Vec::new(), map: Vec::new() }
    }

    fn find(&self, k: PartialSequence) -> (r: Option<Symbol>)
        ensures
            r == lookup(self.map@, k),
    {
        let mut i: usize = self.map.len();
        assert(self.map@.subrange(0, i as int) =~= self.map@);
        while i > 0
            invariant
                i <= self.map@.len(),
                lookup(self.map@, k) == lookup(self.map@.subrange(0, i as int), k),
            decreases i,
        {
            assert(self.map@.subrange(0, i as int).drop_last() =~= self.map@.subrange(0, i - 1));
            i = i - 1;
            if self.map[i].0 == k {
                return Some(self.map[i].1);
            }
        }
        None
    }

    /// Rewrites `top`, whose history is already the one meant for its own
    /// rules, into rules of the destination. Each distinct shape reached
    /// gets one fresh symbol and is reduced once; the rules of those internal
    /// symbols carry `no_op`.
    pub fn expand(&mut self, top: Sequence<R>, no_op: R)
        requires
            ordered(top.shape()),
            old(self).destination.next_id() + tree_size(top.shape()) <= u64::MAX,
        ensures
            expanded(*old(self), *final(self), top.lhs, top.shape(), top.history, no_op),
    {
        let ghost next0 = self.destination.next_id();
        let ghost model0 = self.destination.model();
        self.stack = Vec::new();
        self.map = Vec::new();
        proof {
            assert(stack_weight(self.stack@) == 0);
        }
        self.reduce(top, no_op);
        let ghost mut log: Seq<PartialSequence> = Seq::empty();
        proof {
            assert(self.map@.subrange(0, 0) =~= Seq::<(PartialSequence, Symbol)>::empty());
            assert(self.stack@.subrange(0, 0) =~= Seq::<Sequence<R>>::empty());
            assert forall|j: int| 0 <= j < self.map@.len() implies (#[trigger] self.map@[j]).1.id == next0 + j by {
                assert(self.map@[0 + j] == self.map@[j]);
            }
            assert forall|i: int| 0 <= i < self.stack@.len() implies ordered(#[trigger] self.stack@[i].shape())
                && self.stack@[i].history == no_op by {
                assert(self.map@[0 + i] == self.map@[i]);
            }
            assert forall|i: int| 0 <= i < self.stack@.len() implies lookup(self.map@, #[trigger] self.stack@[i].shape())
                == Some(self.stack@[i].lhs) by {
                assert(self.map@[0 + i] == self.map@[i]);
                lemma_lookup_at(self.map@, i);
            }
            assert forall|j: int| 0 <= j < self.map@.len() implies log.contains(#[trigger] self.map@[j].0)
                || exists|i: int| 0 <= i < self.stack@.len() && self.stack@[i].shape() == self.map@[j].0 by {
                assert(self.stack@[0 + j].shape() == self.map@[0 + j].0);
            }
            assert(self.destination.model() =~= model0 + emit(top.lhs, top.shape(), self.map@, top.history)
                + emitted(log, self.map@, no_op));
        }
        while self.stack.len() > 0
            invariant
                keys_unique(self.map@),
                self.destination.next_id() == next0 + self.map@.len(),
                forall|j: int| 0 <= j < self.map@.len() ==> (#[trigger] self.map@[j]).1.id == next0 + j,
                forall|i: int| 0 <= i < self.stack@.len() ==> ordered(#[trigger] self.stack@[i].shape())
                    && self.stack@[i].history == no_op,
                forall|i: int| 0 <= i < self.stack@.len() ==> lookup(self.map@, #[trigger] self.stack@[i].shape())
                    == Some(self.stack@[i].lhs),
                log.len() + self.stack@.len() == self.map@.len(),
                forall|j: int| 0 <= j < self.map@.len() ==> log.contains(#[trigger] self.map@[j].0)
                    || exists|i: int| 0 <= i < self.stack@.len() && self.stack@[i].shape() == self.map@[j].0,
                forall|t: int| 0 <= t < log.len() ==> lookup(self.map@, #[trigger] log[t]) is Some
                    && children_named(self.map@, log[t]),
                children_named(self.map@, top.shape()),
                reached(self.map@, top.shape()),
                self.destination.model() == model0 + emit(top.lhs, top.shape(), self.map@, top.history)
                    + emitted(log, self.map@, no_op),
                self.destination.next_id() + stack_weight(self.stack@) + 1 <= next0 + tree_size(top.shape()),
                next0 + tree_size(top.shape()) <= u64::MAX,
            decreases stack_weight(self.stack@),
        {
            let ghost a = *self;
            let seq = self.stack.pop().unwrap();
            let ghost a1 = *self;
            proof {
                assert(a.stack@.drop_last() =~= a1.stack@);
                assert(a.stack@[a.stack@.len() - 1] == seq);
            }
            self.reduce(seq, no_op);
            proof {
                let m1 = a.map@;
                let m2 = self.map@;
                let n1 = a1.stack@.len();
                assert(extends(m1, m2));
                lemma_lookup_extend(m1, m2, seq.shape());
                assert forall|j: int| 0 <= j < m2.len() implies (#[trigger] m2[j]).1.id == next0 + j by {
                    if j < m1.len() {
                        assert(m2[j] == m2.subrange(0, m1.len() as int)[j]);
                    } else {
                        assert(m2[m1.len() + (j - m1.len())] == m2[j]);
                    }
                }
                assert forall|i: int| 0 <= i < self.stack@.len() implies ordered(#[trigger] self.stack@[i].shape())
                    && self.stack@[i].history == no_op && lookup(m2, self.stack@[i].shape()) == Some(self.stack@[i].lhs) by {
                    if i < n1 {
                        assert(self.stack@[i] == self.stack@.subrange(0, n1 as int)[i]);
                        assert(a.stack@[i] == a1.stack@[i]);
                        lemma_lookup_extend(m1, m2, self.stack@[i].shape());
                    } else {
                        let j = i - n1;
                        assert(self.stack@[n1 + j] == self.stack@[i]);
                        lemma_lookup_at(m2, m1.len() + j);
                    }
                }
                assert forall|t: int| 0 <= t < log.len() implies lookup(m2, #[trigger] log[t]) is Some
                    && children_named(m2, log[t]) by {
                    lemma_lookup_extend(m1, m2, log[t]);
                    lemma_children_named_extend(m1, m2, log[t]);
                }
                lemma_children_named_extend(m1, m2, top.shape());
                lemma_emitted_extend(log, m1, m2, no_op);
                let log2 = log.push(seq.shape());
                assert(log2.drop_last() =~= log);
                assert forall|j: int| 0 <= j < m2.len() implies log2.contains(#[trigger] m2[j].0)
                    || exists|i: int| 0 <= i < self.stack@.len() && self.stack@[i].shape() == m2[j].0 by {
                    if j < m1.len() {
                        assert(m2[j] == m2.subrange(0, m1.len() as int)[j]);
                        if log.contains(m1[j].0) {
                            let t = choose|t: int| 0 <= t < log.len() && log[t] == m1[j].0;
                            assert(log2[t] == m1[j].0);
                        } else {
                            let i = choose|i: int| 0 <= i < a.stack@.len() && a.stack@[i].shape() == m1[j].0;
                            if i == n1 {
                                assert(log2[log.len() as int] == m1[j].0);
                            } else {
                                assert(self.stack@[i] == self.stack@.subrange(0, n1 as int)[i]);
                                assert(a.stack@[i] == a1.stack@[i]);
                            }
                        }
                    } else {
                        assert(m2[m1.len() + (j - m1.len())] == m2[j]);
                        assert(self.stack@[n1 + (j - m1.len())].shape() == m2[j].0);
                    }
                }
                assert forall|t: int| 0 <= t < log2.len() implies lookup(m2, #[trigger] log2[t]) is Some
                    && children_named(m2, log2[t]) by {
                    if t < log.len() {
                        assert(log2[t] == log[t]);
                    }
                }
                lemma_children_named_extend(m1, m2, top.shape());
                let at = lemma_lookup_index(m1, seq.shape());
                assert forall|j: int| 0 <= j < m2.len() implies children(top.shape()).contains(#[trigger] m2[j].0)
                    || exists|i: int| 0 <= i < j && children(m2[i].0).contains(m2[j].0) by {
                    if j < m1.len() {
                        assert(m2[j] == m2.subrange(0, m1.len() as int)[j]);
                        if !children(top.shape()).contains(m1[j].0) {
                            let i = choose|i: int| 0 <= i < j && children(m1[i].0).contains(m1[j].0);
                            assert(m2[i] == m2.subrange(0, m1.len() as int)[i]);
                        }
                    } else {
                        assert(m2[at] == m2.subrange(0, m1.len() as int)[at]);
                        assert(children(m2[at].0).contains(m2[j].0));
                    }
                }
                log = log2;
            }
        }
        proof {
            assert forall|j: int| 0 <= j < self.map@.len() implies log.contains(#[trigger] self.map@[j].0) by {
                if !log.contains(self.map@[j].0) {
                    let i = choose|i: int| 0 <= i < self.stack@.len() && self.stack@[i].shape() == self.map@[j].0;
                }
            }
            assert(closed(log, self.map@));
        }
    }

    /// Rewrites the sequence rule `top` into rules of the destination. Its
    /// own rules carry the history that `top.history.sequence` gives; the
    /// rules of the internal symbols carry the `no_op` of that history.
    pub fn rewrite<H: RewriteSequence<R>>(&mut self, top: Sequence<H>)
        where
            R: Action,
        requires
            ordered(top.shape()),
            symbols_before(top, old(self).destination.next_id()),
            old(self).destination.next_id() + 16 * largest_bound(top.shape()) + 16 <= u64::MAX,
        ensures
            rewrote(*old(self), *final(self), top),
            forall|j: int| 0 <= j < final(self).map@.len() ==> (#[trigger] final(self).map@[j]).1 != top.lhs
                && final(self).map@[j].1 != top.rhs,
            final(self).destination.next_id() <= old(self).destination.next_id() + 16 * largest_bound(top.shape()) + 16,
    {
        proof {
            lemma_tree_size_bound(top.shape());
        }
        let root = top.history.sequence(&top);
        let no_op = root.no_op();
        let rewritten = Sequence {
            lhs: top.lhs,
            rhs: top.rhs,
            start: top.start,
            end: top.end,
            separator: top.separator,
            history: root,
        };
        self.expand(rewritten, no_op);
    }

    /// Rewrites each of `sequence_rules`, in order, into rules of `rules`,
    /// as one call of `rewrite` each on one engine.
    pub fn rewrite_sequences<H: RewriteSequence<R> + Copy>(sequence_rules: &[Sequence<H>], rules: Grammar<R>) -> (r:
        Grammar<R>)
        where
            R: Action,
        requires
            forall|i: int| 0 <= i < sequence_rules@.len() ==> ordered(#[trigger] sequence_rules@[i].shape()),
            forall|i: int| 0 <= i < sequence_rules@.len() ==> symbols_before(#[trigger] sequence_rules@[i], rules.next_id()),
            rules.next_id() + 0x10_0000_0000 * sequence_rules@.len() <= u64::MAX,
        ensures
            exists|states: Seq<SequencesToProductions<R>>| {
                &&& states.len() == sequence_rules@.len() + 1
                &&& states[0].destination == rules
                &&& states.last().destination == r
                &&& forall|i: int| 0 <= i < sequence_rules@.len() ==> rewrote(#[trigger] states[i], states[i + 1], sequence_rules@[i])
            },
    {
        let mut engine = SequencesToProductions::new(rules);
        let ghost mut states: Seq<SequencesToProductions<R>> = seq![engine];
        let mut i: usize = 0;
        while i < sequence_rules.len()
            invariant
                i <= sequence_rules@.len(),
                forall|k: int| 0 <= k < sequence_rules@.len() ==> ordered(#[trigger] sequence_rules@[k].shape()),
                forall|k: int| 0 <= k < sequence_rules@.len() ==> symbols_before(#[trigger] sequence_rules@[k], rules.next_id()),
                rules.next_id() <= engine.destination.next_id(),
                rules.next_id() + 0x10_0000_0000 * sequence_rules@.len() <= u64::MAX,
                engine.destination.next_id() <= rules.next_id() + 0x10_0000_0000 * i,
                states.len() == i + 1,
                states[0].destination == rules,
                states.last() == engine,
                forall|k: int| 0 <= k < i ==> rewrote(#[trigger] states[k], states[k + 1], sequence_rules@[k]),
            decreases sequence_rules@.len() - i,
        {
            let top = sequence_rules[i];
            engine.rewrite(top);
            proof {
                let s2 = states.push(engine);
                assert forall|k: int| 0 <= k < i + 1 implies rewrote(#[trigger] s2[k], s2[k + 1], sequence_rules@[k]) by {
                    if k < i {
                        assert(s2[k] == states[k] && s2[k + 1] == states[k + 1]);
                    } else {
                        assert(s2[k] == states.last() && s2[k + 1] == engine);
                    }
                }
                states = s2;
            }
            i = i + 1;
        }
        engine.destination
    }

    /// Returns the symbol that stands for the shape of `seq`, naming it with a
    /// fresh symbol and pushing it for reduction where it has none yet.
    fn recurse(&mut self, seq: Sequence<R>) -> (r: Symbol)
        requires
            keys_unique(old(self).map@),
            ordered(seq.shape()),
            old(self).destination.next_id() + stack_weight(old(self).stack@) + 1 + tree_size(seq.shape()) <= u64::MAX,
        ensures
            keys_unique(final(self).map@),
            grew(*old(self), *final(self), seq.history),
            final(self).map@.len() <= old(self).map@.len() + 1,
            final(self).map@.len() == old(self).map@.len() + 1 ==> final(self).map@.last().0 == seq.shape(),
            lookup(final(self).map@, seq.shape()) == Some(r),
            final(self).destination.rules == old(self).destination.rules,
            final(self).destination.next_id() + stack_weight(final(self).stack@) <= old(self).destination.next_id()
                + stack_weight(old(self).stack@) + 1 + tree_size(seq.shape()),
    {
        let partial = seq.partial();
        match self.find(partial) {
            Some(lhs) => {
                assert(self.map@.subrange(0, self.map@.len() as int) =~= self.map@);
                assert(self.stack@.subrange(0, self.stack@.len() as int) =~= self.stack@);
                lhs
            },
            None => {
                let ghost m0 = self.map@;
                let ghost s0 = self.stack@;
                let lhs = self.destination.sym();
                self.map.push((partial, lhs));
                self.stack.push(Sequence { lhs, ..seq });
                assert(self.map@.subrange(0, m0.len() as int) =~= m0);
                assert(self.stack@.subrange(0, s0.len() as int) =~= s0);
                assert(self.stack@.drop_last() =~= s0);
                assert(self.map@.drop_last() =~= m0);
                assert forall|j: int| 0 <= j < self.map@.len() implies lookup(
                    #[trigger] self.map@.subrange(0, j),
                    self.map@[j].0,
                ) is None by {
                    if j < m0.len() {
                        assert(self.map@.subrange(0, j) =~= m0.subrange(0, j));
                    } else {
                        assert(self.map@.subrange(0, j) =~= m0);
                    }
                }
                lhs
            },
        }
    }

    /// Returns the symbols that stand for the shapes of `a` and of `b`.
    fn recurse_pair(&mut self, a: Sequence<R>, b: Sequence<R>) -> (r: (Symbol, Symbol))
        requires
            keys_unique(old(self).map@),
            ordered(a.shape()),
            ordered(b.shape()),
            a.history == b.history,
            old(self).destination.next_id() + stack_weight(old(self).stack@) + 2 + tree_size(a.shape())
                + tree_size(b.shape()) <= u64::MAX,
        ensures
            keys_unique(final(self).map@),
            grew(*old(self), *final(self), a.history),
            lookup(final(self).map@, a.shape()) == Some(r.0),
            lookup(final(self).map@, b.shape()) == Some(r.1),
            forall|j: int| old(self).map@.len() <= j < final(self).map@.len() ==> (#[trigger] final(self).map@[j]).0
                == a.shape() || final(self).map@[j].0 == b.shape(),
            final(self).destination.rules == old(self).destination.rules,
            final(self).destination.next_id() + stack_weight(final(self).stack@) <= old(self).destination.next_id()
                + stack_weight(old(self).stack@) + 2 + tree_size(a.shape()) + tree_size(b.shape()),
    {
        let ghost s0 = *self;
        let sym1 = self.recurse(a);
        let ghost s1 = *self;
        let sym2 = self.recurse(b);
        proof {
            lemma_lookup_extend(s1.map@, self.map@, a.shape());
            lemma_grew_trans(s0, s1, *self, a.history);
            assert forall|j: int| s0.map@.len() <= j < self.map@.len() implies (#[trigger] self.map@[j]).0 == a.shape()
                || self.map@[j].0 == b.shape() by {
                if j < s1.map@.len() {
                    assert(self.map@[j] == self.map@.subrange(0, s1.map@.len() as int)[j]);
                    assert(s1.map@[j] == s1.map@.last());
                } else {
                    assert(self.map@[j] == self.map@.last());
                }
            }
        }
        (sym1, sym2)
    }

    /// Emits the alternatives of one reduction step of `sequence`, naming the
    /// shapes it refers to; new shapes are pushed with history `no_op`.
    fn reduce(&mut self, sequence: Sequence<R>, no_op: R)
        requires
            keys_unique(old(self).map@),
            ordered(sequence.shape()),
            old(self).destination.next_id() + stack_weight(old(self).stack@) + tree_size(sequence.shape())
                <= u64::MAX,
        ensures
            reduced(*old(self), *final(self), sequence, no_op),
    {
        match sequence.separator {
            Separator::Liberal(_) => self.reduce_liberal(sequence, no_op),
            _ => if sequence.start == 0 {
                self.reduce_optional(sequence, no_op)
            } else if matches!(sequence.separator, Separator::Trailing(_)) {
                self.reduce_trailing(sequence, no_op)
            } else if sequence.start == 1 {
                self.reduce_from_one(sequence, no_op)
            } else {
                self.reduce_from_many(sequence, no_op)
            },
        }
    }

    /// `seq ::= A | B`, where `A` is the proper form and `B` the trailing form.
    fn reduce_liberal(&mut self, sequence: Sequence<R>, no_op: R)
        requires
            keys_unique(old(self).map@),
            ordered(sequence.shape()),
            old(self).destination.next_id() + stack_weight(old(self).stack@) + tree_size(sequence.shape())
                <= u64::MAX,
            sequence.separator is Liberal,
        ensures
            reduced(*old(self), *final(self), sequence, no_op),
    {
        let ghost s0 = *self;
        let ghost shape = sequence.shape();
        proof {
            lemma_children(shape);
            lemma_grew_refl(s0, no_op);
        }
        let lhs = sequence.lhs;
        let history = sequence.history;
        let base = Sequence { history: no_op, ..sequence };
        let sep = match sequence.separator {
            Separator::Liberal(x) => x,
            _ => sequence.rhs,
        };
        let (sym1, sym2) = self.recurse_pair(
            base.separator(Separator::Proper(sep)),
            base.separator(Separator::Trailing(sep)),
        );
        let ghost m0 = self.destination.model();
        self.destination.rhs_with_history(lhs, single(sym1), history);
        self.destination.rhs_with_history(lhs, single(sym2), history);
        proof {
            assert(self.destination.model() =~= m0 + seq![(lhs, seq![sym1], history), (lhs, seq![sym2], history)]);
            assert(children(shape).map_values(|k: PartialSequence| name_of(self.map@, k)) =~= seq![sym1, sym2]);
            assert(emit(lhs, shape, self.map@, history) =~= seq![(lhs, seq![sym1], history), (lhs, seq![sym2], history)]);
        }

        proof {
            lemma_grew_trans(s0, s0, *self, no_op);
            assert(self.destination.model() =~= s0.destination.model() + emit(lhs, shape, self.map@, history));
        }
    }

    /// `seq ::= A sep`, where `A` is the proper form.
    fn reduce_trailing(&mut self, sequence: Sequence<R>, no_op: R)
        requires
            keys_unique(old(self).map@),
            ordered(sequence.shape()),
            old(self).destination.next_id() + stack_weight(old(self).stack@) + tree_size(sequence.shape())
                <= u64::MAX,
            sequence.separator is Trailing && sequence.start >= 1,
        ensures
            reduced(*old(self), *final(self), sequence, no_op),
    {
        let ghost s0 = *self;
        let ghost shape = sequence.shape();
        proof {
            lemma_children(shape);
            lemma_grew_refl(s0, no_op);
        }
        let lhs = sequence.lhs;
        let history = sequence.history;
        let base = Sequence { history: no_op, ..sequence };
        let sep = match sequence.separator {
            Separator::Trailing(x) => x,
            _ => sequence.rhs,
        };
        let sym = self.recurse(base.separator(Separator::Proper(sep)));
        self.destination.rhs_with_history(lhs, vec![sym, sep], history);
        proof { assert(children(shape).map_values(|k: PartialSequence| name_of(self.map@, k)) =~= seq![sym]); }

        proof {
            lemma_grew_trans(s0, s0, *self, no_op);
            assert(self.destination.model() =~= s0.destination.model() + emit(lhs, shape, self.map@, history));
        }
    }

    /// `seq ::= ε`, and `seq ::= A` with `A` from one item on, unless no item is allowed.
    fn reduce_optional(&mut self, sequence: Sequence<R>, no_op: R)
        requires
            keys_unique(old(self).map@),
            ordered(sequence.shape()),
            old(self).destination.next_id() + stack_weight(old(self).stack@) + tree_size(sequence.shape())
                <= u64::MAX,
            !(sequence.separator is Liberal) && sequence.start == 0,
        ensures
            reduced(*old(self), *final(self), sequence, no_op),
    {
        let ghost s0 = *self;
        let ghost shape = sequence.shape();
        proof {
            lemma_children(shape);
            lemma_grew_refl(s0, no_op);
        }
        let lhs = sequence.lhs;
        let end = sequence.end;
        let history = sequence.history;
        let base = Sequence { history: no_op, ..sequence };
        self.destination.rhs_with_history(lhs, Vec::new(), history);
        match end {
            Some(e) if e == 0 => {
        proof { assert(children(shape).map_values(|k: PartialSequence| name_of(self.map@, k)) =~= seq![]); }
            },
            _ => {
                let sym = self.recurse(base.inclusive(1, end));
                self.destination.rhs_with_history(lhs, single(sym), history);
        proof { assert(children(shape).map_values(|k: PartialSequence| name_of(self.map@, k)) =~= seq![sym]); }
            },
        }

        proof {
            lemma_grew_trans(s0, s0, *self, no_op);
            assert(self.destination.model() =~= s0.destination.model() + emit(lhs, shape, self.map@, history));
        }
    }

    /// Sequences of one item or more: a left-recursive pair, one item, a choice of one or two, or a split in two.
    #[verifier::rlimit(100)]
    fn reduce_from_one(&mut self, sequence: Sequence<R>, no_op: R)
        requires
            keys_unique(old(self).map@),
            ordered(sequence.shape()),
            old(self).destination.next_id() + stack_weight(old(self).stack@) + tree_size(sequence.shape())
                <= u64::MAX,
            !(sequence.separator is Liberal) && !(sequence.separator is Trailing) && sequence.start == 1,
        ensures
            reduced(*old(self), *final(self), sequence, no_op),
    {
        let ghost s0 = *self;
        let ghost shape = sequence.shape();
        proof {
            lemma_children(shape);
            lemma_grew_refl(s0, no_op);
        }
        let lhs = sequence.lhs;
        let rhs = sequence.rhs;
        let end = sequence.end;
        let history = sequence.history;
        let base = Sequence { history: no_op, ..sequence };
        match end {
            None => {
                self.destination.rhs_with_history(lhs, single(rhs), history);
                match sequence.separator {
                    Separator::Proper(sep) => {
                        self.destination.rhs_with_history(lhs, vec![lhs, sep, rhs], history);
                    },
                    _ => {
                        self.destination.rhs_with_history(lhs, vec![lhs, rhs], history);
                    },
                }
        proof { assert(children(shape).map_values(|k: PartialSequence| name_of(self.map@, k)) =~= seq![]); }
            },
            Some(e) => {
                if e == 1 {
                    self.destination.rhs_with_history(lhs, single(rhs), history);
        proof { assert(children(shape).map_values(|k: PartialSequence| name_of(self.map@, k)) =~= seq![]); }
                } else if e == 2 {
                    let (sym1, sym2) = self.recurse_pair(base.inclusive(1, Some(1)), base.inclusive(2, Some(2)));
                    self.destination.rhs_with_history(lhs, single(sym1), history);
                    self.destination.rhs_with_history(lhs, single(sym2), history);
        proof { assert(children(shape).map_values(|k: PartialSequence| name_of(self.map@, k)) =~= seq![sym1, sym2]); }
                } else {
                    let p = split_point(e);
                    let (sym1, sym2) = self.recurse_pair(base.inclusive(1, Some(p)), base.inclusive(1, Some(e - p)));
                    self.destination.rhs_with_history(lhs, single(sym1), history);
                    self.destination.rhs_with_history(lhs, join(sequence.separator, sym1, sym2), history);
        proof { assert(children(shape).map_values(|k: PartialSequence| name_of(self.map@, k)) =~= seq![sym1, sym2]); }
                }
            },
        }

        proof {
            lemma_grew_trans(s0, s0, *self, no_op);
            assert(self.destination.model() =~= s0.destination.model() + emit(lhs, shape, self.map@, history));
        }
    }

    /// Sequences of two items or more: the proper pair, or a block or span split in two.
    #[verifier::rlimit(100)]
    fn reduce_from_many(&mut self, sequence: Sequence<R>, no_op: R)
        requires
            keys_unique(old(self).map@),
            ordered(sequence.shape()),
            old(self).destination.next_id() + stack_weight(old(self).stack@) + tree_size(sequence.shape())
                <= u64::MAX,
            !(sequence.separator is Liberal) && !(sequence.separator is Trailing) && sequence.start >= 2,
        ensures
            reduced(*old(self), *final(self), sequence, no_op),
    {
        let ghost s0 = *self;
        let ghost shape = sequence.shape();
        proof {
            lemma_children(shape);
            lemma_grew_refl(s0, no_op);
        }
        let lhs = sequence.lhs;
        let rhs = sequence.rhs;
        let start = sequence.start;
        let end = sequence.end;
        let history = sequence.history;
        let base = Sequence { history: no_op, ..sequence };
        match (sequence.separator, end) {
            (Separator::Proper(sep), Some(e)) if start == 2 && e == 2 => {
                self.destination.rhs_with_history(lhs, vec![rhs, sep, rhs], history);
        proof { assert(children(shape).map_values(|k: PartialSequence| name_of(self.map@, k)) =~= seq![]); }
            },
            (separator, Some(e)) if e == start => {
                // a block: the exact count is split in two
                let p = split_point(start);
                let (sym1, sym2) = self.recurse_pair(base.inclusive(p, Some(p)), base.inclusive(start - p, Some(start - p)));
                self.destination.rhs_with_history(lhs, join(separator, sym1, sym2), history);
                proof {
                    assert(children(shape).map_values(|k: PartialSequence| name_of(self.map@, k)) =~= seq![sym1, sym2]);
                }
            },
            (separator, _) => {
                // a span: a block of `start` items, then one item or more
                let rest = match end {
                    Some(e) => Some(e - start),
                    None => None,
                };
                let (sym1, sym2) = self.recurse_pair(base.inclusive(start, Some(start)), base.inclusive(1, rest));
                self.destination.rhs_with_history(lhs, single(sym1), history);
                self.destination.rhs_with_history(lhs, join(separator, sym1, sym2), history);
                proof {
                    assert(children(shape).map_values(|k: PartialSequence| name_of(self.map@, k)) =~= seq![sym1, sym2]);
                }
            },
        }

        proof {
            lemma_grew_trans(s0, s0, *self, no_op);
            assert(self.destination.model() =~= s0.destination.model() + emit(lhs, shape, self.map@, history));
        }
    }

}

proof fn lemma_grew_refl<R>(a: SequencesToProductions<R>, h: R)
    ensures
        grew(a, a, h),
{
    assert(a.map@.subrange(0, a.map@.len() as int) =~= a.map@);
    assert(a.stack@.subrange(0, a.stack@.len() as int) =~= a.stack@);
}

proof fn lemma_grew_trans<R>(a: SequencesToProductions<R>, b: SequencesToProductions<R>, c: SequencesToProductions<R>, h: R)
    requires
        grew(a, b, h),
        grew(b, c, h),
    ensures
        grew(a, c, h),
{
    assert(c.map@.subrange(0, a.map@.len() as int) =~= b.map@.subrange(0, a.map@.len() as int));
    assert(c.stack@.subrange(0, a.stack@.len() as int) =~= b.stack@.subrange(0, a.stack@.len() as int));
    let d1 = b.map@.len() - a.map@.len();
    assert forall|j: int| 0 <= j < c.map@.len() - a.map@.len() implies {
        let e = #[trigger] c.map@[a.map@.len() + j];
        let q = c.stack@[a.stack@.len() + j];
        &&& q.lhs == e.1
        &&& q.shape() == e.0
        &&& q.history == h
        &&& ordered(q.shape())
        &&& e.1.id == a.destination.next_id() + j
    } by {
        if j < d1 {
            assert(c.map@[a.map@.len() + j] == c.map@.subrange(0, b.map@.len() as int)[a.map@.len() + j]);
            assert(c.stack@[a.stack@.len() + j] == c.stack@.subrange(0, b.stack@.len() as int)[a.stack@.len() + j]);
            assert(b.map@[a.map@.len() + j] == b.map@[a.map@.len() + j]);
        } else {
            let j2 = j - d1;
            assert(c.map@[b.map@.len() + j2] == c.map@[a.map@.len() + j]);
        }
    }
}

} // verus!
