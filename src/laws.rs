use vstd::prelude::*;

use crate::expansion::{children, largest_bound, lemma_tree_size_bound, with_separator};
use crate::grammar::RuleModel;
use crate::sequence::{ordered, PartialSequence, Separator};
use crate::sequence_destination::{
    closed, emit, emitted, expanded, keys_unique, lookup, name_of, SequencesToProductions,
};
use crate::symbol::Symbol;

verus! {

proof fn lemma_emit_len<R>(lhs: Symbol, s: PartialSequence, m: Seq<(PartialSequence, Symbol)>, h: R)
    ensures
        1 <= emit(lhs, s, m, h).len() <= 2,
        forall|i: int| 0 <= i < emit(lhs, s, m, h).len() ==> (#[trigger] emit(lhs, s, m, h)[i]).2 == h
            && emit(lhs, s, m, h)[i].0 == lhs,
{
}

proof fn lemma_emitted<R>(log: Seq<PartialSequence>, m: Seq<(PartialSequence, Symbol)>, h: R)
    ensures
        emitted(log, m, h).len() <= 2 * log.len(),
        forall|i: int| 0 <= i < emitted(log, m, h).len() ==> (#[trigger] emitted(log, m, h)[i]).2 == h,
    decreases log.len(),
{
    if log.len() > 0 {
        lemma_emitted(log.drop_last(), m, h);
        lemma_emit_len(name_of(m, log.last()), log.last(), m, h);
        let e1 = emitted(log.drop_last(), m, h);
        let e2 = emit(name_of(m, log.last()), log.last(), m, h);
        assert forall|i: int| 0 <= i < emitted(log, m, h).len() implies (#[trigger] emitted(log, m, h)[i]).2 == h by {
            if i >= e1.len() {
                assert(emitted(log, m, h)[i] == e2[i - e1.len()]);
            }
        }
    }
}

/// The symbols minted for one sequence grow at most linearly with its
/// largest bound, and each shape reduced emits at most two rules.
pub proof fn lemma_expansion_size<R>(
    a: SequencesToProductions<R>,
    b: SequencesToProductions<R>,
    lhs: Symbol,
    shape: PartialSequence,
    root: R,
    no_op: R,
)
    requires
        ordered(shape),
        expanded(a, b, lhs, shape, root, no_op),
    ensures
        b.destination.next_id() - a.destination.next_id() == b.map@.len(),
        b.map@.len() <= 16 * largest_bound(shape) + 16,
        b.destination.model().len() - a.destination.model().len() <= 2 * b.map@.len() + 2,
{
    lemma_tree_size_bound(shape);
    let log = choose|log: Seq<PartialSequence>| {
        &&& closed(log, b.map@)
        &&& b.destination.model() == a.destination.model() + emit(lhs, shape, b.map@, root) + emitted(log, b.map@, no_op)
    };
    lemma_emit_len(lhs, shape, b.map@, root);
    lemma_emitted(log, b.map@, no_op);
}

/// Within one expansion, each distinct shape has exactly one symbol: no
/// shape is named twice, and no two shapes share a symbol.
pub proof fn lemma_one_symbol_per_shape<R>(
    a: SequencesToProductions<R>,
    b: SequencesToProductions<R>,
    lhs: Symbol,
    shape: PartialSequence,
    root: R,
    no_op: R,
    i: int,
    j: int,
)
    requires
        expanded(a, b, lhs, shape, root, no_op),
        0 <= i < j < b.map@.len(),
    ensures
        b.map@[i].0 != b.map@[j].0,
        b.map@[i].1 != b.map@[j].1,
{
    let m = b.map@;
    assert(lookup(m.subrange(0, j), m[j].0) is None);
    assert(m.subrange(0, j)[i] == m[i]);
    crate::sequence_destination::lemma_lookup_none_at(m.subrange(0, j), m[j].0, i);
    assert(m[i].1.id == a.destination.next_id() + i);
    assert(m[j].1.id == a.destination.next_id() + j);
}

/// The rules of the sequence's own symbol come first and carry the history
/// made from the user's; every rule after them belongs to an internal
/// symbol and carries the no-op history.
pub proof fn lemma_history_propagation<R>(
    a: SequencesToProductions<R>,
    b: SequencesToProductions<R>,
    lhs: Symbol,
    shape: PartialSequence,
    root: R,
    no_op: R,
)
    requires
        expanded(a, b, lhs, shape, root, no_op),
    ensures
        1 <= emit(lhs, shape, b.map@, root).len() <= 2,
        a.destination.model().len() + emit(lhs, shape, b.map@, root).len() <= b.destination.model().len(),
        forall|i: int| a.destination.model().len() <= i < a.destination.model().len() + emit(lhs, shape, b.map@, root).len()
            ==> (#[trigger] b.destination.model()[i]).0 == lhs && b.destination.model()[i].2 == root,
        forall|i: int| a.destination.model().len() + emit(lhs, shape, b.map@, root).len() <= i < b.destination.model().len()
            ==> (#[trigger] b.destination.model()[i]).2 == no_op,
{
    let log = choose|log: Seq<PartialSequence>| {
        &&& closed(log, b.map@)
        &&& b.destination.model() == a.destination.model() + emit(lhs, shape, b.map@, root) + emitted(log, b.map@, no_op)
    };
    let n = a.destination.model().len();
    let e = emit(lhs, shape, b.map@, root);
    let rest = emitted(log, b.map@, no_op);
    lemma_emit_len(lhs, shape, b.map@, root);
    lemma_emitted(log, b.map@, no_op);
    let k = e.len() as int;
    assert forall|i: int| n <= i < n + k implies (#[trigger] b.destination.model()[i]).0 == lhs
        && b.destination.model()[i].2 == root by {
        assert(b.destination.model()[i] == e[i - n]);
    }
    assert forall|i: int| n + k <= i < b.destination.model().len() implies (
    #[trigger] b.destination.model()[i]).2 == no_op by {
        assert(b.destination.model()[i] == rest[i - n - k]);
    }
}

/// No item allowed: the whole expansion is the one rule `lhs ::= ε`, and
/// no symbol is minted.
pub proof fn lemma_zero_case<R>(
    a: SequencesToProductions<R>,
    b: SequencesToProductions<R>,
    lhs: Symbol,
    shape: PartialSequence,
    root: R,
    no_op: R,
)
    requires
        !(shape.separator is Liberal) && !(shape.separator is Trailing),
        shape.start == 0 && shape.end == Some(0u32),
        expanded(a, b, lhs, shape, root, no_op),
    ensures
        b.map@.len() == 0,
        b.destination.next_id() == a.destination.next_id(),
        b.destination.model() == a.destination.model().push((lhs, Seq::<Symbol>::empty(), root)),
{
    assert(children(shape) =~= Seq::<PartialSequence>::empty());
    lemma_leaf_expansion(a, b, lhs, shape, root, no_op);
    assert(emit(lhs, shape, b.map@, root) =~= seq![(lhs, Seq::<Symbol>::empty(), root)]);
    assert(b.destination.model() =~= a.destination.model().push((lhs, Seq::<Symbol>::empty(), root)));
}

/// A shape that refers to no other shape expands to the rules of its own
/// reduction step alone, and no symbol is minted.
pub proof fn lemma_leaf_expansion<R>(
    a: SequencesToProductions<R>,
    b: SequencesToProductions<R>,
    lhs: Symbol,
    shape: PartialSequence,
    root: R,
    no_op: R,
)
    requires
        children(shape).len() == 0,
        expanded(a, b, lhs, shape, root, no_op),
    ensures
        b.map@.len() == 0,
        b.destination.next_id() == a.destination.next_id(),
        b.destination.model() == a.destination.model() + emit(lhs, shape, b.map@, root),
{
    if b.map@.len() > 0 {
        assert(!children(shape).contains(b.map@[0].0));
    }
    let log = choose|log: Seq<PartialSequence>| {
        &&& closed(log, b.map@)
        &&& b.destination.model() == a.destination.model() + emit(lhs, shape, b.map@, root) + emitted(log, b.map@, no_op)
    };
    assert(b.destination.model() =~= a.destination.model() + emit(lhs, shape, b.map@, root));
}

/// One item or more without bound: the whole expansion is `lhs ::= item`
/// and the left-recursive `lhs ::= lhs item`, with the separator between the
/// two where it is proper; no symbol is minted.
pub proof fn lemma_unbounded_case<R>(
    a: SequencesToProductions<R>,
    b: SequencesToProductions<R>,
    lhs: Symbol,
    shape: PartialSequence,
    root: R,
    no_op: R,
)
    requires
        !(shape.separator is Liberal) && !(shape.separator is Trailing),
        shape.start == 1 && shape.end is None,
        expanded(a, b, lhs, shape, root, no_op),
    ensures
        b.map@.len() == 0,
        b.destination.next_id() == a.destination.next_id(),
        shape.separator is Null ==> b.destination.model() == a.destination.model() + seq![
            (lhs, seq![shape.rhs], root),
            (lhs, seq![lhs, shape.rhs], root),
        ],
        shape.separator is Proper ==> b.destination.model() == a.destination.model() + seq![
            (lhs, seq![shape.rhs], root),
            (lhs, seq![lhs, shape.separator->Proper_0, shape.rhs], root),
        ],
{
    let m = b.map@;
    assert(children(shape) =~= Seq::<PartialSequence>::empty());
    lemma_leaf_expansion(a, b, lhs, shape, root, no_op);
    if shape.separator is Null {
        assert(emit(lhs, shape, m, root) =~= seq![(lhs, seq![shape.rhs], root), (lhs, seq![lhs, shape.rhs], root)]);
    } else {
        assert(emit(lhs, shape, m, root) =~= seq![
            (lhs, seq![shape.rhs], root),
            (lhs, seq![lhs, shape.separator->Proper_0, shape.rhs], root),
        ]);
    }
}

/// One item or more with a trailing separator: the proper form of the same
/// bounds, then the separator:
/// `lhs ::= A sep`, with `A` the symbol of the proper form.
pub proof fn lemma_trailing_case<R>(lhs: Symbol, s: PartialSequence, m: Seq<(PartialSequence, Symbol)>, h: R, sep: Symbol)
    requires
        s.separator == Separator::Trailing(sep),
        s.start >= 1,
    ensures
        children(s) == seq![with_separator(s, Separator::Proper(sep))],
        emit(lhs, s, m, h) == seq![(lhs, seq![name_of(m, with_separator(s, Separator::Proper(sep))), sep], h)],
{
    assert(children(s) =~= seq![with_separator(s, Separator::Proper(sep))]);
    assert(emit(lhs, s, m, h) =~= seq![(lhs, seq![name_of(m, with_separator(s, Separator::Proper(sep))), sep], h)]);
}

/// A liberal separator is the union of the proper and the trailing form of
/// the same bounds: `lhs ::= P | T`.
pub proof fn lemma_liberal_union<R>(lhs: Symbol, s: PartialSequence, m: Seq<(PartialSequence, Symbol)>, h: R, sep: Symbol)
    requires
        s.separator == Separator::Liberal(sep),
    ensures
        children(s) == seq![with_separator(s, Separator::Proper(sep)), with_separator(s, Separator::Trailing(sep))],
        emit(lhs, s, m, h) == seq![
            (lhs, seq![name_of(m, with_separator(s, Separator::Proper(sep)))], h),
            (lhs, seq![name_of(m, with_separator(s, Separator::Trailing(sep)))], h),
        ],
{
    assert(children(s) =~= seq![with_separator(s, Separator::Proper(sep)), with_separator(s, Separator::Trailing(sep))]);
    assert(emit(lhs, s, m, h) =~= seq![
        (lhs, seq![name_of(m, with_separator(s, Separator::Proper(sep)))], h),
        (lhs, seq![name_of(m, with_separator(s, Separator::Trailing(sep)))], h),
    ]);
}

} // verus!
