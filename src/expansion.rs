use vstd::prelude::*;

use crate::sequence::{ordered, PartialSequence, Separator};
use crate::symbol::Symbol;

verus! {

/// The largest power of two strictly below `k`, for `k >= 2`
/// (`k.next_power_of_two() / 2`).
pub open spec fn pow2_below(k: nat) -> nat
    decreases k,
{
    if k <= 2 {
        1
    } else {
        2 * pow2_below(((k + 1) / 2) as nat)
    }
}

pub proof fn lemma_pow2_below(k: nat)
    requires
        k >= 2,
    ensures
        1 <= pow2_below(k) < k <= 2 * pow2_below(k),
        k >= 3 ==> pow2_below(k) >= 2,
    decreases k,
{
    if k > 2 {
        lemma_pow2_below(((k + 1) / 2) as nat);
    }
}

/// Computes `pow2_below(k)`.
pub fn split_point(k: u32) -> (r: u32)
    requires
        k >= 2,
    ensures
        r == pow2_below(k as nat),
        1 <= r < k,
    decreases k,
{
    proof {
        lemma_pow2_below(k as nat);
    }
    if k <= 2 {
        1
    } else {
        let h: u32 = k / 2 + k % 2;
        assert(h == (k + 1) / 2);
        let p = split_point(h);
        2 * p
    }
}

pub open spec fn with_bounds(s: PartialSequence, start: int, end: Option<int>) -> PartialSequence {
    PartialSequence {
        start: start as u32,
        end: match end {
            Some(e) => Some(e as u32),
            None => None,
        },
        ..s
    }
}

pub open spec fn with_separator(s: PartialSequence, sep: Separator) -> PartialSequence {
    PartialSequence { separator: sep, ..s }
}

/// The shapes that one reduction step of `s` refers to, in order.
pub open spec fn children(s: PartialSequence) -> Seq<PartialSequence> {
    match s.separator {
        Separator::Liberal(x) => seq![
            with_separator(s, Separator::Proper(x)),
            with_separator(s, Separator::Trailing(x)),
        ],
        _ => if s.start == 0 {
            match s.end {
                Some(e) => if e == 0 {
                    seq![]
                } else {
                    seq![with_bounds(s, 1, Some(e as int))]
                },
                None => seq![with_bounds(s, 1, None)],
            }
        } else if s.separator is Trailing {
            seq![with_separator(s, Separator::Proper(s.separator->Trailing_0))]
        } else if s.start == 1 {
            match s.end {
                Some(e) => if e == 2 {
                    seq![with_bounds(s, 1, Some(1)), with_bounds(s, 2, Some(2))]
                } else if e > 2 {
                    let p = pow2_below(e as nat);
                    seq![with_bounds(s, 1, Some(p as int)), with_bounds(s, 1, Some(e - p))]
                } else {
                    seq![]
                },
                None => seq![],
            }
        } else if s.separator is Proper && s.start == 2 && s.end == Some(2u32) {
            seq![]
        } else {
            match s.end {
                Some(e) => if e == s.start {
                    let p = pow2_below(e as nat);
                    seq![with_bounds(s, p as int, Some(p as int)), with_bounds(s, e - p, Some(e - p))]
                } else {
                    seq![
                        with_bounds(s, s.start as int, Some(s.start as int)),
                        with_bounds(s, 1, Some(e - s.start)),
                    ]
                },
                None => seq![with_bounds(s, s.start as int, Some(s.start as int)), with_bounds(s, 1, None)],
            }
        },
    }
}

/// `a` followed by `b`, with the separator between them where it is proper.
pub open spec fn joined(separator: Separator, a: Symbol, b: Symbol) -> Seq<Symbol> {
    match separator {
        Separator::Proper(x) => seq![a, x, b],
        _ => seq![a, b],
    }
}

/// The right-hand sides of the alternatives that one reduction step of `s`
/// emits for `lhs`, where `c` holds the symbols standing for `children(s)`.
pub open spec fn alternatives(lhs: Symbol, s: PartialSequence, c: Seq<Symbol>) -> Seq<Seq<Symbol>> {
    match s.separator {
        Separator::Liberal(x) => seq![seq![c[0]], seq![c[1]]],
        _ => if s.start == 0 {
            if s.end == Some(0u32) {
                seq![seq![]]
            } else {
                seq![seq![], seq![c[0]]]
            }
        } else if s.separator is Trailing {
            seq![seq![c[0], s.separator->Trailing_0]]
        } else if s.start == 1 && s.end is None {
            match s.separator {
                Separator::Proper(x) => seq![seq![s.rhs], seq![lhs, x, s.rhs]],
                _ => seq![seq![s.rhs], seq![lhs, s.rhs]],
            }
        } else if s.start == 1 && s.end == Some(1u32) {
            seq![seq![s.rhs]]
        } else if s.start == 1 && s.end == Some(2u32) {
            seq![seq![c[0]], seq![c[1]]]
        } else if s.start == 1 {
            seq![seq![c[0]], joined(s.separator, c[0], c[1])]
        } else if s.start == 2 && s.end == Some(2u32) && s.separator is Proper {
            seq![seq![s.rhs, s.separator->Proper_0, s.rhs]]
        } else if s.end == Some(s.start) {
            seq![joined(s.separator, c[0], c[1])]
        } else {
            seq![seq![c[0]], joined(s.separator, c[0], c[1])]
        },
    }
}

/// Tells whether the bounds of `s` are in order.
pub fn is_ordered(s: &PartialSequence) -> (r: bool)
    ensures
        r == ordered(*s),
{
    match s.end {
        Some(e) => s.start <= e,
        None => true,
    }
}

pub open spec fn bounds_rank(s: PartialSequence) -> nat {
    match s.end {
        Some(e) => (3 * e + if s.start == 0 {
            2nat
        } else if s.start == e {
            0nat
        } else {
            1nat
        }) as nat,
        None => (3 * 0x1_0000_0000 + 3 + if s.start == 0 {
            2nat
        } else if s.start == 1 {
            0nat
        } else {
            1nat
        }) as nat,
    }
}

pub open spec fn measure(s: PartialSequence) -> nat {
    3 * bounds_rank(s) + match s.separator {
        Separator::Liberal(_) => 2nat,
        Separator::Trailing(_) => 1nat,
        _ => 0nat,
    }
}

/// A bound on the work that expanding `s` takes: one for `s`, and one more
/// than its size for each child.
pub open spec fn tree_size(s: PartialSequence) -> nat
    decreases measure(s),
{
    let c = children(s);
    1 + (if c.len() >= 1 && measure(c[0]) < measure(s) {
        1 + tree_size(c[0])
    } else {
        0
    }) + (if c.len() >= 2 && measure(c[1]) < measure(s) {
        1 + tree_size(c[1])
    } else {
        0
    })
}

pub proof fn lemma_children(s: PartialSequence)
    requires
        ordered(s),
    ensures
        children(s).len() <= 2,
        forall|i: int| 0 <= i < children(s).len() ==> ordered(#[trigger] children(s)[i])
            && measure(children(s)[i]) < measure(s) && children(s)[i].rhs == s.rhs,
        tree_size(s) == 1 + (if children(s).len() >= 1 { 1 + tree_size(children(s)[0]) } else { 0 })
            + (if children(s).len() >= 2 { 1 + tree_size(children(s)[1]) } else { 0 }),
{
    if s.start >= 1 {
        if let Some(e) = s.end {
            if e >= 2 {
                lemma_pow2_below(e as nat);
            }
        }
    }
}

/// The largest count that the bounds of `s` name.
pub open spec fn largest_bound(s: PartialSequence) -> nat {
    match s.end {
        Some(e) => if e >= s.start { e as nat } else { s.start as nat },
        None => s.start as nat,
    }
}

pub open spec fn size_bounded(s: PartialSequence) -> bool {
    let b = largest_bound(s);
    let t = tree_size(s);
    &&& (!(s.separator is Liberal) && !(s.separator is Trailing)) ==> {
        &&& (s.end == Some(s.start) && s.start >= 1 ==> t + 3 <= 4 * s.start)
        &&& (s.start == 1 && s.end is Some && s.end->Some_0 >= 1 ==> t + 7 <= 8 * s.end->Some_0)
        &&& t <= 8 * b + 3
    }
    &&& s.separator is Trailing ==> t <= 8 * b + 7 && (s.start >= 1 ==> t <= 8 * b + 5)
    &&& (!(s.separator is Liberal) && !(s.separator is Trailing) && s.end is None && s.start == 1) ==> t == 1
    &&& (s.separator is Trailing && s.end is None && s.start == 1) ==> t <= 3
    &&& (!(s.separator is Liberal) && s.end is None && s.start == 0) ==> t <= 5
    &&& t <= 16 * b + 16
}

/// The work of expanding a shape grows linearly with its bounds.
#[verifier::rlimit(100)]
pub proof fn lemma_tree_size_bound(s: PartialSequence)
    requires
        ordered(s),
    ensures
        size_bounded(s),
    decreases measure(s),
{
    lemma_children(s);
    let c = children(s);
    if c.len() >= 1 {
        lemma_tree_size_bound(c[0]);
    }
    if c.len() >= 2 {
        lemma_tree_size_bound(c[1]);
    }
    if s.start >= 1 {
        if let Some(e) = s.end {
            if e >= 2 {
                lemma_pow2_below(e as nat);
            }
        }
    }
}

} // verus!
