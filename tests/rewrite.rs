use std::collections::{BTreeMap, BTreeSet};

use cfg_sequence::expansion::{is_ordered, split_point};
use cfg_sequence::grammar::Grammar;
use cfg_sequence::history::{Action, NullHistory, RewriteSequence};
use cfg_sequence::rule::{GrammarRule, Rule, RuleRef};
use cfg_sequence::sequence::{Separator, Sequence};
use cfg_sequence::sequence_destination::{SequenceDestination, SequencesToProductions};
use cfg_sequence::symbol::Symbol;

#[derive(Clone, Copy, Debug, PartialEq, Eq)]
struct Tag(u32);

impl RewriteSequence<Tag> for Tag {
    fn spec_sequence(&self, _top: Sequence<Tag>) -> Tag {
        Tag(self.0 + 100)
    }

    fn sequence(&self, _top: &Sequence<Tag>) -> Tag {
        Tag(self.0 + 100)
    }
}

impl Action for Tag {
    fn spec_no_op(&self) -> Tag {
        Tag(0)
    }

    fn no_op(&self) -> Tag {
        Tag(0)
    }
}

const LHS: Symbol = Symbol { id: 1 };
const ITEM: Symbol = Symbol { id: 2 };
const SEP: Symbol = Symbol { id: 3 };

fn seq(start: u32, end: Option<u32>, separator: Separator) -> Sequence<Tag> {
    Sequence { lhs: LHS, rhs: ITEM, start, end, separator, history: Tag(7) }
}

fn run(top: Sequence<Tag>) -> (Vec<(u64, Vec<u64>, u32)>, u64) {
    let mut engine = SequencesToProductions::new(Grammar::new(10));
    engine.rewrite(top);
    let rules = engine
        .destination
        .rules
        .iter()
        .map(|r| (r.lhs.id, r.rhs.iter().map(|s| s.id).collect(), r.history.0))
        .collect();
    (rules, engine.destination.sym_source.next - 10)
}

#[test]
fn zero_case_derives_only_empty() {
    let (rules, minted) = run(seq(0, Some(0), Separator::Null));
    assert_eq!(rules, vec![(1, vec![], 107)]);
    assert_eq!(minted, 0);
}

#[test]
fn unbounded_without_separator() {
    let (rules, minted) = run(seq(1, None, Separator::Null));
    assert_eq!(rules, vec![(1, vec![2], 107), (1, vec![1, 2], 107)]);
    assert_eq!(minted, 0);
}

#[test]
fn unbounded_with_proper_separator() {
    let (rules, minted) = run(seq(1, None, Separator::Proper(SEP)));
    assert_eq!(rules, vec![(1, vec![2], 107), (1, vec![1, 3, 2], 107)]);
    assert_eq!(minted, 0);
}

#[test]
fn zero_or_more_refers_to_one_or_more() {
    let (rules, minted) = run(seq(0, None, Separator::Null));
    assert_eq!(
        rules,
        vec![(1, vec![], 107), (1, vec![10], 107), (10, vec![2], 0), (10, vec![10, 2], 0)]
    );
    assert_eq!(minted, 1);
}

#[test]
fn trailing_separator_follows_every_item() {
    let (rules, minted) = run(seq(1, Some(2), Separator::Trailing(SEP)));
    // lhs ::= A sep; A ::= B | C; C ::= item sep item; B ::= item
    assert_eq!(
        rules,
        vec![
            (1, vec![10, 3], 107),
            (10, vec![11], 0),
            (10, vec![12], 0),
            (12, vec![2, 3, 2], 0),
            (11, vec![2], 0),
        ]
    );
    assert_eq!(minted, 3);
}

#[test]
fn liberal_is_union_of_proper_and_trailing() {
    let (rules, _) = run(seq(1, Some(2), Separator::Liberal(SEP)));
    assert_eq!(rules[0], (1, vec![10], 107));
    assert_eq!(rules[1], (1, vec![11], 107));
    // 11 is the trailing form: the proper form, named 10 once, then sep
    assert_eq!(rules[2], (11, vec![10, 3], 0));
    let proper: Vec<_> = rules.iter().filter(|r| r.0 == 10).collect();
    assert_eq!(proper.len(), 2);
}

#[test]
fn one_or_two_items() {
    let (rules, minted) = run(seq(1, Some(2), Separator::Null));
    // [2, 2] without separator is a block of [1, 1] and [1, 1], which is named once
    assert_eq!(
        rules,
        vec![(1, vec![10], 107), (1, vec![11], 107), (11, vec![10, 10], 0), (10, vec![2], 0)]
    );
    assert_eq!(minted, 2);
}

#[test]
fn identical_shapes_share_one_symbol() {
    let (rules, minted) = run(seq(1, Some(4), Separator::Null));
    // [1, 4] splits into [1, 2] and [1, 2]: one symbol for both
    assert_eq!(rules[0], (1, vec![10], 107));
    assert_eq!(rules[1], (1, vec![10, 10], 107));
    assert_eq!(minted, 3);
    assert_eq!(rules.len(), 6);
}

#[test]
fn separate_calls_do_not_share_symbols() {
    let mut engine = SequencesToProductions::new(Grammar::new(10));
    engine.rewrite(seq(1, Some(4), Separator::Null));
    let after_first = engine.destination.sym_source.next;
    engine.rewrite(Sequence { lhs: Symbol { id: 5 }, ..seq(1, Some(4), Separator::Null) });
    assert_eq!(after_first, 13);
    assert_eq!(engine.destination.sym_source.next, 16);
    assert_eq!(engine.destination.rules[6].lhs.id, 5);
    assert_eq!(engine.destination.rules[6].rhs, vec![Symbol { id: 13 }]);
    assert_eq!(engine.destination.rules[7].rhs, vec![Symbol { id: 13 }, Symbol { id: 13 }]);
}

#[test]
fn histories_of_root_and_internal_rules() {
    let (rules, _) = run(seq(3, Some(9), Separator::Proper(SEP)));
    for r in &rules {
        if r.0 == 1 {
            assert_eq!(r.2, 107);
        } else {
            assert_eq!(r.2, 0);
        }
    }
    assert!(rules.iter().any(|r| r.0 != 1));
}

#[test]
fn block_is_split_in_powers_of_two() {
    let (rules, _) = run(seq(5, Some(5), Separator::Null));
    // 5 = 4 + 1
    assert_eq!(rules[0], (1, vec![10, 11], 107));
}

#[test]
fn span_is_block_then_rest() {
    let (rules, _) = run(seq(2, Some(5), Separator::Null));
    // a block of 2 alone, or followed by [1, 5 - 2]
    assert_eq!(rules[0], (1, vec![10], 107));
    assert_eq!(rules[1], (1, vec![10, 11], 107));
}

#[test]
fn unbounded_from_three() {
    let (rules, minted) = run(seq(3, None, Separator::Null));
    assert_eq!(rules[0], (1, vec![10], 107));
    assert_eq!(rules[1], (1, vec![10, 11], 107));
    assert!(rules.contains(&(11, vec![2], 0)));
    assert!(rules.contains(&(11, vec![11, 2], 0)));
    assert!(minted >= 2);
}

type Lang = BTreeSet<Vec<u64>>;

/// The strings of terminals that `start` derives, up to `max` symbols long.
fn derive(rules: &[(u64, Vec<u64>, u32)], start: u64, max: usize) -> Lang {
    let nonterminals: BTreeSet<u64> = rules.iter().map(|r| r.0).collect();
    let mut lang: BTreeMap<u64, Lang> = BTreeMap::new();
    loop {
        let mut changed = false;
        for (lhs, rhs, _) in rules {
            let mut acc: Lang = [Vec::new()].into_iter().collect();
            for sym in rhs {
                let part: Lang = if nonterminals.contains(sym) {
                    lang.get(sym).cloned().unwrap_or_default()
                } else {
                    [vec![*sym]].into_iter().collect()
                };
                let mut next = Lang::new();
                for a in &acc {
                    for b in &part {
                        if a.len() + b.len() <= max {
                            let mut c = a.clone();
                            c.extend(b);
                            next.insert(c);
                        }
                    }
                }
                acc = next;
            }
            let entry = lang.entry(*lhs).or_default();
            for w in acc {
                changed |= entry.insert(w);
            }
        }
        if !changed {
            break;
        }
    }
    lang.get(&start).cloned().unwrap_or_default()
}

/// The naive expansion: k items for each allowed k, joined per separator.
fn naive(start: u32, end: Option<u32>, separator: Separator, max: usize) -> Lang {
    let mut out = Lang::new();
    let top = end.unwrap_or(max as u32).min(max as u32);
    for k in start..=top {
        let k = k as usize;
        let proper: Vec<u64> = (0..k).flat_map(|i| if i == 0 { vec![2] } else { vec![3, 2] }).collect();
        let trailing: Vec<u64> = (0..k).flat_map(|_| vec![2, 3]).collect();
        let words = match separator {
            Separator::Null => vec![vec![2; k]],
            Separator::Proper(_) => vec![proper],
            Separator::Trailing(_) => vec![trailing],
            Separator::Liberal(_) => vec![proper, trailing],
        };
        for w in words {
            if w.len() <= max {
                out.insert(w);
            }
        }
    }
    out
}

fn same_language(start: u32, end: Option<u32>, separator: Separator) {
    let max = 14;
    let (rules, _) = run(seq(start, end, separator));
    assert_eq!(derive(&rules, 1, max), naive(start, end, separator, max), "[{}, {:?}] {:?}", start, end, separator);
}

#[test]
fn one_to_three_derives_one_two_or_three_items() {
    let (rules, _) = run(seq(1, Some(3), Separator::Null));
    let expected: Lang = [vec![2], vec![2, 2], vec![2, 2, 2]].into_iter().collect();
    assert_eq!(derive(&rules, 1, 4), expected);
    let (rules, _) = run(seq(1, Some(3), Separator::Proper(SEP)));
    let expected: Lang = [vec![2], vec![2, 3, 2], vec![2, 3, 2, 3, 2]].into_iter().collect();
    assert_eq!(derive(&rules, 1, 6), expected);
}

#[test]
fn trailing_one_or_two_derives_exactly_two_strings() {
    let (rules, _) = run(seq(1, Some(2), Separator::Trailing(SEP)));
    let expected: Lang = [vec![2, 3], vec![2, 3, 2, 3]].into_iter().collect();
    assert_eq!(derive(&rules, 1, 8), expected);
}

#[test]
fn small_bounds_match_naive_expansion() {
    let seps = [Separator::Null, Separator::Proper(SEP), Separator::Trailing(SEP), Separator::Liberal(SEP)];
    for sep in seps {
        for start in 0..=7u32 {
            for end in start..=7u32 {
                same_language(start, Some(end), sep);
            }
            same_language(start, None, sep);
        }
    }
}

#[test]
fn span_just_above_start() {
    same_language(2, Some(3), Separator::Null);
    same_language(2, Some(3), Separator::Proper(SEP));
    same_language(5, Some(6), Separator::Liberal(SEP));
}

#[test]
fn rule_count_grows_slowly() {
    let mut last = 0usize;
    for &n in &[1u32, 2, 3, 7, 8, 1000, 1_000_000] {
        let (rules, minted) = run(seq(1, Some(n), Separator::Proper(SEP)));
        let log2 = 32 - n.leading_zeros() as usize;
        assert!(rules.len() <= 8 * log2 + 8, "n = {}: {} rules", n, rules.len());
        assert!((minted as usize) <= 8 * log2 + 8);
        assert!(rules.len() + 16 >= last);
        last = rules.len();
    }
}

#[test]
fn largest_bound_rewrites() {
    let (rules, _) = run(seq(1, Some(u32::MAX), Separator::Liberal(SEP)));
    assert!(rules.len() < 1000);
}

#[test]
fn split_point_values() {
    assert_eq!(split_point(2), 1);
    assert_eq!(split_point(3), 2);
    assert_eq!(split_point(4), 2);
    assert_eq!(split_point(5), 4);
    assert_eq!(split_point(8), 4);
    assert_eq!(split_point(9), 8);
    assert_eq!(split_point(1000), 512);
    assert_eq!(split_point(u32::MAX), 1 << 31);
}

#[test]
fn rewrite_sequences_in_order() {
    let input = vec![
        seq(0, Some(0), Separator::Null),
        Sequence { lhs: Symbol { id: 4 }, ..seq(1, None, Separator::Null) },
    ];
    let g = SequencesToProductions::rewrite_sequences(&input, Grammar::new(10));
    let rules: Vec<(u64, usize)> = g.rules.iter().map(|r| (r.lhs.id, r.rhs.len())).collect();
    assert_eq!(rules, vec![(1, 0), (4, 1), (4, 2)]);
    assert_eq!(g.rules[0].history, Tag(107));
}

#[test]
fn engine_as_destination() {
    let mut engine = SequencesToProductions::new(Grammar::new(10));
    engine.add_sequence(seq(1, Some(1), Separator::Null));
    assert_eq!(engine.destination.rules.len(), 1);
    assert_eq!(engine.destination.rules[0].rhs, vec![ITEM]);
}

#[test]
fn list_as_destination() {
    let mut list: Vec<Sequence<NullHistory>> = Vec::new();
    let s = Sequence { lhs: LHS, rhs: ITEM, start: 2, end: None, separator: Separator::Null, history: NullHistory };
    list.add_sequence(s);
    assert_eq!(list.len(), 1);
    assert_eq!(list[0].start, 2);
}

#[test]
fn owned_and_borrowed_rules_read_alike() {
    let owned = Rule::new(LHS, vec![ITEM, SEP], Tag(3));
    let rhs = [ITEM, SEP];
    let h = Tag(3);
    let borrowed = RuleRef { lhs: LHS, rhs: &rhs, history: &h };
    assert_eq!(owned.lhs(), borrowed.lhs());
    assert_eq!(owned.rhs(), borrowed.rhs());
    assert_eq!(owned.history(), borrowed.history());
}

#[test]
fn null_history_rewrites() {
    let mut engine = SequencesToProductions::new(Grammar::new(10));
    let s = Sequence { lhs: LHS, rhs: ITEM, start: 0, end: Some(3), separator: Separator::Null, history: NullHistory };
    engine.rewrite(s);
    assert_eq!(engine.destination.rules[0].rhs.len(), 0);
    assert_eq!(engine.destination.rules[1].rhs, vec![Symbol { id: 10 }]);
}

#[test]
fn rewritable_shapes() {
    let shape = |start: u32, end: Option<u32>| seq(start, end, Separator::Null).partial();
    assert!(is_ordered(&shape(0, Some(0))));
    assert!(is_ordered(&shape(1, None)));
    assert!(is_ordered(&shape(2, Some(4))));
    assert!(is_ordered(&shape(1, Some(2))));
    assert!(!is_ordered(&shape(3, Some(2))));
    assert!(is_ordered(&shape(2, Some(3))));
    assert!(is_ordered(&shape(u32::MAX, Some(u32::MAX))));
}

#[test]
fn one_to_three_splits_into_two_and_one() {
    // [1, 3] becomes A | A B with A of [1, 2] and B of [1, 1]
    let (rules, minted) = run(seq(1, Some(3), Separator::Null));
    assert_eq!(rules[0], (1, vec![10], 107));
    assert_eq!(rules[1], (1, vec![10, 11], 107));
    assert!(rules.contains(&(11, vec![2], 0)));
    assert_eq!(minted, 3);
}

#[test]
fn rule_behind_a_reference_reads_alike() {
    let owned = Rule::new(LHS, vec![ITEM], Tag(4));
    let r = &owned;
    assert_eq!(GrammarRule::lhs(&r), LHS);
    assert_eq!(GrammarRule::rhs(&r), &[ITEM][..]);
    assert_eq!(GrammarRule::history(&r), &Tag(4));
}
