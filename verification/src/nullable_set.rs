//! The nullable set of a grammar: the non-terminals that can derive the
//! empty string, computed as a least fixed point over the rules.

use vstd::prelude::*;

use crate::bnf::{Grammer, SpecRule, Symbol};
use crate::item_set::lemma_distinct_in_universe_len;

verus! {

/// The non-terminals recorded so far, as a set.
pub open spec fn nset(v: Seq<u64>) -> Set<u64> {
    v.to_set()
}

/// True when the symbol is a non-terminal of `s`; a terminal is never
/// nullable.
pub open spec fn sym_nullable_in(sym: Symbol, s: Set<u64>) -> bool {
    match sym {
        Symbol::Term(_) => false,
        Symbol::NonTerm(n) => s.contains(n),
    }
}

/// True when every right-hand symbol of the rule is a non-terminal of `s`;
/// holds trivially of an epsilon production.
pub open spec fn rule_nullable_in(r: SpecRule, s: Set<u64>) -> bool {
    forall|k: int| 0 <= k < r.right.len() ==> sym_nullable_in(#[trigger] r.right[k], s)
}

/// A set of non-terminals is nullable-closed for the rules: whenever a rule's
/// whole right-hand side lies in the set, so does its left-hand side.
pub open spec fn null_closed(rules: Seq<SpecRule>, s: Set<u64>) -> bool {
    forall|r: int|
        0 <= r < rules.len() && rule_nullable_in(#[trigger] rules[r], s) ==> s.contains(
            rules[r].left,
        )
}

/// The nullable-set characterisation: `s` is the least nullable-closed set.
pub open spec fn null_post(rules: Seq<SpecRule>, s: Set<u64>) -> bool {
    &&& null_closed(rules, s)
    &&& forall|s2: Set<u64>| #[trigger] null_closed(rules, s2) ==> s.subset_of(s2)
}

/// The left-hand sides of the rules, as a set.
pub open spec fn lefts(rules: Seq<SpecRule>) -> Set<u64> {
    rules.map_values(|r: SpecRule| r.left).to_set()
}

fn contains_u64(v: &Vec<u64>, x: u64) -> (r: bool)
    ensures
        r == nset(v@).contains(x),
{
    let mut k: usize = 0;
    while k < v.len()
        invariant
            k <= v@.len(),
            forall|p: int| 0 <= p < k ==> v@[p] != x,
        decreases v@.len() - k,
    {
        if v[k] == x {
            proof {
                assert(v@.contains(x));
            }
            return true;
        }
        k = k + 1;
    }
    proof {
        assert(!v@.contains(x));
    }
    false
}

/// True when every right-hand symbol of the rule is a non-terminal already
/// recorded in `set`.
fn rule_all_nullable(right: &Vec<Symbol>, set: &Vec<u64>) -> (r: bool)
    ensures
        r <==> forall|k: int|
            0 <= k < right@.len() ==> sym_nullable_in(#[trigger] right@[k], nset(set@)),
{
    let mut k: usize = 0;
    while k < right.len()
        invariant
            k <= right@.len(),
            forall|p: int| 0 <= p < k ==> sym_nullable_in(#[trigger] right@[p], nset(set@)),
        decreases right@.len() - k,
    {
        match right[k] {
            Symbol::Term(_) => {
                return false;
            },
            Symbol::NonTerm(n) => {
                if !contains_u64(set, n) {
                    return false;
                }
            },
        }
        k = k + 1;
    }
    true
}

/// Computes the set of nullable non-terminals of the grammar: those whose
/// emptiness can be derived, starting from epsilon productions and closing
/// under rules whose whole right-hand side is already nullable. The result is
/// the least such set, in discovery order without duplicates.
pub fn generate_null_set(bnf: &Grammer) -> (r: Vec<u64>)
    ensures
        null_post(bnf@, nset(r@)),
        r@.no_duplicates(),
{
    let ghost rules = bnf@;
    let mut set: Vec<u64> = Vec::new();
    loop
        invariant
            rules == bnf@,
            set@.no_duplicates(),
            nset(set@).subset_of(lefts(rules)),
            set@.len() <= rules.len(),
            forall|s2: Set<u64>| #[trigger] null_closed(rules, s2) ==> nset(set@).subset_of(s2),
        ensures
            set@.no_duplicates(),
            null_closed(rules, nset(set@)),
            forall|s2: Set<u64>| #[trigger] null_closed(rules, s2) ==> nset(set@).subset_of(s2),
        decreases rules.len() - set@.len(),
    {
        let mut grew = false;
        let ghost set0 = set@;
        let mut i: usize = 0;
        while i < bnf.rules.len()
            invariant
                rules == bnf@,
                i <= rules.len(),
                set@.no_duplicates(),
                nset(set@).subset_of(lefts(rules)),
                set@.len() <= rules.len(),
                forall|s2: Set<u64>| #[trigger] null_closed(rules, s2) ==> nset(set@).subset_of(
                    s2,
                ),
                !grew ==> set@ == set0,
                grew ==> set0.len() < set@.len(),
                forall|p: int|
                    0 <= p < i && !grew && rule_nullable_in(#[trigger] rules[p], nset(set@))
                        ==> nset(set@).contains(rules[p].left),
            decreases rules.len() - i,
        {
            let rule = &bnf.rules[i];
            proof {
                assert(rule@ == rules[i as int]);
            }
            let already = contains_u64(&set, rule.left);
            if !already {
                if rule_all_nullable(&rule.right, &set) {
                    proof {
                        assert(rule_nullable_in(rules[i as int], nset(set@)));
                        set@.lemma_push_to_set_commute(rule.left);
                        assert(!set@.contains(rule.left));
                        // the new element stays inside every closed superset
                        assert forall|s2: Set<u64>| #[trigger] null_closed(rules, s2) implies nset(
                            set@.push(rule.left),
                        ).subset_of(s2) by {
                            assert(nset(set@).subset_of(s2));
                            assert(rule_nullable_in(rules[i as int], s2)) by {
                                assert forall|k: int|
                                    0 <= k < rules[i as int].right.len() implies sym_nullable_in(
                                    #[trigger] rules[i as int].right[k],
                                    s2,
                                ) by {
                                    assert(sym_nullable_in(rules[i as int].right[k], nset(set@)));
                                };
                            };
                            assert(s2.contains(rules[i as int].left));
                        };
                        // no duplicates and the universe bound are kept
                        assert(set@.push(rule.left).no_duplicates()) by {
                            assert forall|p: int, q: int|
                                0 <= p < set@.push(rule.left).len() && 0 <= q < set@.push(
                                    rule.left,
                                ).len() && p != q implies set@.push(rule.left)[p] != set@.push(
                                rule.left,
                            )[q] by {
                                if p < set@.len() && q < set@.len() {
                                } else if q == set@.len() {
                                    assert(set@.push(rule.left)[p] == set@[p]);
                                } else {
                                    assert(set@.push(rule.left)[q] == set@[q]);
                                }
                            };
                        };
                        assert(nset(set@.push(rule.left)).subset_of(lefts(rules))) by {
                            assert(rules.map_values(|r: SpecRule| r.left)[i as int]
                                == rules[i as int].left);
                            assert(rules.map_values(|r: SpecRule| r.left).contains(
                                rules[i as int].left,
                            ));
                            assert(lefts(rules).contains(rules[i as int].left));
                        };
                        rules.map_values(|r: SpecRule| r.left).lemma_cardinality_of_set();
                        lemma_distinct_in_universe_len(
                            set@.push(rule.left),
                            lefts(rules),
                            rules.len(),
                        );
                    }
                    set.push(rule.left);
                    grew = true;
                }
            }
            proof {
                if !grew {
                    if rule_nullable_in(rules[i as int], nset(set@)) {
                        assert(nset(set@).contains(rules[i as int].left));
                    }
                }
            }
            i = i + 1;
        }
        if !grew {
            proof {
                assert(null_closed(rules, nset(set@)));
            }
            break ;
        }
    }
    set
}

} // verus!
