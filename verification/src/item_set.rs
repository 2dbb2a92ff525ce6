//! The LR(0) item algebra and the canonical automaton.
//!
//! An item is a production rule with a marked position (the "dot") that
//! records how many right-hand symbols have been matched. Item sets are kept
//! as duplicate-free vectors; their mathematical image is a `Set` of
//! [`SpecItem`] values, and the closure and goto operations are specified as
//! least fixed points over those sets.

use vstd::prelude::*;

use crate::bnf::{Grammer, SpecRule, Symbol};

verus! {

/// An LR(0) item: rule `left -> right` with the dot before `right[dot_pos]`.
#[derive(Debug)]
pub struct LR0Item {
    pub left: u64,
    pub right: Vec<Symbol>,
    pub dot_pos: usize,
}

/// The mathematical image of an LR(0) item.
#[verifier::ext_equal]
pub struct SpecItem {
    pub left: u64,
    pub right: Seq<Symbol>,
    pub dot_pos: nat,
}

impl View for LR0Item {
    type V = SpecItem;

    open spec fn view(&self) -> SpecItem {
        SpecItem { left: self.left, right: self.right@, dot_pos: self.dot_pos as nat }
    }
}

impl PartialEq for LR0Item {
    fn eq(&self, other: &Self) -> (r: bool) {
        if self.left != other.left || self.dot_pos != other.dot_pos {
            return false;
        }
        if self.right.len() != other.right.len() {
            return false;
        }
        let mut i: usize = 0;
        while i < self.right.len()
            invariant
                i <= self.right@.len(),
                self.right@.len() == other.right@.len(),
                forall|k: int| 0 <= k < i ==> self.right@[k] == other.right@[k],
            decreases self.right@.len() - i,
        {
            if self.right[i] != other.right[i] {
                return false;
            }
            i = i + 1;
        }
        proof {
            assert(self.right@ =~= other.right@);
        }
        true
    }
}

impl vstd::std_specs::cmp::PartialEqSpecImpl for LR0Item {
    open spec fn obeys_eq_spec() -> bool {
        true
    }

    open spec fn eq_spec(&self, other: &Self) -> bool {
        self@ == other@
    }
}

impl Clone for LR0Item {
    fn clone(&self) -> (r: Self)
        ensures
            r@ == self@,
    {
        LR0Item { left: self.left, right: clone_symbols(&self.right), dot_pos: self.dot_pos }
    }
}

/// Copies a symbol string; symbols are plain copyable values.
fn clone_symbols(v: &Vec<Symbol>) -> (r: Vec<Symbol>)
    ensures
        r@ == v@,
{
    let mut r: Vec<Symbol> = Vec::new();
    let mut i: usize = 0;
    while i < v.len()
        invariant
            i <= v@.len(),
            r@ == v@.take(i as int),
        decreases v@.len() - i,
    {
        let s = v[i];
        r.push(s);
        proof {
            assert(v@.take(i + 1) =~= v@.take(i as int).push(v@[i as int]));
        }
        i = i + 1;
    }
    proof {
        assert(v@.take(v@.len() as int) =~= v@);
    }
    r
}

/// A named wrapper for a closure-complete item set.
#[derive(Debug)]
pub struct ItemClosure0(pub Vec<LR0Item>);

/// The image of an item vector: the sequence of item values.
pub open spec fn views(s: Seq<LR0Item>) -> Seq<SpecItem> {
    s.map_values(|it: LR0Item| it@)
}

/// The image of an item vector as a set, forgetting order.
pub open spec fn iset(s: Seq<LR0Item>) -> Set<SpecItem> {
    views(s).to_set()
}

/// True when the dot has reached the end of the right-hand side, so the item
/// is a candidate reduction.
pub open spec fn item_complete(it: SpecItem) -> bool {
    it.dot_pos == it.right.len()
}

/// True when `s` is the symbol immediately after the dot.
pub open spec fn expects(it: SpecItem, s: Symbol) -> bool {
    it.dot_pos < it.right.len() && it.right[it.dot_pos as int] == s
}

/// The same item with the dot advanced across one matched symbol.
pub open spec fn advance(it: SpecItem) -> SpecItem {
    SpecItem { left: it.left, right: it.right, dot_pos: (it.dot_pos + 1) as nat }
}

/// All items of one rule, one per dot position.
pub open spec fn rule_items(r: SpecRule) -> Seq<SpecItem> {
    Seq::new(r.right.len() + 1, |d: int| SpecItem { left: r.left, right: r.right, dot_pos: d as nat })
}

/// All items of a grammar, rule by rule in rule order.
pub open spec fn all_items_seq(g: Seq<SpecRule>) -> Seq<SpecItem>
    decreases g.len(),
{
    if g.len() == 0 {
        Seq::empty()
    } else {
        all_items_seq(g.drop_last()) + rule_items(g.last())
    }
}

/// Mapping an item vector to its item values distributes over push.
pub proof fn lemma_views_push(s: Seq<LR0Item>, x: LR0Item)
    ensures
        views(s.push(x)) == views(s).push(x@),
{
    assert(views(s.push(x)) =~= views(s).push(x@));
}

/// Produces one item per rule and dot position: for every rule
/// `A -> alpha`, the items `A -> . alpha` through `A -> alpha .`.
pub fn generate_lr0_item_set(grammer: &Grammer) -> (r: Vec<LR0Item>)
    ensures
        views(r@) == all_items_seq(grammer@),
{
    let mut set: Vec<LR0Item> = Vec::new();
    let mut i: usize = 0;
    while i < grammer.rules.len()
        invariant
            i <= grammer.rules@.len(),
            views(set@) == all_items_seq(grammer@.take(i as int)),
        decreases grammer.rules@.len() - i,
    {
        let rule = &grammer.rules[i];
        let ghost sr = grammer@[i as int];
        proof {
            assert(sr == rule@);
        }
        let n = rule.right.len();
        let mut d: usize = 0;
        while d < n
            invariant
                d <= n,
                n == sr.right.len(),
                rule@ == sr,
                views(set@) == all_items_seq(grammer@.take(i as int)) + rule_items(sr).take(d as int),
            decreases n - d,
        {
            let item = LR0Item { left: rule.left, right: clone_symbols(&rule.right), dot_pos: d };
            proof {
                assert(item@ == rule_items(sr)[d as int]);
                lemma_views_push(set@, item);
                assert(rule_items(sr).take(d + 1) =~= rule_items(sr).take(d as int).push(
                    rule_items(sr)[d as int],
                ));
            }
            set.push(item);
            d = d + 1;
        }
        let last = LR0Item { left: rule.left, right: clone_symbols(&rule.right), dot_pos: n };
        proof {
            assert(last@ == rule_items(sr)[n as int]);
            lemma_views_push(set@, last);
            assert(rule_items(sr).take(n as int).push(rule_items(sr)[n as int]) =~= rule_items(sr));
            assert(grammer@.take(i + 1).drop_last() =~= grammer@.take(i as int));
            assert(grammer@.take(i + 1).last() == sr);
        }
        set.push(last);
        i = i + 1;
    }
    proof {
        assert(grammer@.take(grammer@.len() as int) =~= grammer@);
    }
    set
}

/// The introductory items of an item universe: those with the dot at the
/// start of the right-hand side.
pub open spec fn intro_of(all: Set<SpecItem>) -> Set<SpecItem> {
    Set::new(|j: SpecItem| all.contains(j) && j.dot_pos == 0)
}

/// An item set is closed under non-terminal expectation: whenever an item of
/// `s` has non-terminal `X` right after its dot, every introductory item of
/// `X` found in the universe `all` is in `s` as well.
pub open spec fn is_closed(all: Set<SpecItem>, s: Set<SpecItem>) -> bool {
    forall|it: SpecItem, j: SpecItem|
        #![trigger s.contains(it), all.contains(j)]
        s.contains(it) && all.contains(j) && j.dot_pos == 0 && expects(
            it,
            Symbol::NonTerm(j.left),
        ) ==> s.contains(j)
}

/// The closure characterisation: `r` is the least superset of `seed` that is
/// closed under non-terminal expectation over the universe `all`, and it adds
/// only introductory items of the universe.
pub open spec fn closure_post(all: Set<SpecItem>, seed: Set<SpecItem>, r: Set<SpecItem>) -> bool {
    &&& seed.subset_of(r)
    &&& r.subset_of(seed.union(intro_of(all)))
    &&& is_closed(all, r)
    &&& forall|other: Set<SpecItem>|
        #![trigger is_closed(all, other)]
        seed.subset_of(other) && is_closed(all, other) ==> r.subset_of(other)
}

/// Closure is uniquely determined: any two sets satisfying the closure
/// characterisation for the same universe and seed are equal.
pub proof fn lemma_closure_unique(
    all: Set<SpecItem>,
    seed: Set<SpecItem>,
    r1: Set<SpecItem>,
    r2: Set<SpecItem>,
)
    requires
        closure_post(all, seed, r1),
        closure_post(all, seed, r2),
    ensures
        r1 == r2,
{
    assert(r1.subset_of(r2));
    assert(r2.subset_of(r1));
    assert(r1 =~= r2);
}

/// Closure is idempotent: the closure of a closure result is that result
/// itself.
pub proof fn lemma_closure_idempotent(
    all: Set<SpecItem>,
    seed: Set<SpecItem>,
    r1: Set<SpecItem>,
    r2: Set<SpecItem>,
)
    requires
        closure_post(all, seed, r1),
        closure_post(all, r1, r2),
    ensures
        r2 == r1,
{
    assert(r1.subset_of(r1));
    assert(r2.subset_of(r1));
    assert(r1.subset_of(r2));
    assert(r2 =~= r1);
}

/// Scans an item vector for an item with the given value.
pub fn contains_item(v: &[LR0Item], x: &LR0Item) -> (r: bool)
    ensures
        r == iset(v@).contains(x@),
{
    let mut j: usize = 0;
    while j < v.len()
        invariant
            j <= v@.len(),
            forall|m: int| 0 <= m < j ==> views(v@)[m] != x@,
        decreases v@.len() - j,
    {
        if v[j] == *x {
            proof {
                assert(views(v@)[j as int] == x@);
                assert(views(v@).contains(x@));
            }
            return true;
        }
        j = j + 1;
    }
    proof {
        assert(forall|m: int| 0 <= m < views(v@).len() ==> views(v@)[m] != x@);
        assert(!views(v@).contains(x@));
    }
    false
}

proof fn lemma_iset_push(s: Seq<LR0Item>, x: LR0Item)
    ensures
        iset(s.push(x)) == iset(s).insert(x@),
{
    lemma_views_push(s, x);
    views(s).lemma_push_to_set_commute(x@);
    assert(iset(s.push(x)) =~= iset(s).insert(x@));
}

proof fn lemma_iset_card(s: Seq<LR0Item>)
    ensures
        iset(s).finite(),
        iset(s).len() <= s.len(),
{
    broadcast use vstd::seq_lib::seq_to_set_is_finite;

    views(s).lemma_cardinality_of_set();
}

proof fn lemma_push_new_no_dup(s: Seq<SpecItem>, x: SpecItem)
    requires
        s.no_duplicates(),
        !s.to_set().contains(x),
    ensures
        s.push(x).no_duplicates(),
{
    assert(!s.contains(x));
    assert forall|p: int, q: int|
        0 <= p < s.push(x).len() && 0 <= q < s.push(x).len() && p != q implies s.push(x)[p]
        != s.push(x)[q] by {
        if p < s.len() && q < s.len() {
        } else if q == s.len() {
            assert(s.push(x)[p] == s[p]);
        } else {
            assert(s.push(x)[q] == s[q]);
        }
    }
}

pub proof fn lemma_distinct_in_universe_len<A>(s: Seq<A>, u: Set<A>, n: nat)
    requires
        s.no_duplicates(),
        s.to_set().subset_of(u),
        u.finite(),
        u.len() <= n,
    ensures
        s.len() <= n,
{
    s.unique_seq_to_set();
    broadcast use vstd::seq_lib::seq_to_set_is_finite;

    vstd::set_lib::lemma_len_subset(s.to_set(), u);
}

/// Computes the closure of the seed items `i` over the item universe
/// `lr0_items`: items are added for every non-terminal expected right after a
/// dot, until a fixed point is reached. The result is the least closed
/// superset of the seed, duplicate-free.
pub fn generate_lr0_item_closure(lr0_items: &[LR0Item], i: &[LR0Item]) -> (r: Vec<LR0Item>)
    requires
        i@.len() + lr0_items@.len() <= usize::MAX,
    ensures
        closure_post(iset(lr0_items@), iset(i@), iset(r@)),
        views(r@).no_duplicates(),
{
    let ghost all = iset(lr0_items@);
    let ghost seed = iset(i@);
    let ghost u = seed.union(all);
    proof {
        lemma_iset_card(lr0_items@);
        lemma_iset_card(i@);
        vstd::set_lib::lemma_len_union(seed, all);
    }
    let mut out: Vec<LR0Item> = Vec::new();
    let mut k: usize = 0;
    while k < i.len()
        invariant
            k <= i@.len(),
            views(out@).no_duplicates(),
            iset(out@) == iset(i@.take(k as int)),
            out@.len() <= k,
        decreases i@.len() - k,
    {
        if !contains_item(out.as_slice(), &i[k]) {
            let it = i[k].clone();
            proof {
                lemma_views_push(out@, it);
                lemma_push_new_no_dup(views(out@), it@);
                lemma_iset_push(out@, it);
            }
            out.push(it);
        }
        proof {
            assert(views(i@.take(k + 1)) =~= views(i@.take(k as int)).push(i@[k as int]@));
            views(i@.take(k as int)).lemma_push_to_set_commute(i@[k as int]@);
            assert(iset(out@) =~= iset(i@.take(k + 1)));
        }
        k = k + 1;
    }
    proof {
        assert(i@.take(i@.len() as int) =~= i@);
        assert(iset(out@) == seed);
        lemma_distinct_in_universe_len(views(out@), u, (i@.len() + lr0_items@.len()) as nat);
    }
    let mut k: usize = 0;
    while k < out.len()
        invariant
            all == iset(lr0_items@),
            seed == iset(i@),
            u == seed.union(all),
            u.finite(),
            u.len() <= i@.len() + lr0_items@.len(),
            i@.len() + lr0_items@.len() <= usize::MAX,
            k <= out@.len(),
            out@.len() <= i@.len() + lr0_items@.len(),
            views(out@).no_duplicates(),
            seed.subset_of(iset(out@)),
            iset(out@).subset_of(seed.union(intro_of(all))),
            forall|other: Set<SpecItem>|
                #![trigger is_closed(all, other)]
                seed.subset_of(other) && is_closed(all, other) ==> iset(out@).subset_of(other),
            forall|m: int, j: SpecItem|
                #![trigger views(out@)[m], all.contains(j)]
                0 <= m < k && all.contains(j) && j.dot_pos == 0 && expects(
                    views(out@)[m],
                    Symbol::NonTerm(j.left),
                ) ==> iset(out@).contains(j),
        decreases i@.len() + lr0_items@.len() - k,
    {
        if out[k].dot_pos < out[k].right.len() {
            let s = out[k].right[out[k].dot_pos];
            if let Symbol::NonTerm(x) = s {
                proof {
                    assert(expects(views(out@)[k as int], Symbol::NonTerm(x)));
                }
                let mut j: usize = 0;
                while j < lr0_items.len()
                    invariant
                        all == iset(lr0_items@),
                        seed == iset(i@),
                        u == seed.union(all),
                        u.finite(),
                        u.len() <= i@.len() + lr0_items@.len(),
                        i@.len() + lr0_items@.len() <= usize::MAX,
                        j <= lr0_items@.len(),
                        k < out@.len(),
                        out@.len() <= i@.len() + lr0_items@.len(),
                        views(out@).no_duplicates(),
                        seed.subset_of(iset(out@)),
                        iset(out@).subset_of(seed.union(intro_of(all))),
                        forall|other: Set<SpecItem>|
                            #![trigger is_closed(all, other)]
                            seed.subset_of(other) && is_closed(all, other) ==> iset(
                                out@,
                            ).subset_of(other),
                        forall|m: int, jj: SpecItem|
                            #![trigger views(out@)[m], all.contains(jj)]
                            0 <= m < k && all.contains(jj) && jj.dot_pos == 0 && expects(
                                views(out@)[m],
                                Symbol::NonTerm(jj.left),
                            ) ==> iset(out@).contains(jj),
                        expects(views(out@)[k as int], Symbol::NonTerm(x)),
                        forall|m: int|
                            #![trigger lr0_items@[m]]
                            0 <= m < j && lr0_items@[m]@.dot_pos == 0 && lr0_items@[m]@.left == x
                                ==> iset(out@).contains(lr0_items@[m]@),
                    decreases lr0_items@.len() - j,
                {
                    if lr0_items[j].dot_pos == 0 && lr0_items[j].left == x {
                        if !contains_item(out.as_slice(), &lr0_items[j]) {
                            let it = lr0_items[j].clone();
                            let ghost itv = it@;
                            proof {
                                assert(views(lr0_items@)[j as int] == itv);
                                assert(views(lr0_items@).contains(itv));
                                assert(all.contains(itv));
                                assert(intro_of(all).contains(itv));
                                lemma_views_push(out@, it);
                                lemma_push_new_no_dup(views(out@), itv);
                                lemma_iset_push(out@, it);
                                views(out@).lemma_push_to_set_commute(itv);
                                assert(u.contains(itv));
                                assert(views(out@).push(itv).to_set().subset_of(u));
                                lemma_distinct_in_universe_len(
                                    views(out@).push(itv),
                                    u,
                                    (i@.len() + lr0_items@.len()) as nat,
                                );
                                // The new item stays inside every closed superset of
                                // the seed: the expecting item is already there, and
                                // closedness then admits its introductory items.
                                assert forall|other: Set<SpecItem>|
                                    seed.subset_of(other) && is_closed(all, other) implies iset(
                                    out@,
                                ).insert(itv).subset_of(other) by {
                                    assert(iset(out@).subset_of(other));
                                    assert(other.contains(views(out@)[k as int]));
                                    assert(other.contains(itv));
                                };
                            }
                            out.push(it);
                        }
                    }
                    j = j + 1;
                }
                proof {
                    // Every introductory item of `x` from the universe is now in:
                    // the scan above visited each position of `lr0_items`.
                    assert forall|jj: SpecItem|
                        all.contains(jj) && jj.dot_pos == 0 && jj.left == x implies iset(
                        out@,
                    ).contains(jj) by {
                        assert(views(lr0_items@).contains(jj));
                        let m = choose|m: int|
                            0 <= m < views(lr0_items@).len() && views(lr0_items@)[m] == jj;
                        assert(lr0_items@[m]@ == jj);
                    };
                }
            }
        }
        k = k + 1;
    }
    proof {
        assert(is_closed(all, iset(out@))) by {
            assert forall|it: SpecItem, j: SpecItem|
                iset(out@).contains(it) && all.contains(j) && j.dot_pos == 0 && expects(
                    it,
                    Symbol::NonTerm(j.left),
                ) implies iset(out@).contains(j) by {
                assert(views(out@).contains(it));
                let m = choose|m: int| 0 <= m < views(out@).len() && views(out@)[m] == it;
                assert(views(out@)[m] == it);
            };
        };
    }
    out
}

/// The full item universe of a grammar, as a set.
pub open spec fn all_items_set(g: Seq<SpecRule>) -> Set<SpecItem> {
    all_items_seq(g).to_set()
}

/// The items of `st` that expect `sym`, with the dot advanced across it.
pub open spec fn advanced_of(st: Set<SpecItem>, sym: Symbol) -> Set<SpecItem> {
    Set::new(
        |j: SpecItem|
            exists|it: SpecItem| st.contains(it) && expects(it, sym) && j == advance(it),
    )
}

/// The goto characterisation: `r` is the closure of the items of `st` that
/// expect `sym`, advanced across it. An empty `r` signals "no transition".
pub open spec fn goto_post(
    all: Set<SpecItem>,
    st: Set<SpecItem>,
    sym: Symbol,
    r: Set<SpecItem>,
) -> bool {
    closure_post(all, advanced_of(st, sym), r)
}

/// Goto is deterministic: for a fixed item universe, source item set, and
/// symbol, any two results of the goto characterisation are equal as item
/// sets, independent of any traversal or ordering choices.
pub proof fn lemma_goto_deterministic(
    all: Set<SpecItem>,
    st: Set<SpecItem>,
    sym: Symbol,
    r1: Set<SpecItem>,
    r2: Set<SpecItem>,
)
    requires
        goto_post(all, st, sym, r1),
        goto_post(all, st, sym, r2),
    ensures
        r1 == r2,
{
    lemma_closure_unique(all, advanced_of(st, sym), r1, r2);
}

/// Computes the goto set of `lr0_set` on `symbol`: every item expecting
/// `symbol` is advanced across it, and the closure of those advanced items is
/// returned. The empty vector signals that no item expects `symbol`.
pub fn generate_goto_set(grammer: &Grammer, lr0_set: &[LR0Item], symbol: &Symbol) -> (r: Vec<
    LR0Item,
>)
    requires
        lr0_set@.len() + all_items_seq(grammer@).len() <= usize::MAX,
    ensures
        goto_post(all_items_set(grammer@), iset(lr0_set@), *symbol, iset(r@)),
        views(r@).no_duplicates(),
{
    let full_set = generate_lr0_item_set(grammer);
    let ghost st = iset(lr0_set@);
    let mut advanced: Vec<LR0Item> = Vec::new();
    let mut k: usize = 0;
    while k < lr0_set.len()
        invariant
            st == iset(lr0_set@),
            k <= lr0_set@.len(),
            advanced@.len() <= k,
            views(advanced@).no_duplicates(),
            iset(advanced@).subset_of(advanced_of(st, *symbol)),
            forall|m: int|
                #![trigger lr0_set@[m]]
                0 <= m < k && expects(lr0_set@[m]@, *symbol) ==> iset(advanced@).contains(
                    advance(lr0_set@[m]@),
                ),
        decreases lr0_set@.len() - k,
    {
        if test_symbol_after_dot(&lr0_set[k], symbol) {
            let n = lr0_set[k].right.len();
            proof {
                assert(lr0_set@[k as int]@.dot_pos < n);
            }
            let it = LR0Item {
                left: lr0_set[k].left,
                right: clone_symbols(&lr0_set[k].right),
                dot_pos: lr0_set[k].dot_pos + 1,
            };
            proof {
                assert(views(lr0_set@)[k as int] == lr0_set@[k as int]@);
                assert(views(lr0_set@).contains(lr0_set@[k as int]@));
                assert(st.contains(lr0_set@[k as int]@));
                assert(it@ == advance(lr0_set@[k as int]@));
                assert(advanced_of(st, *symbol).contains(it@));
            }
            if !contains_item(advanced.as_slice(), &it) {
                proof {
                    lemma_views_push(advanced@, it);
                    lemma_push_new_no_dup(views(advanced@), it@);
                    lemma_iset_push(advanced@, it);
                }
                advanced.push(it);
            }
        }
        k = k + 1;
    }
    proof {
        assert(iset(advanced@) =~= advanced_of(st, *symbol)) by {
            assert forall|j: SpecItem| advanced_of(st, *symbol).contains(j) implies iset(
                advanced@,
            ).contains(j) by {
                let it = choose|it: SpecItem|
                    st.contains(it) && expects(it, *symbol) && j == advance(it);
                assert(views(lr0_set@).contains(it));
                let m = choose|m: int|
                    0 <= m < views(lr0_set@).len() && views(lr0_set@)[m] == it;
                assert(lr0_set@[m]@ == it);
            };
        };
    }
    generate_lr0_item_closure(full_set.as_slice(), advanced.as_slice())
}

/// True when the symbol immediately after the item's dot is `symbol`.
pub fn test_symbol_after_dot(item: &LR0Item, symbol: &Symbol) -> (r: bool)
    ensures
        r == expects(item@, *symbol),
{
    if item.dot_pos < item.right.len() {
        let s = item.right[item.dot_pos];
        s == *symbol
    } else {
        false
    }
}

/// Two to the power `n`, the bound on families of distinct item sets.
pub open spec fn two_to(n: nat) -> nat
    decreases n,
{
    if n == 0 {
        1nat
    } else {
        2 * two_to((n - 1) as nat)
    }
}

/// A family of pairwise-distinct subsets of a finite universe `u` has at most
/// `2 ^ |u|` members.
proof fn lemma_distinct_subsets_bound<A>(fam: Set<Set<A>>, u: Set<A>)
    requires
        u.finite(),
        fam.finite(),
        forall|s: Set<A>| #[trigger] fam.contains(s) ==> s.subset_of(u),
    ensures
        fam.len() <= two_to(u.len()),
    decreases u.len(),
{
    if u.len() == 0 {
        u.lemma_len0_is_empty();
        let e = Set::<A>::empty();
        assert forall|s: Set<A>| fam.contains(s) implies s == e by {
            assert(s =~= e);
        };
        assert(fam.subset_of(Set::<Set<A>>::empty().insert(e)));
        vstd::set_lib::lemma_len_subset(fam, Set::<Set<A>>::empty().insert(e));
    } else {
        if !(exists|a: A| u.contains(a)) {
            assert(u =~= Set::empty());
        }
        let x = choose|a: A| u.contains(a);
        let u2 = u.remove(x);
        let f0 = |s: Set<A>| !s.contains(x);
        let f1 = |s: Set<A>| s.contains(x);
        let fam0 = fam.filter(f0);
        let fam1 = fam.filter(f1);
        fam.lemma_len_filter(f0);
        fam.lemma_len_filter(f1);
        assert(fam =~= fam0.union(fam1));
        vstd::set_lib::lemma_len_union(fam0, fam1);
        assert forall|s: Set<A>| #[trigger] fam0.contains(s) implies s.subset_of(u2) by {
            assert(fam.contains(s));
            assert forall|a: A| s.contains(a) implies u2.contains(a) by {
                assert(u.contains(a));
                assert(a != x);
            };
        };
        lemma_distinct_subsets_bound(fam0, u2);
        let g = |s: Set<A>| s.remove(x);
        let fam1r = fam1.map(g);
        assert(vstd::relations::injective_on(g, fam1)) by {
            assert forall|s1: Set<A>, s2: Set<A>|
                fam1.contains(s1) && fam1.contains(s2) && #[trigger] g(s1) == #[trigger] g(
                    s2,
                ) implies s1 == s2 by {
                assert(s1.contains(x) && s2.contains(x));
                assert forall|a: A| s1.contains(a) implies s2.contains(a) by {
                    if a != x {
                        assert(s1.remove(x).contains(a));
                    }
                };
                assert forall|a: A| s2.contains(a) implies s1.contains(a) by {
                    if a != x {
                        assert(s2.remove(x).contains(a));
                    }
                };
                assert(s1 =~= s2);
            };
        };
        vstd::set_lib::lemma_map_size(fam1, fam1r, g);
        assert forall|s: Set<A>| #[trigger] fam1r.contains(s) implies s.subset_of(u2) by {
            let o = choose|o: Set<A>| fam1.contains(o) && g(o) == s;
            assert(fam.contains(o));
            assert forall|a: A| s.contains(a) implies u2.contains(a) by {
                assert(o.remove(x).contains(a));
                assert(o.contains(a));
                assert(u.contains(a));
            };
        };
        lemma_distinct_subsets_bound(fam1r, u2);
        assert(u2.len() == u.len() - 1);
        assert(two_to(u.len()) == 2 * two_to(u2.len()));
    }
}

/// Membership in the item universe of a grammar: exactly the items of some
/// rule, at some dot position within that rule.
pub proof fn lemma_all_items_membership(g: Seq<SpecRule>)
    ensures
        forall|it: SpecItem|
            #[trigger] all_items_set(g).contains(it) <==> exists|r: int|
                0 <= r < g.len() && g[r].left == it.left && g[r].right == it.right && it.dot_pos
                    <= g[r].right.len(),
    decreases g.len(),
{
    if g.len() == 0 {
        assert forall|it: SpecItem| #[trigger] all_items_set(g).contains(it) implies false by {
            assert(all_items_seq(g).contains(it));
        };
    } else {
        lemma_all_items_membership(g.drop_last());
        assert forall|it: SpecItem| #[trigger] all_items_set(g).contains(it) implies exists|r: int|
            0 <= r < g.len() && g[r].left == it.left && g[r].right == it.right && it.dot_pos
                <= g[r].right.len() by {
            assert(all_items_seq(g).contains(it));
            let m = choose|m: int| 0 <= m < all_items_seq(g).len() && all_items_seq(g)[m] == it;
            let pre = all_items_seq(g.drop_last());
            if m < pre.len() {
                assert(pre.contains(it));
                assert(all_items_set(g.drop_last()).contains(it));
                let r = choose|r: int|
                    0 <= r < g.drop_last().len() && g.drop_last()[r].left == it.left
                        && g.drop_last()[r].right == it.right && it.dot_pos <= g.drop_last()[r].right.len();
                assert(g[r] == g.drop_last()[r]);
            } else {
                assert(rule_items(g.last())[m - pre.len()] == it);
                assert(g[g.len() - 1] == g.last());
            }
        };
        assert forall|it: SpecItem|
            (exists|r: int|
                0 <= r < g.len() && g[r].left == it.left && g[r].right == it.right && it.dot_pos
                    <= g[r].right.len()) implies #[trigger] all_items_set(g).contains(it) by {
            let r = choose|r: int|
                0 <= r < g.len() && g[r].left == it.left && g[r].right == it.right && it.dot_pos
                    <= g[r].right.len();
            if r < g.len() - 1 {
                assert(g.drop_last()[r] == g[r]);
                assert(all_items_set(g.drop_last()).contains(it));
                assert(all_items_seq(g.drop_last()).contains(it));
                let m = choose|m: int|
                    0 <= m < all_items_seq(g.drop_last()).len() && all_items_seq(g.drop_last())[m]
                        == it;
                assert(all_items_seq(g)[m] == it);
                assert(all_items_seq(g).contains(it));
            } else {
                assert(g.last() == g[r]);
                assert(rule_items(g.last())[it.dot_pos as int] == it);
                let m = all_items_seq(g.drop_last()).len() + it.dot_pos;
                assert(all_items_seq(g)[m as int] == it);
                assert(all_items_seq(g).contains(it));
            }
        };
    }
}

/// The item universe is closed under advancing the dot: every incomplete item
/// of the universe has its advanced form in the universe.
pub proof fn lemma_all_items_advance(g: Seq<SpecRule>)
    ensures
        forall|it: SpecItem|
            #[trigger] all_items_set(g).contains(it) && it.dot_pos < it.right.len()
                ==> all_items_set(g).contains(advance(it)),
{
    lemma_all_items_membership(g);
    assert forall|it: SpecItem|
        #[trigger] all_items_set(g).contains(it) && it.dot_pos < it.right.len() implies all_items_set(
        g,
    ).contains(advance(it)) by {
        let r = choose|r: int|
            0 <= r < g.len() && g[r].left == it.left && g[r].right == it.right && it.dot_pos
                <= g[r].right.len();
        assert(g[r].left == advance(it).left && g[r].right == advance(it).right && advance(
            it,
        ).dot_pos <= g[r].right.len());
    };
}

/// Copies an item vector, value for value.
fn clone_state(v: &Vec<LR0Item>) -> (r: Vec<LR0Item>)
    ensures
        views(r@) == views(v@),
{
    let mut r: Vec<LR0Item> = Vec::new();
    let mut i: usize = 0;
    while i < v.len()
        invariant
            i <= v@.len(),
            views(r@) == views(v@).take(i as int),
        decreases v@.len() - i,
    {
        let it = v[i].clone();
        proof {
            lemma_views_push(r@, it);
            assert(views(v@).take(i + 1) =~= views(v@).take(i as int).push(views(v@)[i as int]));
        }
        r.push(it);
        i = i + 1;
    }
    proof {
        assert(views(v@).take(v@.len() as int) =~= views(v@));
    }
    r
}

/// True when every item of `a` also occurs in `b`.
fn items_subset(a: &[LR0Item], b: &[LR0Item]) -> (r: bool)
    ensures
        r == iset(a@).subset_of(iset(b@)),
{
    let mut k: usize = 0;
    while k < a.len()
        invariant
            k <= a@.len(),
            forall|m: int| 0 <= m < k ==> iset(b@).contains(views(a@)[m]),
        decreases a@.len() - k,
    {
        if !contains_item(b, &a[k]) {
            proof {
                assert(views(a@)[k as int] == a@[k as int]@);
                assert(views(a@).contains(a@[k as int]@));
                assert(iset(a@).contains(a@[k as int]@));
            }
            return false;
        }
        k = k + 1;
    }
    proof {
        assert forall|it: SpecItem| iset(a@).contains(it) implies iset(b@).contains(it) by {
            assert(views(a@).contains(it));
            let m = choose|m: int| 0 <= m < views(a@).len() && views(a@)[m] == it;
        };
    }
    true
}

/// True when `a` and `b` hold the same items, in whatever order.
pub fn item_set_eq(a: &[LR0Item], b: &[LR0Item]) -> (r: bool)
    ensures
        r == (iset(a@) == iset(b@)),
{
    let fwd = items_subset(a, b);
    let bwd = items_subset(b, a);
    proof {
        if fwd && bwd {
            assert(iset(a@) =~= iset(b@));
        }
    }
    fwd && bwd
}

/// The images of a list of item vectors, each as an item set.
pub open spec fn set_seq(s: Seq<Vec<LR0Item>>) -> Seq<Set<SpecItem>> {
    s.map_values(|v: Vec<LR0Item>| iset(v@))
}

/// The family of item sets held by a list of item vectors.
pub open spec fn states_fam(s: Seq<Vec<LR0Item>>) -> Set<Set<SpecItem>> {
    set_seq(s).to_set()
}

/// Scans a list of states for one holding the same item set as `st`.
fn contains_state(list: &Vec<Vec<LR0Item>>, st: &Vec<LR0Item>) -> (r: bool)
    ensures
        r == states_fam(list@).contains(iset(st@)),
{
    let mut k: usize = 0;
    while k < list.len()
        invariant
            k <= list@.len(),
            forall|m: int| 0 <= m < k ==> set_seq(list@)[m] != iset(st@),
        decreases list@.len() - k,
    {
        if item_set_eq(list[k].as_slice(), st.as_slice()) {
            proof {
                assert(set_seq(list@)[k as int] == iset(st@));
                assert(set_seq(list@).contains(iset(st@)));
            }
            return true;
        }
        k = k + 1;
    }
    proof {
        assert(forall|m: int|
            0 <= m < set_seq(list@).len() ==> set_seq(list@)[m] != iset(st@));
        assert(!set_seq(list@).contains(iset(st@)));
    }
    false
}

/// One recorded transition: a source state and symbol, and the target state.
pub type DeltaEntry = ((Vec<LR0Item>, Symbol), Vec<LR0Item>);

/// Maps a symbol to a caller-chosen symbol-kind value, for callers that key
/// their own structures by symbol kind.
pub trait IntoSymbolKind<SymbolKind> {
    fn into_symbol_kind(symbol: &Symbol) -> SymbolKind;
}

/// True when some item of `items` has `left` as its left-hand side.
pub open spec fn has_left(items: Seq<SpecItem>, left: u64) -> bool {
    exists|m: int| 0 <= m < items.len() && items[m].left == left
}

/// The first item of `items` whose left-hand side is `left`.
pub open spec fn first_with_left(items: Seq<SpecItem>, left: u64) -> SpecItem
    decreases items.len(),
{
    if items.len() == 0 {
        arbitrary()
    } else if items[0].left == left {
        items[0]
    } else {
        first_with_left(items.drop_first(), left)
    }
}

proof fn lemma_first_with_left_at(items: Seq<SpecItem>, left: u64, k: int)
    requires
        0 <= k < items.len(),
        items[k].left == left,
        forall|p: int| 0 <= p < k ==> items[p].left != left,
    ensures
        first_with_left(items, left) == items[k],
    decreases k,
{
    if k == 0 {
    } else {
        assert(items[0].left != left);
        assert(items.drop_first()[k - 1] == items[k]);
        assert forall|p: int| 0 <= p < k - 1 implies items.drop_first()[p].left != left by {
            assert(items.drop_first()[p] == items[p + 1]);
        };
        lemma_first_with_left_at(items.drop_first(), left, k - 1);
    }
}

/// A family of item sets is goto-closed: every non-empty goto successor, on
/// any alphabet symbol, of a member is itself a member.
pub open spec fn family_goto_closed(
    fam: Set<Set<SpecItem>>,
    all: Set<SpecItem>,
    alphabet: Seq<Symbol>,
) -> bool {
    forall|st: Set<SpecItem>, m: int, r: Set<SpecItem>|
        #![trigger fam.contains(st), goto_post(all, st, alphabet[m], r)]
        fam.contains(st) && 0 <= m < alphabet.len() && goto_post(all, st, alphabet[m], r) && (
        exists|a: SpecItem| r.contains(a)) ==> fam.contains(r)
}

/// A family of item sets that contains the initial state (the closure of the
/// start seed) and is goto-closed over the alphabet.
pub open spec fn good_family(
    all: Set<SpecItem>,
    init_seed: Set<SpecItem>,
    alphabet: Seq<Symbol>,
    fam: Set<Set<SpecItem>>,
) -> bool {
    &&& forall|r0: Set<SpecItem>| #[trigger] closure_post(all, init_seed, r0) ==> fam.contains(r0)
    &&& family_goto_closed(fam, all, alphabet)
}

/// The canonical-collection characterisation: `fam` is the least family of
/// item sets that contains the initial state and is goto-closed.
pub open spec fn canonical_family(
    all: Set<SpecItem>,
    init_seed: Set<SpecItem>,
    alphabet: Seq<Symbol>,
    fam: Set<Set<SpecItem>>,
) -> bool {
    &&& good_family(all, init_seed, alphabet, fam)
    &&& forall|other: Set<Set<SpecItem>>|
        #[trigger] good_family(all, init_seed, alphabet, other) ==> fam.subset_of(other)
}

/// The canonical collection is deterministic: any two families satisfying the
/// canonical characterisation for the same item universe, start seed, and
/// alphabet are equal as families of item sets, whatever the discovery order.
pub proof fn lemma_automaton_deterministic(
    all: Set<SpecItem>,
    init_seed: Set<SpecItem>,
    alphabet: Seq<Symbol>,
    fam1: Set<Set<SpecItem>>,
    fam2: Set<Set<SpecItem>>,
)
    requires
        canonical_family(all, init_seed, alphabet, fam1),
        canonical_family(all, init_seed, alphabet, fam2),
    ensures
        fam1 == fam2,
{
    assert(fam1.subset_of(fam2));
    assert(fam2.subset_of(fam1));
    assert(fam1 =~= fam2);
}

/// The closure value: the unique set satisfying the closure
/// characterisation for the given universe and seed.
pub open spec fn closure_of(all: Set<SpecItem>, seed: Set<SpecItem>) -> Set<SpecItem> {
    choose|r: Set<SpecItem>| closure_post(all, seed, r)
}

/// Any set satisfying the closure characterisation is the closure value.
pub proof fn lemma_closure_of(all: Set<SpecItem>, seed: Set<SpecItem>, r: Set<SpecItem>)
    requires
        closure_post(all, seed, r),
    ensures
        closure_of(all, seed) == r,
{
    assert(exists|x: Set<SpecItem>| closure_post(all, seed, x));
    assert(closure_post(all, seed, closure_of(all, seed)));
    lemma_closure_unique(all, seed, closure_of(all, seed), r);
}

/// The goto value: the unique set satisfying the goto characterisation.
pub open spec fn goto_of(all: Set<SpecItem>, st: Set<SpecItem>, sym: Symbol) -> Set<SpecItem> {
    choose|r: Set<SpecItem>| goto_post(all, st, sym, r)
}

/// Any set satisfying the goto characterisation is the goto value.
pub proof fn lemma_goto_of(all: Set<SpecItem>, st: Set<SpecItem>, sym: Symbol, r: Set<SpecItem>)
    requires
        goto_post(all, st, sym, r),
    ensures
        goto_of(all, st, sym) == r,
{
    assert(exists|x: Set<SpecItem>| goto_post(all, st, sym, x));
    assert(goto_post(all, st, sym, goto_of(all, st, sym)));
    lemma_goto_deterministic(all, st, sym, goto_of(all, st, sym), r);
}

/// The transitions as triples: source item set, symbol, target item set, in
/// recording order.
pub open spec fn delta_triples(d: Seq<DeltaEntry>) -> Seq<(Set<SpecItem>, Symbol, Set<SpecItem>)> {
    d.map_values(|e: DeltaEntry| (iset(e.0.0@), e.0.1, iset(e.1@)))
}

/// One state's pass over the alphabet from position `m`: for every symbol
/// some item of `cur` expects, the goto successor is recorded as a
/// transition and enqueued unless its item set already stands among the
/// finished states, the pending states, or is `cur` itself.
#[verifier::opaque]
pub open spec fn sym_pass(
    all: Set<SpecItem>,
    alphabet: Seq<Symbol>,
    m: int,
    done: Seq<Set<SpecItem>>,
    cur: Set<SpecItem>,
    pending: Seq<Set<SpecItem>>,
    trans: Seq<(Set<SpecItem>, Symbol, Set<SpecItem>)>,
) -> (Seq<Set<SpecItem>>, Seq<(Set<SpecItem>, Symbol, Set<SpecItem>)>)
    decreases alphabet.len() - m,
{
    if m < 0 || m >= alphabet.len() {
        (pending, trans)
    } else if exists|it: SpecItem| cur.contains(it) && expects(it, alphabet[m]) {
        let d = goto_of(all, cur, alphabet[m]);
        let pending2 = if done.contains(d) || pending.contains(d) || d == cur {
            pending
        } else {
            pending.push(d)
        };
        sym_pass(all, alphabet, m + 1, done, cur, pending2, trans.push((cur, alphabet[m], d)))
    } else {
        sym_pass(all, alphabet, m + 1, done, cur, pending, trans)
    }
}

proof fn lemma_sym_pass_skip(
    all: Set<SpecItem>,
    alphabet: Seq<Symbol>,
    m: int,
    done: Seq<Set<SpecItem>>,
    cur: Set<SpecItem>,
    pending: Seq<Set<SpecItem>>,
    trans: Seq<(Set<SpecItem>, Symbol, Set<SpecItem>)>,
)
    requires
        0 <= m < alphabet.len(),
        !(exists|it: SpecItem| cur.contains(it) && expects(it, alphabet[m])),
    ensures
        sym_pass(all, alphabet, m, done, cur, pending, trans) == sym_pass(
            all,
            alphabet,
            m + 1,
            done,
            cur,
            pending,
            trans,
        ),
{
    reveal_with_fuel(sym_pass, 2);
}

proof fn lemma_sym_pass_found(
    all: Set<SpecItem>,
    alphabet: Seq<Symbol>,
    m: int,
    done: Seq<Set<SpecItem>>,
    cur: Set<SpecItem>,
    pending: Seq<Set<SpecItem>>,
    trans: Seq<(Set<SpecItem>, Symbol, Set<SpecItem>)>,
)
    requires
        0 <= m < alphabet.len(),
        exists|it: SpecItem| cur.contains(it) && expects(it, alphabet[m]),
    ensures
        sym_pass(all, alphabet, m, done, cur, pending, trans) == sym_pass(
            all,
            alphabet,
            m + 1,
            done,
            cur,
            (if done.contains(goto_of(all, cur, alphabet[m])) || pending.contains(
                goto_of(all, cur, alphabet[m]),
            ) || goto_of(all, cur, alphabet[m]) == cur {
                pending
            } else {
                pending.push(goto_of(all, cur, alphabet[m]))
            }),
            trans.push((cur, alphabet[m], goto_of(all, cur, alphabet[m]))),
        ),
{
    reveal_with_fuel(sym_pass, 2);
}

/// Carries the symbol-pass bookkeeping across one alphabet position: given
/// that the pass from position `m` on the current accumulators equals the
/// full pass, and the accumulators changed exactly as the model's step at
/// `m` dictates, the pass from `m + 1` on the new accumulators still equals
/// the full pass.
proof fn lemma_sym_pass_advance(
    all: Set<SpecItem>,
    alphabet: Seq<Symbol>,
    m: int,
    done: Seq<Set<SpecItem>>,
    cur: Set<SpecItem>,
    x_pre: Seq<Set<SpecItem>>,
    t_pre: Seq<(Set<SpecItem>, Symbol, Set<SpecItem>)>,
    x_cur: Seq<Set<SpecItem>>,
    t_cur: Seq<(Set<SpecItem>, Symbol, Set<SpecItem>)>,
    x0: Seq<Set<SpecItem>>,
    t0: Seq<(Set<SpecItem>, Symbol, Set<SpecItem>)>,
)
    requires
        0 <= m < alphabet.len(),
        sym_pass(all, alphabet, m, done, cur, x_pre, t_pre) == sym_pass(
            all,
            alphabet,
            0,
            done,
            cur,
            x0,
            t0,
        ),
        (exists|it: SpecItem| cur.contains(it) && expects(it, alphabet[m])) ==> t_cur
            == t_pre.push((cur, alphabet[m], goto_of(all, cur, alphabet[m]))) && x_cur == (
        if done.contains(goto_of(all, cur, alphabet[m])) || x_pre.contains(
            goto_of(all, cur, alphabet[m]),
        ) || goto_of(all, cur, alphabet[m]) == cur {
            x_pre
        } else {
            x_pre.push(goto_of(all, cur, alphabet[m]))
        }),
        !(exists|it: SpecItem| cur.contains(it) && expects(it, alphabet[m])) ==> x_cur == x_pre
            && t_cur == t_pre,
    ensures
        sym_pass(all, alphabet, m + 1, done, cur, x_cur, t_cur) == sym_pass(
            all,
            alphabet,
            0,
            done,
            cur,
            x0,
            t0,
        ),
{
    if exists|it: SpecItem| cur.contains(it) && expects(it, alphabet[m]) {
        lemma_sym_pass_found(all, alphabet, m, done, cur, x_pre, t_pre);
    } else {
        lemma_sym_pass_skip(all, alphabet, m, done, cur, x_pre, t_pre);
    }
}

/// The FIFO worklist run: repeatedly moves the head pending state to the
/// finished list and passes it over the alphabet, for at most `fuel` states.
#[verifier::opaque]
pub open spec fn auto_run(
    all: Set<SpecItem>,
    alphabet: Seq<Symbol>,
    done: Seq<Set<SpecItem>>,
    pending: Seq<Set<SpecItem>>,
    trans: Seq<(Set<SpecItem>, Symbol, Set<SpecItem>)>,
    fuel: nat,
) -> (Seq<Set<SpecItem>>, Seq<(Set<SpecItem>, Symbol, Set<SpecItem>)>)
    decreases fuel,
{
    if pending.len() == 0 || fuel == 0 {
        (done, trans)
    } else {
        let cur = pending[0];
        let pt = sym_pass(all, alphabet, 0, done, cur, pending.drop_first(), trans);
        auto_run(all, alphabet, done.push(cur), pt.0, pt.1, (fuel - 1) as nat)
    }
}

/// The canonical automaton of a grammar, start symbol, and alphabet, as a
/// value: the state item sets in FIFO discovery order, beginning at the
/// closure of the start item, and the transitions in recording order. The
/// fuel covers every family of distinct item sets, so the worklist always
/// drains within it.
#[verifier::opaque]
pub open spec fn canonical_model(g: Seq<SpecRule>, start_symbol: u64, alphabet: Seq<Symbol>) -> (
    Seq<Set<SpecItem>>,
    Seq<(Set<SpecItem>, Symbol, Set<SpecItem>)>,
) {
    let all = all_items_set(g);
    let init = Set::<SpecItem>::empty().insert(first_with_left(all_items_seq(g), start_symbol));
    auto_run(
        all,
        alphabet,
        Seq::empty(),
        Seq::<Set<SpecItem>>::empty().push(closure_of(all, init)),
        Seq::empty(),
        two_to(all.len()),
    )
}

/// One transition record is sound: its source is a discovered state, its
/// symbol is from the alphabet, and its target is the (non-empty) goto set of
/// the source on that symbol, itself a discovered state.
pub open spec fn delta_entry_ok(
    all: Set<SpecItem>,
    alphabet: Seq<Symbol>,
    states: Seq<Vec<LR0Item>>,
    e: DeltaEntry,
) -> bool {
    &&& states_fam(states).contains(iset(e.0.0@))
    &&& alphabet.contains(e.0.1)
    &&& goto_post(all, iset(e.0.0@), e.0.1, iset(e.1@))
    &&& exists|a: SpecItem| iset(e.1@).contains(a)
    &&& states_fam(states).contains(iset(e.1@))
    &&& views(e.1@).no_duplicates()
}

/// The full contract of automaton discovery, for a grammar whose start item
/// exists: the state list starts at the initial state, holds pairwise
/// distinct duplicate-free item sets forming the canonical family, and the
/// transition list records exactly the non-empty goto successors.
pub open spec fn automaton_post(
    g: Seq<SpecRule>,
    start_symbol: u64,
    alphabet: Seq<Symbol>,
    states: Seq<Vec<LR0Item>>,
    delta: Seq<DeltaEntry>,
) -> bool {
    let all = all_items_set(g);
    let init = Set::<SpecItem>::empty().insert(first_with_left(all_items_seq(g), start_symbol));
    &&& states.len() >= 1
    &&& closure_post(all, init, set_seq(states)[0])
    &&& forall|q: int| 0 <= q < states.len() ==> views(#[trigger] states[q]@).no_duplicates()
    &&& forall|p: int, q: int|
        0 <= p < states.len() && 0 <= q < states.len() && p != q ==> set_seq(states)[p]
            != set_seq(states)[q]
    &&& canonical_family(all, init, alphabet, states_fam(states))
    &&& forall|i: int| 0 <= i < delta.len() ==> delta_entry_ok(all, alphabet, states, #[trigger] delta[i])
    &&& forall|q: int, m: int|
        #![trigger set_seq(states)[q], alphabet[m]]
        0 <= q < states.len() && 0 <= m < alphabet.len() && (exists|it: SpecItem|
            set_seq(states)[q].contains(it) && expects(it, alphabet[m])) ==> exists|i: int|
            0 <= i < delta.len() && iset(#[trigger] delta[i].0.0@) == set_seq(states)[q]
                && delta[i].0.1 == alphabet[m]
    &&& set_seq(states) == canonical_model(g, start_symbol, alphabet).0
    &&& delta_triples(delta) == canonical_model(g, start_symbol, alphabet).1
}

/// The automaton is deterministic including its discovery order: any two
/// results satisfying the automaton contract for the same grammar, start
/// symbol, and alphabet list the same state item sets in the same FIFO
/// order — so the later integer state indices agree — and record the same
/// transitions in the same order.
pub proof fn lemma_automaton_order_deterministic(
    g: Seq<SpecRule>,
    start_symbol: u64,
    alphabet: Seq<Symbol>,
    states1: Seq<Vec<LR0Item>>,
    delta1: Seq<DeltaEntry>,
    states2: Seq<Vec<LR0Item>>,
    delta2: Seq<DeltaEntry>,
)
    requires
        automaton_post(g, start_symbol, alphabet, states1, delta1),
        automaton_post(g, start_symbol, alphabet, states2, delta2),
    ensures
        set_seq(states1) == set_seq(states2),
        delta_triples(delta1) == delta_triples(delta2),
{
}

proof fn lemma_set_seq_push(s: Seq<Vec<LR0Item>>, v: Vec<LR0Item>)
    ensures
        set_seq(s.push(v)) == set_seq(s).push(iset(v@)),
{
    assert(set_seq(s.push(v)) =~= set_seq(s).push(iset(v@)));
}

/// A goto successor of a state inside the item universe stays inside it.
proof fn lemma_goto_subset_all(g: Seq<SpecRule>, st: Set<SpecItem>, sym: Symbol, r: Set<SpecItem>)
    requires
        goto_post(all_items_set(g), st, sym, r),
        st.subset_of(all_items_set(g)),
    ensures
        r.subset_of(all_items_set(g)),
{
    lemma_all_items_advance(g);
    assert forall|a: SpecItem| r.contains(a) implies all_items_set(g).contains(a) by {
        if advanced_of(st, sym).contains(a) {
            let it = choose|it: SpecItem| st.contains(it) && expects(it, sym) && a == advance(it);
            assert(all_items_set(g).contains(it));
        } else {
            assert(intro_of(all_items_set(g)).contains(a));
        }
    };
}

/// When no item of the state expects the symbol, the goto set is empty.
proof fn lemma_goto_empty(all: Set<SpecItem>, st: Set<SpecItem>, sym: Symbol, r: Set<SpecItem>)
    requires
        goto_post(all, st, sym, r),
        !(exists|it: SpecItem| st.contains(it) && expects(it, sym)),
    ensures
        !(exists|a: SpecItem| r.contains(a)),
{
    assert forall|j: SpecItem| !(#[trigger] advanced_of(st, sym).contains(j)) by {
        if exists|it: SpecItem| st.contains(it) && expects(it, sym) && j == advance(it) {
            let it = choose|it: SpecItem| st.contains(it) && expects(it, sym) && j == advance(it);
        }
    };
    let e = Set::<SpecItem>::empty();
    assert(advanced_of(st, sym).subset_of(e));
    assert(is_closed(all, e));
    assert(r.subset_of(e));
}

proof fn lemma_states_count(y: Seq<Vec<LR0Item>>, x: Seq<Vec<LR0Item>>, all: Set<SpecItem>)
    requires
        all.finite(),
        forall|q: int| 0 <= q < y.len() ==> (#[trigger] set_seq(y)[q]).subset_of(all),
        forall|q: int| 0 <= q < x.len() ==> (#[trigger] set_seq(x)[q]).subset_of(all),
        forall|p: int, q: int|
            0 <= p < y.len() && 0 <= q < y.len() && p != q ==> set_seq(y)[p] != set_seq(y)[q],
        forall|p: int, q: int|
            0 <= p < x.len() && 0 <= q < x.len() && p != q ==> set_seq(x)[p] != set_seq(x)[q],
        forall|p: int, q: int|
            0 <= p < y.len() && 0 <= q < x.len() ==> set_seq(y)[p] != set_seq(x)[q],
    ensures
        y.len() + x.len() <= two_to(all.len()),
{
    let sq = set_seq(y) + set_seq(x);
    assert forall|p: int, q: int|
        0 <= p < sq.len() && 0 <= q < sq.len() && p != q implies sq[p] != sq[q] by {
        if p < y.len() && q < y.len() {
            assert(sq[p] == set_seq(y)[p] && sq[q] == set_seq(y)[q]);
        } else if p < y.len() {
            assert(sq[p] == set_seq(y)[p] && sq[q] == set_seq(x)[q - y.len()]);
        } else if q < y.len() {
            assert(sq[q] == set_seq(y)[q] && sq[p] == set_seq(x)[p - y.len()]);
        } else {
            assert(sq[p] == set_seq(x)[p - y.len()] && sq[q] == set_seq(x)[q - y.len()]);
        }
    };
    sq.unique_seq_to_set();
    broadcast use vstd::seq_lib::seq_to_set_is_finite;

    assert forall|s: Set<SpecItem>| #[trigger] sq.to_set().contains(s) implies s.subset_of(
        all,
    ) by {
        assert(sq.contains(s));
        let m = choose|m: int| 0 <= m < sq.len() && sq[m] == s;
        if m < y.len() {
            assert(sq[m] == set_seq(y)[m]);
        } else {
            assert(sq[m] == set_seq(x)[m - y.len()]);
        }
    };
    lemma_distinct_subsets_bound(sq.to_set(), all);
}

/// Per-state well-formedness: duplicate-free and inside the item universe.
pub open spec fn state_wf(v: Vec<LR0Item>, all: Set<SpecItem>) -> bool {
    views(v@).no_duplicates() && iset(v@).subset_of(all)
}

/// Every state of the list is well-formed.
pub open spec fn states_wf(s: Seq<Vec<LR0Item>>, all: Set<SpecItem>) -> bool {
    forall|q: int| 0 <= q < s.len() ==> state_wf(#[trigger] s[q], all)
}

/// The listed item sets are pairwise distinct.
pub open spec fn distinct_sets(u: Seq<Set<SpecItem>>) -> bool {
    forall|p: int, q: int| 0 <= p < u.len() && 0 <= q < u.len() && p != q ==> u[p] != u[q]
}

/// No item set occurs in both lists.
pub open spec fn cross_distinct(a: Seq<Set<SpecItem>>, b: Seq<Set<SpecItem>>) -> bool {
    forall|p: int, q: int| 0 <= p < a.len() && 0 <= q < b.len() ==> a[p] != b[q]
}

/// The item set is a member of every good family.
pub open spec fn in_all_good(
    all: Set<SpecItem>,
    init: Set<SpecItem>,
    alphabet: Seq<Symbol>,
    s: Set<SpecItem>,
) -> bool {
    forall|other: Set<Set<SpecItem>>|
        #[trigger] good_family(all, init, alphabet, other) ==> other.contains(s)
}

/// Every listed item set is a member of every good family.
pub open spec fn all_in_good(
    all: Set<SpecItem>,
    init: Set<SpecItem>,
    alphabet: Seq<Symbol>,
    u: Seq<Set<SpecItem>>,
) -> bool {
    forall|q: int| 0 <= q < u.len() ==> in_all_good(all, init, alphabet, #[trigger] u[q])
}

/// One transition record, relative to allowed source and target families.
pub open spec fn delta_entry_inv(
    all: Set<SpecItem>,
    alphabet: Seq<Symbol>,
    e: DeltaEntry,
    srcs: Set<Set<SpecItem>>,
    dsts: Set<Set<SpecItem>>,
) -> bool {
    &&& srcs.contains(iset(e.0.0@))
    &&& alphabet.contains(e.0.1)
    &&& goto_post(all, iset(e.0.0@), e.0.1, iset(e.1@))
    &&& exists|a: SpecItem| iset(e.1@).contains(a)
    &&& dsts.contains(iset(e.1@))
    &&& views(e.1@).no_duplicates()
}

/// Every transition record is sound with respect to the given families.
pub open spec fn delta_inv(
    all: Set<SpecItem>,
    alphabet: Seq<Symbol>,
    delta: Seq<DeltaEntry>,
    srcs: Set<Set<SpecItem>>,
    dsts: Set<Set<SpecItem>>,
) -> bool {
    forall|i: int|
        0 <= i < delta.len() ==> delta_entry_inv(all, alphabet, #[trigger] delta[i], srcs, dsts)
}

/// Every non-empty goto successor of `st` on one of the first `upto`
/// alphabet symbols lies in `fam`.
pub open spec fn goto_closed_upto(
    all: Set<SpecItem>,
    alphabet: Seq<Symbol>,
    st: Set<SpecItem>,
    upto: int,
    fam: Set<Set<SpecItem>>,
) -> bool {
    forall|m: int, rr: Set<SpecItem>|
        #![trigger goto_post(all, st, alphabet[m], rr)]
        0 <= m < upto && goto_post(all, st, alphabet[m], rr) && (exists|a: SpecItem|
            rr.contains(a)) ==> fam.contains(rr)
}

/// Every listed state has all its non-empty goto successors in `fam`.
pub open spec fn states_goto_closed(
    all: Set<SpecItem>,
    alphabet: Seq<Symbol>,
    y: Seq<Vec<LR0Item>>,
    fam: Set<Set<SpecItem>>,
) -> bool {
    forall|q: int|
        0 <= q < y.len() ==> goto_closed_upto(
            all,
            alphabet,
            #[trigger] set_seq(y)[q],
            alphabet.len() as int,
            fam,
        )
}

/// For each of the first `upto` symbols that some item of `st` expects, the
/// transition list holds an entry keyed by `st` and that symbol.
pub open spec fn completeness_upto(
    delta: Seq<DeltaEntry>,
    st: Set<SpecItem>,
    alphabet: Seq<Symbol>,
    upto: int,
) -> bool {
    forall|m: int|
        #![trigger alphabet[m]]
        0 <= m < upto && (exists|it: SpecItem| st.contains(it) && expects(it, alphabet[m]))
            ==> exists|i: int|
            0 <= i < delta.len() && iset((#[trigger] delta[i]).0.0@) == st && delta[i].0.1
                == alphabet[m]
}

/// Every listed state has its expected transitions recorded.
pub open spec fn states_complete(
    delta: Seq<DeltaEntry>,
    y: Seq<Vec<LR0Item>>,
    alphabet: Seq<Symbol>,
) -> bool {
    forall|q: int|
        0 <= q < y.len() ==> completeness_upto(
            delta,
            #[trigger] set_seq(y)[q],
            alphabet,
            alphabet.len() as int,
        )
}

proof fn lemma_delta_inv_widen(
    all: Set<SpecItem>,
    alphabet: Seq<Symbol>,
    delta: Seq<DeltaEntry>,
    srcs1: Set<Set<SpecItem>>,
    dsts1: Set<Set<SpecItem>>,
    srcs2: Set<Set<SpecItem>>,
    dsts2: Set<Set<SpecItem>>,
)
    requires
        delta_inv(all, alphabet, delta, srcs1, dsts1),
        srcs1.subset_of(srcs2),
        dsts1.subset_of(dsts2),
    ensures
        delta_inv(all, alphabet, delta, srcs2, dsts2),
{
    assert forall|i: int| 0 <= i < delta.len() implies delta_entry_inv(
        all,
        alphabet,
        #[trigger] delta[i],
        srcs2,
        dsts2,
    ) by {
        assert(delta_entry_inv(all, alphabet, delta[i], srcs1, dsts1));
    };
}

proof fn lemma_goto_closed_widen(
    all: Set<SpecItem>,
    alphabet: Seq<Symbol>,
    st: Set<SpecItem>,
    upto: int,
    fam1: Set<Set<SpecItem>>,
    fam2: Set<Set<SpecItem>>,
)
    requires
        goto_closed_upto(all, alphabet, st, upto, fam1),
        fam1.subset_of(fam2),
    ensures
        goto_closed_upto(all, alphabet, st, upto, fam2),
{
}

proof fn lemma_completeness_prefix(
    d1: Seq<DeltaEntry>,
    d2: Seq<DeltaEntry>,
    st: Set<SpecItem>,
    alphabet: Seq<Symbol>,
    upto: int,
)
    requires
        completeness_upto(d1, st, alphabet, upto),
        d1.len() <= d2.len(),
        forall|i: int| 0 <= i < d1.len() ==> d2[i] == d1[i],
    ensures
        completeness_upto(d2, st, alphabet, upto),
{
    assert forall|m: int|
        0 <= m < upto && (exists|it: SpecItem|
            st.contains(it) && expects(it, #[trigger] alphabet[m])) implies exists|i: int|
        0 <= i < d2.len() && iset((#[trigger] d2[i]).0.0@) == st && d2[i].0.1 == alphabet[m] by {
        let i = choose|i: int|
            0 <= i < d1.len() && iset((#[trigger] d1[i]).0.0@) == st && d1[i].0.1 == alphabet[m];
        assert(d2[i] == d1[i]);
        assert(iset(d2[i].0.0@) == st && d2[i].0.1 == alphabet[m]);
    };
}

proof fn lemma_fam_index(s: Seq<Vec<LR0Item>>, q: int)
    requires
        0 <= q < s.len(),
    ensures
        states_fam(s).contains(set_seq(s)[q]),
{
    assert(set_seq(s).contains(set_seq(s)[q]));
}

proof fn lemma_fam_push(s: Seq<Vec<LR0Item>>, v: Vec<LR0Item>)
    ensures
        states_fam(s.push(v)) == states_fam(s).insert(iset(v@)),
{
    lemma_set_seq_push(s, v);
    set_seq(s).lemma_push_to_set_commute(iset(v@));
    assert(states_fam(s.push(v)) =~= states_fam(s).insert(iset(v@)));
}

proof fn lemma_fam_prefix(a: Seq<Vec<LR0Item>>, b: Seq<Vec<LR0Item>>)
    requires
        a.len() <= b.len(),
        forall|q: int| 0 <= q < a.len() ==> b[q] == a[q],
    ensures
        states_fam(a).subset_of(states_fam(b)),
{
    assert forall|s: Set<SpecItem>| states_fam(a).contains(s) implies states_fam(b).contains(
        s,
    ) by {
        assert(set_seq(a).contains(s));
        let q = choose|q: int| 0 <= q < set_seq(a).len() && set_seq(a)[q] == s;
        assert(b[q] == a[q]);
        assert(set_seq(b)[q] == s);
        assert(set_seq(b).contains(s));
    };
}

/// Enqueueing a fresh state keeps the worklist well-formed, distinct from
/// the finished states and the state in hand, and within the counting bound.
proof fn lemma_push_state(
    y: Seq<Vec<LR0Item>>,
    iv: Vec<LR0Item>,
    x1: Seq<Vec<LR0Item>>,
    nd: Vec<LR0Item>,
    all: Set<SpecItem>,
)
    requires
        states_wf(y, all),
        states_wf(x1, all),
        state_wf(iv, all),
        state_wf(nd, all),
        distinct_sets(set_seq(y)),
        distinct_sets(set_seq(x1)),
        cross_distinct(set_seq(y), set_seq(x1)),
        forall|q: int| 0 <= q < y.len() ==> set_seq(y)[q] != iset(iv@),
        forall|q: int| 0 <= q < x1.len() ==> set_seq(x1)[q] != iset(iv@),
        !states_fam(y).contains(iset(nd@)),
        !states_fam(x1).contains(iset(nd@)),
        iset(nd@) != iset(iv@),
        all.finite(),
        y.len() + x1.len() + 1 <= two_to(all.len()),
    ensures
        states_wf(x1.push(nd), all),
        distinct_sets(set_seq(x1.push(nd))),
        cross_distinct(set_seq(y), set_seq(x1.push(nd))),
        forall|q: int| 0 <= q < x1.push(nd).len() ==> set_seq(x1.push(nd))[q] != iset(iv@),
        states_fam(x1.push(nd)) == states_fam(x1).insert(iset(nd@)),
        y.len() + x1.push(nd).len() + 1 <= two_to(all.len()),
{
    lemma_set_seq_push(x1, nd);
    lemma_fam_push(x1, nd);
    assert forall|q: int| 0 <= q < x1.len() implies set_seq(x1)[q] != iset(nd@) by {
        if set_seq(x1)[q] == iset(nd@) {
            lemma_fam_index(x1, q);
        }
    };
    assert forall|q: int| 0 <= q < y.len() implies set_seq(y)[q] != iset(nd@) by {
        if set_seq(y)[q] == iset(nd@) {
            lemma_fam_index(y, q);
        }
    };
    let x2 = x1.push(nd);
    assert forall|q: int| 0 <= q < x2.len() implies state_wf(#[trigger] x2[q], all) by {
        if q < x1.len() {
            assert(x2[q] == x1[q]);
        } else {
            assert(x2[q] == nd);
        }
    };
    let yi = y.push(iv);
    lemma_set_seq_push(y, iv);
    assert forall|q: int| 0 <= q < yi.len() implies (#[trigger] set_seq(yi)[q]).subset_of(all) by {
        if q < y.len() {
            assert(set_seq(yi)[q] == set_seq(y)[q]);
            assert(state_wf(y[q], all));
        } else {
            assert(set_seq(yi)[q] == iset(iv@));
        }
    };
    assert forall|q: int| 0 <= q < x2.len() implies (#[trigger] set_seq(x2)[q]).subset_of(all) by {
        if q < x1.len() {
            assert(set_seq(x2)[q] == set_seq(x1)[q]);
            assert(state_wf(x1[q], all));
        } else {
            assert(set_seq(x2)[q] == iset(nd@));
        }
    };
    assert forall|p: int, q: int|
        0 <= p < yi.len() && 0 <= q < yi.len() && p != q implies set_seq(yi)[p] != set_seq(
        yi,
    )[q] by {
        if p < y.len() && q < y.len() {
        } else if q == y.len() {
            assert(set_seq(yi)[p] == set_seq(y)[p] && set_seq(yi)[q] == iset(iv@));
        } else {
            assert(set_seq(yi)[q] == set_seq(y)[q] && set_seq(yi)[p] == iset(iv@));
        }
    };
    assert forall|p: int, q: int|
        0 <= p < x2.len() && 0 <= q < x2.len() && p != q implies set_seq(x2)[p] != set_seq(
        x2,
    )[q] by {
        if p < x1.len() && q < x1.len() {
        } else if q == x1.len() {
            assert(set_seq(x2)[p] == set_seq(x1)[p] && set_seq(x2)[q] == iset(nd@));
        } else {
            assert(set_seq(x2)[q] == set_seq(x1)[q] && set_seq(x2)[p] == iset(nd@));
        }
    };
    assert forall|p: int, q: int|
        0 <= p < yi.len() && 0 <= q < x2.len() implies set_seq(yi)[p] != set_seq(x2)[q] by {
        if p < y.len() && q < x1.len() {
            assert(set_seq(yi)[p] == set_seq(y)[p] && set_seq(x2)[q] == set_seq(x1)[q]);
        } else if p < y.len() {
            assert(set_seq(yi)[p] == set_seq(y)[p] && set_seq(x2)[q] == iset(nd@));
        } else if q < x1.len() {
            assert(set_seq(yi)[p] == iset(iv@) && set_seq(x2)[q] == set_seq(x1)[q]);
        } else {
            assert(set_seq(yi)[p] == iset(iv@) && set_seq(x2)[q] == iset(nd@));
        }
    };
    lemma_states_count(yi, x2, all);
}

/// Handles one dequeued state `i` and one alphabet symbol `sym`: when some
/// item of `i` expects `sym`, computes the goto successor, records the
/// transition, and enqueues the successor if its item set is new.
#[verifier::rlimit(60)]
fn goto_step(
    grammer: &Grammer,
    i: &Vec<LR0Item>,
    y: &Vec<Vec<LR0Item>>,
    x: &mut Vec<Vec<LR0Item>>,
    delta: &mut Vec<DeltaEntry>,
    sym: Symbol,
    Ghost(init): Ghost<Set<SpecItem>>,
    Ghost(alphabet): Ghost<Seq<Symbol>>,
)
    requires
        all_items_seq(grammer@).len() + all_items_seq(grammer@).len() <= usize::MAX,
        alphabet.contains(sym),
        state_wf(*i, all_items_set(grammer@)),
        states_wf(y@, all_items_set(grammer@)),
        states_wf(old(x)@, all_items_set(grammer@)),
        distinct_sets(set_seq(y@)),
        distinct_sets(set_seq(old(x)@)),
        cross_distinct(set_seq(y@), set_seq(old(x)@)),
        forall|q: int| 0 <= q < y@.len() ==> set_seq(y@)[q] != iset(i@),
        forall|q: int| 0 <= q < old(x)@.len() ==> set_seq(old(x)@)[q] != iset(i@),
        in_all_good(all_items_set(grammer@), init, alphabet, iset(i@)),
        all_in_good(all_items_set(grammer@), init, alphabet, set_seq(old(x)@)),
        delta_inv(
            all_items_set(grammer@),
            alphabet,
            old(delta)@,
            states_fam(y@).insert(iset(i@)),
            states_fam(y@).union(states_fam(old(x)@)).insert(iset(i@)),
        ),
        all_items_set(grammer@).finite(),
        y@.len() + old(x)@.len() + 1 <= two_to(all_items_set(grammer@).len()),
    ensures
        old(x)@.len() <= final(x)@.len(),
        forall|q: int| 0 <= q < old(x)@.len() ==> final(x)@[q] == old(x)@[q],
        states_wf(final(x)@, all_items_set(grammer@)),
        distinct_sets(set_seq(final(x)@)),
        cross_distinct(set_seq(y@), set_seq(final(x)@)),
        forall|q: int| 0 <= q < final(x)@.len() ==> set_seq(final(x)@)[q] != iset(i@),
        all_in_good(all_items_set(grammer@), init, alphabet, set_seq(final(x)@)),
        old(delta)@.len() <= final(delta)@.len(),
        forall|j: int| 0 <= j < old(delta)@.len() ==> final(delta)@[j] == old(delta)@[j],
        delta_inv(
            all_items_set(grammer@),
            alphabet,
            final(delta)@,
            states_fam(y@).insert(iset(i@)),
            states_fam(y@).union(states_fam(final(x)@)).insert(iset(i@)),
        ),
        forall|rr: Set<SpecItem>|
            #[trigger] goto_post(all_items_set(grammer@), iset(i@), sym, rr) && (exists|
                a: SpecItem,
            |
                rr.contains(a)) ==> states_fam(y@).union(states_fam(final(x)@)).insert(
                iset(i@),
            ).contains(rr),
        (exists|it: SpecItem| iset(i@).contains(it) && expects(it, sym)) ==> exists|i2: int|
            0 <= i2 < final(delta)@.len() && iset((#[trigger] final(delta)@[i2]).0.0@) == iset(i@)
                && final(delta)@[i2].0.1 == sym,
        y@.len() + final(x)@.len() + 1 <= two_to(all_items_set(grammer@).len()),
        !(exists|it: SpecItem| iset(i@).contains(it) && expects(it, sym)) ==> final(x)@ == old(x)@
            && final(delta)@ == old(delta)@,
        (exists|it: SpecItem| iset(i@).contains(it) && expects(it, sym)) ==> delta_triples(
            final(delta)@,
        ) == delta_triples(old(delta)@).push(
            (iset(i@), sym, goto_of(all_items_set(grammer@), iset(i@), sym)),
        ),
        (exists|it: SpecItem| iset(i@).contains(it) && expects(it, sym)) ==> set_seq(final(x)@)
            == (if set_seq(y@).contains(goto_of(all_items_set(grammer@), iset(i@), sym))
            || set_seq(old(x)@).contains(goto_of(all_items_set(grammer@), iset(i@), sym))
            || goto_of(all_items_set(grammer@), iset(i@), sym) == iset(i@) {
            set_seq(old(x)@)
        } else {
            set_seq(old(x)@).push(goto_of(all_items_set(grammer@), iset(i@), sym))
        }),
{
    let ghost all = all_items_set(grammer@);
    let ghost s_set = iset(i@);
    if !any_expects(i, &sym) {
        proof {
            assert forall|rr: Set<SpecItem>|
                #[trigger] goto_post(all, s_set, sym, rr) && (exists|a: SpecItem|
                    rr.contains(a)) implies states_fam(y@).union(states_fam(x@)).insert(
                s_set,
            ).contains(rr) by {
                lemma_goto_empty(all, s_set, sym, rr);
            };
        }
        return ;
    }
    proof {
        broadcast use vstd::seq_lib::seq_to_set_is_finite;

        all_items_seq(grammer@).lemma_cardinality_of_set();
        lemma_distinct_in_universe_len(views(i@), all, all.len());
    }
    let i_dash = generate_goto_set(grammer, i.as_slice(), &sym);
    let ghost d_set = iset(i_dash@);
    proof {
        assert(goto_post(all, s_set, sym, d_set));
        let wit = choose|it: SpecItem| s_set.contains(it) && expects(it, sym);
        assert(advanced_of(s_set, sym).contains(advance(wit)));
        assert(d_set.contains(advance(wit)));
        lemma_goto_subset_all(grammer@, s_set, sym, d_set);
        assert forall|other: Set<Set<SpecItem>>|
            #[trigger] good_family(all, init, alphabet, other) implies other.contains(d_set) by {
            assert(other.contains(s_set));
            let m = choose|m: int| 0 <= m < alphabet.len() && alphabet[m] == sym;
            assert(goto_post(all, s_set, alphabet[m], d_set));
        };
    }
    let in_y = contains_state(y, &i_dash);
    let in_x = contains_state(x, &i_dash);
    let is_self = item_set_eq(i_dash.as_slice(), i.as_slice());
    if !in_y && !in_x && !is_self {
        let nd = clone_state(&i_dash);
        proof {
            assert(iset(nd@) == d_set);
            lemma_push_state(y@, *i, x@, nd, all);
            lemma_fam_push(x@, nd);
            lemma_delta_inv_widen(
                all,
                alphabet,
                delta@,
                states_fam(y@).insert(s_set),
                states_fam(y@).union(states_fam(x@)).insert(s_set),
                states_fam(y@).insert(s_set),
                states_fam(y@).union(states_fam(x@.push(nd))).insert(s_set),
            );
            lemma_set_seq_push(x@, nd);
            assert forall|q: int| 0 <= q < set_seq(x@.push(nd)).len() implies in_all_good(
                all,
                init,
                alphabet,
                #[trigger] set_seq(x@.push(nd))[q],
            ) by {
                if q < x@.len() {
                    assert(set_seq(x@.push(nd))[q] == set_seq(x@)[q]);
                } else {
                    assert(set_seq(x@.push(nd))[q] == d_set);
                }
            };
        }
        x.push(nd);
    }
    proof {
        if in_y {
            assert(states_fam(y@).contains(d_set));
        } else if in_x {
            assert(states_fam(x@).contains(d_set));
        } else if is_self {
            assert(d_set == s_set);
        } else {
            assert(states_fam(x@).contains(d_set)) by {
                lemma_fam_index(x@, x@.len() - 1);
                assert(set_seq(x@)[x@.len() - 1] == d_set);
            };
        }
        assert(states_fam(y@).union(states_fam(x@)).insert(s_set).contains(d_set));
    }
    let key = clone_state(i);
    proof {
        assert(iset(key@) == s_set);
    }
    delta.push(((key, sym), i_dash));
    proof {
        let dl = delta@;
        assert(dl[dl.len() - 1].0.1 == sym);
        assert(iset(dl[dl.len() - 1].0.0@) == s_set);
        assert(iset(dl[dl.len() - 1].1@) == d_set);
        assert(states_fam(y@).insert(s_set).contains(s_set));
        assert(delta_entry_inv(
            all,
            alphabet,
            dl[dl.len() - 1],
            states_fam(y@).insert(s_set),
            states_fam(y@).union(states_fam(x@)).insert(s_set),
        ));
        assert forall|i2: int| 0 <= i2 < dl.len() implies delta_entry_inv(
            all,
            alphabet,
            #[trigger] dl[i2],
            states_fam(y@).insert(s_set),
            states_fam(y@).union(states_fam(x@)).insert(s_set),
        ) by {
            if i2 < dl.len() - 1 {
                assert(dl[i2] == dl.drop_last()[i2]);
            }
        };
        assert forall|rr: Set<SpecItem>|
            #[trigger] goto_post(all, s_set, sym, rr) && (exists|a: SpecItem|
                rr.contains(a)) implies states_fam(y@).union(states_fam(x@)).insert(
            s_set,
        ).contains(rr) by {
            lemma_goto_deterministic(all, s_set, sym, rr, d_set);
        };
        // the recorded transition and the enqueueing, as the model sees them
        lemma_goto_of(all, s_set, sym, d_set);
        assert(delta_triples(delta@) =~= delta_triples(old(delta)@).push((s_set, sym, d_set)));
        assert(set_seq(y@).contains(d_set) == in_y);
        assert(set_seq(old(x)@).contains(d_set) == in_x);
        if !in_y && !in_x && !is_self {
            assert(set_seq(x@) == set_seq(old(x)@).push(d_set));
        } else {
            assert(x@ == old(x)@);
        }
    }
}

/// Processes one dequeued state `i`: computes its goto successor for every
/// alphabet symbol, records each non-empty successor as a transition, and
/// enqueues successors whose item sets have not been seen before.
#[verifier::rlimit(100)]
#[verifier::spinoff_prover]
fn process_state(
    grammer: &Grammer,
    i: &Vec<LR0Item>,
    y: &Vec<Vec<LR0Item>>,
    x: &mut Vec<Vec<LR0Item>>,
    delta: &mut Vec<DeltaEntry>,
    symbols: &[Symbol],
    Ghost(init): Ghost<Set<SpecItem>>,
)
    requires
        all_items_seq(grammer@).len() + all_items_seq(grammer@).len() <= usize::MAX,
        state_wf(*i, all_items_set(grammer@)),
        states_wf(y@, all_items_set(grammer@)),
        states_wf(old(x)@, all_items_set(grammer@)),
        distinct_sets(set_seq(y@)),
        distinct_sets(set_seq(old(x)@)),
        cross_distinct(set_seq(y@), set_seq(old(x)@)),
        forall|q: int| 0 <= q < y@.len() ==> set_seq(y@)[q] != iset(i@),
        forall|q: int| 0 <= q < old(x)@.len() ==> set_seq(old(x)@)[q] != iset(i@),
        in_all_good(all_items_set(grammer@), init, symbols@, iset(i@)),
        all_in_good(all_items_set(grammer@), init, symbols@, set_seq(old(x)@)),
        delta_inv(
            all_items_set(grammer@),
            symbols@,
            old(delta)@,
            states_fam(y@).insert(iset(i@)),
            states_fam(y@).union(states_fam(old(x)@)).insert(iset(i@)),
        ),
        all_items_set(grammer@).finite(),
        y@.len() + old(x)@.len() + 1 <= two_to(all_items_set(grammer@).len()),
    ensures
        old(x)@.len() <= final(x)@.len(),
        forall|q: int| 0 <= q < old(x)@.len() ==> final(x)@[q] == old(x)@[q],
        states_wf(final(x)@, all_items_set(grammer@)),
        distinct_sets(set_seq(final(x)@)),
        cross_distinct(set_seq(y@), set_seq(final(x)@)),
        forall|q: int| 0 <= q < final(x)@.len() ==> set_seq(final(x)@)[q] != iset(i@),
        all_in_good(all_items_set(grammer@), init, symbols@, set_seq(final(x)@)),
        old(delta)@.len() <= final(delta)@.len(),
        forall|j: int| 0 <= j < old(delta)@.len() ==> final(delta)@[j] == old(delta)@[j],
        delta_inv(
            all_items_set(grammer@),
            symbols@,
            final(delta)@,
            states_fam(y@).insert(iset(i@)),
            states_fam(y@).union(states_fam(final(x)@)).insert(iset(i@)),
        ),
        goto_closed_upto(
            all_items_set(grammer@),
            symbols@,
            iset(i@),
            symbols@.len() as int,
            states_fam(y@).union(states_fam(final(x)@)).insert(iset(i@)),
        ),
        completeness_upto(final(delta)@, iset(i@), symbols@, symbols@.len() as int),
        y@.len() + final(x)@.len() + 1 <= two_to(all_items_set(grammer@).len()),
        set_seq(final(x)@) == sym_pass(
            all_items_set(grammer@),
            symbols@,
            0,
            set_seq(y@),
            iset(i@),
            set_seq(old(x)@),
            delta_triples(old(delta)@),
        ).0,
        delta_triples(final(delta)@) == sym_pass(
            all_items_set(grammer@),
            symbols@,
            0,
            set_seq(y@),
            iset(i@),
            set_seq(old(x)@),
            delta_triples(old(delta)@),
        ).1,
{
    let ghost all = all_items_set(grammer@);
    let ghost s_set = iset(i@);
    let mut m: usize = 0;
    while m < symbols.len()
        invariant
            m <= symbols@.len(),
            all == all_items_set(grammer@),
            s_set == iset(i@),
            all.finite(),
            all_items_seq(grammer@).len() + all_items_seq(grammer@).len() <= usize::MAX,
            state_wf(*i, all),
            states_wf(y@, all),
            states_wf(x@, all),
            distinct_sets(set_seq(y@)),
            distinct_sets(set_seq(x@)),
            cross_distinct(set_seq(y@), set_seq(x@)),
            forall|q: int| 0 <= q < y@.len() ==> set_seq(y@)[q] != s_set,
            forall|q: int| 0 <= q < x@.len() ==> set_seq(x@)[q] != s_set,
            in_all_good(all, init, symbols@, s_set),
            all_in_good(all, init, symbols@, set_seq(x@)),
            old(x)@.len() <= x@.len(),
            forall|q: int| 0 <= q < old(x)@.len() ==> x@[q] == old(x)@[q],
            old(delta)@.len() <= delta@.len(),
            forall|j: int| 0 <= j < old(delta)@.len() ==> delta@[j] == old(delta)@[j],
            delta_inv(
                all,
                symbols@,
                delta@,
                states_fam(y@).insert(s_set),
                states_fam(y@).union(states_fam(x@)).insert(s_set),
            ),
            goto_closed_upto(
                all,
                symbols@,
                s_set,
                m as int,
                states_fam(y@).union(states_fam(x@)).insert(s_set),
            ),
            completeness_upto(delta@, s_set, symbols@, m as int),
            y@.len() + x@.len() + 1 <= two_to(all.len()),
            sym_pass(all, symbols@, m as int, set_seq(y@), s_set, set_seq(x@), delta_triples(delta@))
                == sym_pass(
                all,
                symbols@,
                0,
                set_seq(y@),
                s_set,
                set_seq(old(x)@),
                delta_triples(old(delta)@),
            ),
        decreases symbols@.len() - m,
    {
        let sym = symbols[m];
        let ghost x_pre = x@;
        let ghost d_pre = delta@;
        proof {
            assert(symbols@[m as int] == sym);
            assert(symbols@.contains(sym));
        }
        goto_step(grammer, i, y, x, delta, sym, Ghost(init), Ghost(symbols@));
        proof {
            // one model step matches what this symbol did
            assert(symbols@[m as int] == sym);
            lemma_sym_pass_advance(
                all,
                symbols@,
                m as int,
                set_seq(y@),
                s_set,
                set_seq(x_pre),
                delta_triples(d_pre),
                set_seq(x@),
                delta_triples(delta@),
                set_seq(old(x)@),
                delta_triples(old(delta)@),
            );
            lemma_fam_prefix(x_pre, x@);
            assert(states_fam(y@).union(states_fam(x_pre)).insert(s_set).subset_of(
                states_fam(y@).union(states_fam(x@)).insert(s_set),
            ));
            assert forall|m2: int, rr: Set<SpecItem>|
                0 <= m2 < m + 1 && #[trigger] goto_post(all, s_set, symbols@[m2], rr) && (exists|
                    a: SpecItem,
                |
                    rr.contains(a)) implies states_fam(y@).union(states_fam(x@)).insert(
                s_set,
            ).contains(rr) by {
                if m2 < m {
                    assert(states_fam(y@).union(states_fam(x_pre)).insert(s_set).contains(rr));
                } else {
                    assert(symbols@[m2] == sym);
                }
            };
            assert forall|m2: int|
                0 <= m2 < m + 1 && (exists|it: SpecItem|
                    s_set.contains(it) && expects(it, #[trigger] symbols@[m2])) implies exists|
                i2: int,
            |
                0 <= i2 < delta@.len() && iset((#[trigger] delta@[i2]).0.0@) == s_set
                    && delta@[i2].0.1 == symbols@[m2] by {
                if m2 < m {
                    let i2 = choose|i2: int|
                        0 <= i2 < d_pre.len() && iset((#[trigger] d_pre[i2]).0.0@) == s_set
                            && d_pre[i2].0.1 == symbols@[m2];
                    assert(delta@[i2] == d_pre[i2]);
                    assert(iset(delta@[i2].0.0@) == s_set && delta@[i2].0.1 == symbols@[m2]);
                } else {
                    assert(symbols@[m2] == sym);
                }
            };
        }
        m = m + 1;
    }
    proof {
        reveal_with_fuel(sym_pass, 1);
        assert(sym_pass(
            all,
            symbols@,
            symbols@.len() as int,
            set_seq(y@),
            s_set,
            set_seq(x@),
            delta_triples(delta@),
        ) == (set_seq(x@), delta_triples(delta@)));
    }
}

/// Assembles the automaton postcondition from the worklist-loop facts, once
/// the worklist has drained.
proof fn lemma_assemble_automaton(
    g: Seq<SpecRule>,
    start_symbol: u64,
    alphabet: Seq<Symbol>,
    y: Seq<Vec<LR0Item>>,
    delta: Seq<DeltaEntry>,
    init: Set<SpecItem>,
    r0: Set<SpecItem>,
)
    requires
        init == Set::<SpecItem>::empty().insert(first_with_left(all_items_seq(g), start_symbol)),
        closure_post(all_items_set(g), init, r0),
        y.len() >= 1,
        set_seq(y)[0] == r0,
        states_wf(y, all_items_set(g)),
        distinct_sets(set_seq(y)),
        all_in_good(all_items_set(g), init, alphabet, set_seq(y)),
        states_goto_closed(all_items_set(g), alphabet, y, states_fam(y)),
        delta_inv(all_items_set(g), alphabet, delta, states_fam(y), states_fam(y)),
        states_complete(delta, y, alphabet),
        set_seq(y) == canonical_model(g, start_symbol, alphabet).0,
        delta_triples(delta) == canonical_model(g, start_symbol, alphabet).1,
    ensures
        automaton_post(g, start_symbol, alphabet, y, delta),
{
    let all = all_items_set(g);
    let fam = states_fam(y);
    assert(fam.contains(r0)) by {
        lemma_fam_index(y, 0);
    };
    assert forall|r0x: Set<SpecItem>| #[trigger] closure_post(all, init, r0x) implies fam.contains(
        r0x,
    ) by {
        lemma_closure_unique(all, init, r0x, r0);
    };
    assert(family_goto_closed(fam, all, alphabet)) by {
        assert forall|st: Set<SpecItem>, m: int, rr: Set<SpecItem>|
            fam.contains(st) && 0 <= m < alphabet.len() && #[trigger] goto_post(
                all,
                st,
                alphabet[m],
                rr,
            ) && (exists|a: SpecItem| rr.contains(a)) implies fam.contains(rr) by {
            assert(set_seq(y).contains(st));
            let q = choose|q: int| 0 <= q < set_seq(y).len() && set_seq(y)[q] == st;
            assert(goto_post(all, set_seq(y)[q], alphabet[m], rr));
            assert(goto_closed_upto(all, alphabet, set_seq(y)[q], alphabet.len() as int, fam));
        };
    };
    assert(good_family(all, init, alphabet, fam));
    assert forall|other: Set<Set<SpecItem>>|
        #[trigger] good_family(all, init, alphabet, other) implies fam.subset_of(other) by {
        assert forall|s: Set<SpecItem>| fam.contains(s) implies other.contains(s) by {
            assert(set_seq(y).contains(s));
            let q = choose|q: int| 0 <= q < set_seq(y).len() && set_seq(y)[q] == s;
            assert(in_all_good(all, init, alphabet, set_seq(y)[q]));
        };
    };
    assert(canonical_family(all, init, alphabet, fam));
    assert forall|i: int| 0 <= i < delta.len() implies delta_entry_ok(
        all,
        alphabet,
        y,
        #[trigger] delta[i],
    ) by {
        assert(delta_entry_inv(all, alphabet, delta[i], fam, fam));
    };
    assert forall|q: int| 0 <= q < y.len() implies views(#[trigger] y[q]@).no_duplicates() by {
        assert(state_wf(y[q], all));
    };
    assert forall|q: int, m: int|
        #![trigger set_seq(y)[q], alphabet[m]]
        0 <= q < y.len() && 0 <= m < alphabet.len() && (exists|it: SpecItem|
            set_seq(y)[q].contains(it) && expects(it, alphabet[m])) implies exists|i: int|
        0 <= i < delta.len() && iset((#[trigger] delta[i]).0.0@) == set_seq(y)[q] && delta[i].0.1
            == alphabet[m] by {
        assert(completeness_upto(delta, set_seq(y)[q], alphabet, alphabet.len() as int));
    };
}

/// One worklist step of the model: dequeuing the head pending state, passing
/// it over the alphabet, and finishing it leaves the run's result unchanged.
proof fn lemma_auto_run_advance(
    all: Set<SpecItem>,
    alphabet: Seq<Symbol>,
    done: Seq<Set<SpecItem>>,
    xs_before: Seq<Set<SpecItem>>,
    t_before: Seq<(Set<SpecItem>, Symbol, Set<SpecItem>)>,
    x_after: Seq<Set<SpecItem>>,
    t_after: Seq<(Set<SpecItem>, Symbol, Set<SpecItem>)>,
    fuel: nat,
)
    requires
        xs_before.len() > 0,
        fuel > 0,
        (x_after, t_after) == sym_pass(
            all,
            alphabet,
            0,
            done,
            xs_before[0],
            xs_before.drop_first(),
            t_before,
        ),
    ensures
        auto_run(all, alphabet, done, xs_before, t_before, fuel) == auto_run(
            all,
            alphabet,
            done.push(xs_before[0]),
            x_after,
            t_after,
            (fuel - 1) as nat,
        ),
{
    reveal_with_fuel(auto_run, 2);
}

/// Discovers the canonical collection of LR(0) states and the transition
/// relation: a FIFO worklist starts from the closure of the first item whose
/// left-hand side is `start_symbol`, and for every discovered state and every
/// alphabet symbol records the non-empty goto successor, enqueueing it when
/// its item set is new. States are returned in discovery order, the initial
/// state first. If no item has `start_symbol` on its left, both results are
/// empty.
pub fn generate_canonical_automaton(
    grammer: &Grammer,
    start_symbol: u64,
    symbols: &[Symbol],
) -> (r: (Vec<Vec<LR0Item>>, Vec<DeltaEntry>))
    requires
        all_items_seq(grammer@).len() + all_items_seq(grammer@).len() <= usize::MAX,
    ensures
        !has_left(all_items_seq(grammer@), start_symbol) ==> r.0@.len() == 0 && r.1@.len() == 0,
        has_left(all_items_seq(grammer@), start_symbol) ==> automaton_post(
            grammer@,
            start_symbol,
            symbols@,
            r.0@,
            r.1@,
        ),
{
    let items = generate_lr0_item_set(grammer);
    let ghost items_v = all_items_seq(grammer@);
    let ghost all = all_items_set(grammer@);
    proof {
        broadcast use vstd::seq_lib::seq_to_set_is_finite;

        items_v.lemma_cardinality_of_set();
    }
    let mut si: usize = 0;
    while si < items.len() && items[si].left != start_symbol
        invariant
            si <= items_v.len(),
            items_v == all_items_seq(grammer@),
            views(items@) == items_v,
            forall|p: int| 0 <= p < si ==> items_v[p].left != start_symbol,
        decreases items_v.len() - si,
    {
        proof {
            assert(items_v[si as int] == views(items@)[si as int]);
        }
        si = si + 1;
    }
    if si >= items.len() {
        proof {
            if has_left(items_v, start_symbol) {
                let m = choose|m: int| 0 <= m < items_v.len() && items_v[m].left == start_symbol;
            }
        }
        return (Vec::new(), Vec::new());
    }
    let ghost start_it = items_v[si as int];
    proof {
        assert(views(items@)[si as int] == items@[si as int]@);
        assert(items_v[si as int].left == start_symbol);
        lemma_first_with_left_at(items_v, start_symbol, si as int);
        assert(has_left(items_v, start_symbol));
    }
    let ghost init = Set::<SpecItem>::empty().insert(start_it);
    let mut seedv: Vec<LR0Item> = Vec::new();
    seedv.push(items[si].clone());
    proof {
        assert(views(seedv@) =~= Seq::<SpecItem>::empty().push(start_it));
        Seq::<SpecItem>::empty().lemma_push_to_set_commute(start_it);
        assert(Seq::<SpecItem>::empty().to_set() =~= Set::<SpecItem>::empty());
        assert(iset(seedv@) == init);
    }
    let ie = generate_lr0_item_closure(items.as_slice(), seedv.as_slice());
    let ghost r0 = iset(ie@);
    proof {
        assert(init.subset_of(all)) by {
            assert(items_v.contains(start_it));
        };
        assert(r0.subset_of(all)) by {
            assert forall|a: SpecItem| r0.contains(a) implies all.contains(a) by {
                if !init.contains(a) {
                    assert(intro_of(all).contains(a));
                }
            };
        };
    }
    let mut y: Vec<Vec<LR0Item>> = Vec::new();
    let mut x: Vec<Vec<LR0Item>> = Vec::new();
    let mut delta: Vec<DeltaEntry> = Vec::new();
    proof {
        lemma_set_seq_push(x@, ie);
    }
    x.push(ie);
    proof {
        assert(set_seq(x@)[0] == r0);
        assert forall|q: int| 0 <= q < x@.len() implies state_wf(#[trigger] x@[q], all) by {
            assert(x@[q] == x@[0]);
        };
        assert forall|q: int| 0 <= q < x@.len() implies in_all_good(
            all,
            init,
            symbols@,
            #[trigger] set_seq(x@)[q],
        ) by {
            assert(set_seq(x@)[q] == r0);
            assert forall|other: Set<Set<SpecItem>>|
                #[trigger] good_family(all, init, symbols@, other) implies other.contains(r0) by {
                assert(closure_post(all, init, r0));
            };
        };
        assert forall|q: int| 0 <= q < x@.len() implies (#[trigger] set_seq(x@)[q]).subset_of(
            all,
        ) by {
            assert(set_seq(x@)[q] == r0);
        };
        lemma_states_count(y@, x@, all);
        lemma_closure_of(all, init, r0);
        reveal(canonical_model);
        assert(set_seq(y@) =~= Seq::<Set<SpecItem>>::empty());
        assert(set_seq(x@) =~= Seq::<Set<SpecItem>>::empty().push(r0));
        assert(delta_triples(delta@) =~= Seq::<(Set<SpecItem>, Symbol, Set<SpecItem>)>::empty());
        assert(auto_run(
            all,
            symbols@,
            set_seq(y@),
            set_seq(x@),
            delta_triples(delta@),
            (two_to(all.len()) - y@.len()) as nat,
        ) == canonical_model(grammer@, start_symbol, symbols@));
    }
    while x.len() > 0
        invariant
            all == all_items_set(grammer@),
            items_v == all_items_seq(grammer@),
            init == Set::<SpecItem>::empty().insert(first_with_left(items_v, start_symbol)),
            closure_post(all, init, r0),
            all.finite(),
            all.len() <= items_v.len(),
            items_v.len() + items_v.len() <= usize::MAX,
            states_wf(y@, all),
            states_wf(x@, all),
            distinct_sets(set_seq(y@)),
            distinct_sets(set_seq(x@)),
            cross_distinct(set_seq(y@), set_seq(x@)),
            y@.len() == 0 ==> x@.len() > 0 && set_seq(x@)[0] == r0,
            y@.len() > 0 ==> set_seq(y@)[0] == r0,
            all_in_good(all, init, symbols@, set_seq(y@)),
            all_in_good(all, init, symbols@, set_seq(x@)),
            states_goto_closed(all, symbols@, y@, states_fam(y@).union(states_fam(x@))),
            delta_inv(
                all,
                symbols@,
                delta@,
                states_fam(y@),
                states_fam(y@).union(states_fam(x@)),
            ),
            states_complete(delta@, y@, symbols@),
            y@.len() + x@.len() <= two_to(all.len()),
            auto_run(
                all,
                symbols@,
                set_seq(y@),
                set_seq(x@),
                delta_triples(delta@),
                (two_to(all.len()) - y@.len()) as nat,
            ) == canonical_model(grammer@, start_symbol, symbols@),
        decreases two_to(all.len()) - y@.len(),
    {
        let ghost xs_before = x@;
        let ghost dl_before = delta@;
        let i = x.remove(0);
        let ghost s_set = iset(i@);
        proof {
            assert(x@ == xs_before.remove(0));
            assert forall|q: int| 0 <= q < x@.len() implies x@[q] == xs_before[q + 1] by {};
            assert forall|q: int| 0 <= q < x@.len() implies set_seq(x@)[q] == set_seq(
                xs_before,
            )[q + 1] by {
                assert(x@[q] == xs_before[q + 1]);
            };
            assert(i == xs_before[0]);
            assert(set_seq(xs_before)[0] == s_set);
            assert(state_wf(i, all));
            assert forall|q: int| 0 <= q < x@.len() implies state_wf(#[trigger] x@[q], all) by {
                assert(x@[q] == xs_before[q + 1]);
                assert(state_wf(xs_before[q + 1], all));
            };
            assert forall|q: int| 0 <= q < y@.len() implies set_seq(y@)[q] != s_set by {
                assert(set_seq(y@)[q] != set_seq(xs_before)[0]);
            };
            assert forall|q: int| 0 <= q < x@.len() implies set_seq(x@)[q] != s_set by {
                assert(set_seq(xs_before)[q + 1] != set_seq(xs_before)[0]);
            };
            assert(in_all_good(all, init, symbols@, s_set)) by {
                assert(in_all_good(all, init, symbols@, set_seq(xs_before)[0]));
            };
            assert forall|q: int| 0 <= q < set_seq(x@).len() implies in_all_good(
                all,
                init,
                symbols@,
                #[trigger] set_seq(x@)[q],
            ) by {
                assert(set_seq(x@)[q] == set_seq(xs_before)[q + 1]);
                assert(in_all_good(all, init, symbols@, set_seq(xs_before)[q + 1]));
            };
            assert(states_fam(xs_before).subset_of(
                states_fam(x@).insert(s_set),
            )) by {
                assert forall|s: Set<SpecItem>| states_fam(xs_before).contains(s) implies states_fam(
                    x@,
                ).insert(s_set).contains(s) by {
                    assert(set_seq(xs_before).contains(s));
                    let q = choose|q: int|
                        0 <= q < set_seq(xs_before).len() && set_seq(xs_before)[q] == s;
                    if q == 0 {
                        assert(s == s_set);
                    } else {
                        assert(set_seq(x@)[q - 1] == s);
                        lemma_fam_index(x@, q - 1);
                    }
                };
            };
            lemma_delta_inv_widen(
                all,
                symbols@,
                delta@,
                states_fam(y@),
                states_fam(y@).union(states_fam(xs_before)),
                states_fam(y@).insert(s_set),
                states_fam(y@).union(states_fam(x@)).insert(s_set),
            );
        }
        let ghost x_mid = x@;
        process_state(grammer, &i, &y, &mut x, &mut delta, symbols, Ghost(init));
        proof {
            let ghost ys2 = y@.push(i);
            lemma_set_seq_push(y@, i);
            lemma_fam_push(y@, i);
            lemma_fam_prefix(xs_before.remove(0), x@);
            assert(states_fam(xs_before).subset_of(states_fam(x@).insert(s_set)));
            // one worklist step of the model
            assert(set_seq(x_mid) =~= set_seq(xs_before).drop_first()) by {
                assert(x_mid == xs_before.remove(0));
                assert(x_mid =~= xs_before.drop_first());
            };
            assert((set_seq(x@), delta_triples(delta@)) == sym_pass(
                all,
                symbols@,
                0,
                set_seq(y@),
                set_seq(xs_before)[0],
                set_seq(xs_before).drop_first(),
                delta_triples(dl_before),
            ));
            assert((two_to(all.len()) - y@.len()) as nat > 0) by {
                assert(y@.len() + xs_before.len() <= two_to(all.len()));
            };
            lemma_auto_run_advance(
                all,
                symbols@,
                set_seq(y@),
                set_seq(xs_before),
                delta_triples(dl_before),
                set_seq(x@),
                delta_triples(delta@),
                (two_to(all.len()) - y@.len()) as nat,
            );
            assert(set_seq(ys2) == set_seq(y@).push(s_set));
            assert(auto_run(
                all,
                symbols@,
                set_seq(ys2),
                set_seq(x@),
                delta_triples(delta@),
                (two_to(all.len()) - ys2.len()) as nat,
            ) == canonical_model(grammer@, start_symbol, symbols@));
            // well-formedness and distinctness of the grown state list
            assert forall|q: int| 0 <= q < ys2.len() implies state_wf(#[trigger] ys2[q], all) by {
                if q < y@.len() {
                    assert(ys2[q] == y@[q]);
                } else {
                    assert(ys2[q] == i);
                }
            };
            assert forall|p: int, q: int|
                0 <= p < ys2.len() && 0 <= q < ys2.len() && p != q implies set_seq(ys2)[p]
                != set_seq(ys2)[q] by {
                if p < y@.len() && q < y@.len() {
                    assert(set_seq(ys2)[p] == set_seq(y@)[p] && set_seq(ys2)[q] == set_seq(y@)[q]);
                } else if q == y@.len() {
                    assert(set_seq(ys2)[p] == set_seq(y@)[p] && set_seq(ys2)[q] == s_set);
                } else {
                    assert(set_seq(ys2)[q] == set_seq(y@)[q] && set_seq(ys2)[p] == s_set);
                }
            };
            assert forall|p: int, q: int|
                0 <= p < ys2.len() && 0 <= q < x@.len() implies set_seq(ys2)[p] != set_seq(
                x@,
            )[q] by {
                if p < y@.len() {
                    assert(set_seq(ys2)[p] == set_seq(y@)[p]);
                } else {
                    assert(set_seq(ys2)[p] == s_set);
                }
            };
            if y@.len() == 0 {
                assert(s_set == r0);
                assert(set_seq(ys2)[0] == s_set);
            } else {
                assert(set_seq(ys2)[0] == set_seq(y@)[0]);
            }
            assert forall|q: int| 0 <= q < ys2.len() implies in_all_good(
                all,
                init,
                symbols@,
                #[trigger] set_seq(ys2)[q],
            ) by {
                if q < y@.len() {
                    assert(set_seq(ys2)[q] == set_seq(y@)[q]);
                } else {
                    assert(set_seq(ys2)[q] == s_set);
                }
            };
            // goto-closedness of every finished state, over the grown family
            assert(states_fam(ys2) == states_fam(y@).insert(s_set));
            assert(states_fam(y@).union(states_fam(x@)).insert(s_set) =~= states_fam(
                ys2,
            ).union(states_fam(x@)));
            assert forall|q: int| 0 <= q < ys2.len() implies goto_closed_upto(
                all,
                symbols@,
                #[trigger] set_seq(ys2)[q],
                symbols@.len() as int,
                states_fam(ys2).union(states_fam(x@)),
            ) by {
                if q < y@.len() {
                    assert(set_seq(ys2)[q] == set_seq(y@)[q]);
                    assert(goto_closed_upto(
                        all,
                        symbols@,
                        set_seq(y@)[q],
                        symbols@.len() as int,
                        states_fam(y@).union(states_fam(xs_before)),
                    ));
                    assert(states_fam(y@).union(states_fam(xs_before)).subset_of(
                        states_fam(ys2).union(states_fam(x@)),
                    ));
                    lemma_goto_closed_widen(
                        all,
                        symbols@,
                        set_seq(y@)[q],
                        symbols@.len() as int,
                        states_fam(y@).union(states_fam(xs_before)),
                        states_fam(ys2).union(states_fam(x@)),
                    );
                } else {
                    assert(set_seq(ys2)[q] == s_set);
                    lemma_goto_closed_widen(
                        all,
                        symbols@,
                        s_set,
                        symbols@.len() as int,
                        states_fam(y@).union(states_fam(x@)).insert(s_set),
                        states_fam(ys2).union(states_fam(x@)),
                    );
                }
            };
            // transition records over the grown families
            lemma_delta_inv_widen(
                all,
                symbols@,
                delta@,
                states_fam(y@).insert(s_set),
                states_fam(y@).union(states_fam(x@)).insert(s_set),
                states_fam(ys2),
                states_fam(ys2).union(states_fam(x@)),
            );
            // completeness of every finished state
            assert forall|q: int| 0 <= q < ys2.len() implies completeness_upto(
                delta@,
                #[trigger] set_seq(ys2)[q],
                symbols@,
                symbols@.len() as int,
            ) by {
                if q < y@.len() {
                    assert(set_seq(ys2)[q] == set_seq(y@)[q]);
                    assert(completeness_upto(
                        dl_before,
                        set_seq(y@)[q],
                        symbols@,
                        symbols@.len() as int,
                    ));
                    lemma_completeness_prefix(
                        dl_before,
                        delta@,
                        set_seq(y@)[q],
                        symbols@,
                        symbols@.len() as int,
                    );
                } else {
                    assert(set_seq(ys2)[q] == s_set);
                }
            };
        }
        y.push(i);
    }
    proof {
        assert(y@.len() >= 1);
        assert(states_fam(x@) =~= Set::<Set<SpecItem>>::empty()) by {
            assert forall|s: Set<SpecItem>| !(#[trigger] states_fam(x@).contains(s)) by {
                if set_seq(x@).contains(s) {
                    let q = choose|q: int| 0 <= q < set_seq(x@).len() && set_seq(x@)[q] == s;
                }
            };
        };
        assert(states_fam(y@).union(states_fam(x@)) =~= states_fam(y@));
        assert(set_seq(x@).len() == 0);
        reveal_with_fuel(auto_run, 1);
        assert(auto_run(
            all,
            symbols@,
            set_seq(y@),
            set_seq(x@),
            delta_triples(delta@),
            (two_to(all.len()) - y@.len()) as nat,
        ) == (set_seq(y@), delta_triples(delta@)));
        assert(set_seq(y@) == canonical_model(grammer@, start_symbol, symbols@).0);
        assert(delta_triples(delta@) == canonical_model(grammer@, start_symbol, symbols@).1);
        lemma_assemble_automaton(grammer@, start_symbol, symbols@, y@, delta@, init, r0);
    }
    (y, delta)
}
/// True when some item of the state expects `symbol` right after its dot.
fn any_expects(state: &Vec<LR0Item>, symbol: &Symbol) -> (r: bool)
    ensures
        r == exists|it: SpecItem| iset(state@).contains(it) && expects(it, *symbol),
{
    let mut k: usize = 0;
    while k < state.len()
        invariant
            k <= state@.len(),
            forall|m: int| 0 <= m < k ==> !expects(views(state@)[m], *symbol),
        decreases state@.len() - k,
    {
        if test_symbol_after_dot(&state[k], symbol) {
            proof {
                assert(views(state@)[k as int] == state@[k as int]@);
                assert(views(state@).contains(state@[k as int]@));
                assert(iset(state@).contains(state@[k as int]@));
            }
            return true;
        }
        k = k + 1;
    }
    proof {
        if exists|it: SpecItem| iset(state@).contains(it) && expects(it, *symbol) {
            let it = choose|it: SpecItem| iset(state@).contains(it) && expects(it, *symbol);
            assert(views(state@).contains(it));
            let m = choose|m: int| 0 <= m < views(state@).len() && views(state@)[m] == it;
        }
    }
    false
}

} // verus!
