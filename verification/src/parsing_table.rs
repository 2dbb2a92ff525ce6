//! The compiled LR(0) parsing table and the shift-reduce parse runtime.
//!
//! The table compiler assigns every discovered state its discovery index,
//! classifies states as shifting, reducing or accepting, reports conflicts,
//! and emits an action table keyed by `(state, terminal)` and a goto table
//! keyed by `(state, non-terminal)`. The runtime drives three synchronized
//! structures — a state stack, a semantic-value stack and the remaining
//! input — through shift and reduce moves until acceptance or error.

use vstd::prelude::*;

use crate::bnf::{IntoKind, Symbol};
use crate::item_set::{
    contains_item, distinct_sets, iset, item_complete, item_set_eq, set_seq, states_fam, views,
    DeltaEntry, LR0Item, SpecItem,
};

verus! {

/// One action of the parsing table.
#[derive(Clone, Copy, PartialEq, Eq, Structural, Debug)]
pub enum ActionKind {
    Accept,
    Reduce(usize),
    Shift(usize),
    Error,
}

/// A semantic value on the parse stack: a terminal's attached value or a
/// previously synthesized non-terminal value.
#[derive(Debug)]
pub enum ValueStackSymbol<NTV, TV> {
    NonTerm(NTV),
    Term(TV),
}

/// The user-supplied semantic actions of a grammar, dispatched by rule.
pub trait ReduceActions<NTV, TV> {
    /// Folds the popped right-hand-side values of `rule`, in their original
    /// left-to-right order, into one synthesized non-terminal value; `None`
    /// when no action is registered for the rule.
    fn reduce(&self, rule: &LR0Item, args: Vec<ValueStackSymbol<NTV, TV>>) -> Option<NTV>;
}

/// Why a parse stopped without accepting.
#[derive(Clone, Copy, PartialEq, Eq, Structural, Debug)]
pub enum ParseError {
    /// The action table maps the current state and token to an error.
    Syntax { state: usize, token_kind: u64 },
    /// The action table holds no entry for the current state and token.
    NoAction { state: usize, token_kind: u64 },
    /// The input ran out before an accept action was reached.
    InputExhausted,
    /// A reachable rule has no reduction action registered; a configuration
    /// error of the grammar author, not a flaw of the input.
    MissingReduceAction { rule: usize },
    /// A reduce action named a rule index outside the rule table, or an
    /// incomplete rule item.
    BadRule { rule: usize },
    /// The goto table holds no entry for the uncovered state and the reduced
    /// rule's left-hand side.
    MissingGoto { state: usize, nonterm: u64 },
    /// A reduction asked for more states than the stack holds.
    StackUnderflow,
    /// The step budget ran out before acceptance or error.
    StepLimit,
}

/// The final verdict of a parse run.
#[derive(Clone, Copy, PartialEq, Eq, Structural, Debug)]
pub enum ParseOutcome {
    Accepted,
    Failed(ParseError),
}

/// True of the one outcome after which the stacks are deliberately left
/// out of step: a reduction whose semantic action was never registered.
pub open spec fn outcome_broke_stacks(r: ParseOutcome) -> bool {
    match r {
        ParseOutcome::Failed(ParseError::MissingReduceAction { .. }) => true,
        _ => false,
    }
}

/// The outcome of one parse step.
#[derive(Clone, Copy, PartialEq, Eq, Structural, Debug)]
pub enum StepOutcome {
    Continue,
    Accepted,
    Failed(ParseError),
}

/// The mathematical image of an association list: a finite map in which a
/// later entry shadows an earlier one with the same key.
pub open spec fn amap<K, V>(s: Seq<(K, V)>) -> Map<K, V>
    decreases s.len(),
{
    if s.len() == 0 {
        Map::empty()
    } else {
        amap(s.drop_last()).insert(s.last().0, s.last().1)
    }
}

/// Optional lookup in a finite map.
pub open spec fn map_opt<K, V>(m: Map<K, V>, k: K) -> Option<V> {
    if m.contains_key(k) {
        Some(m[k])
    } else {
        None
    }
}

proof fn lemma_amap_skip_absent<K, V>(s: Seq<(K, V)>, k: int, key: K)
    requires
        0 <= k <= s.len(),
        forall|j: int| k <= j < s.len() ==> (#[trigger] s[j]).0 != key,
    ensures
        amap(s).contains_key(key) == amap(s.take(k)).contains_key(key),
        amap(s).contains_key(key) ==> amap(s)[key] == amap(s.take(k))[key],
    decreases s.len() - k,
{
    if k == s.len() {
        assert(s.take(k) =~= s);
    } else {
        assert(s.last() == s[s.len() - 1]);
        assert(s.last().0 != key);
        assert forall|j: int| k <= j < s.drop_last().len() implies (#[trigger] s.drop_last()[j]).0
            != key by {
            assert(s.drop_last()[j] == s[j]);
        };
        lemma_amap_skip_absent(s.drop_last(), k, key);
        assert(s.drop_last().take(k) =~= s.take(k));
    }
}

/// Looks a key up in an association list, honouring the last matching entry.
fn alist_lookup<V: Copy>(table: &Vec<((usize, u64), V)>, q: usize, t: u64) -> (r: Option<V>)
    ensures
        r == map_opt(amap(table@), (q, t)),
{
    let mut k: usize = table.len();
    while k > 0
        invariant
            k <= table@.len(),
            forall|j: int| k <= j < table@.len() ==> (#[trigger] table@[j]).0 != (q, t),
        decreases k,
    {
        let (kk, vv) = table[k - 1];
        if kk.0 == q && kk.1 == t {
            proof {
                lemma_amap_skip_absent(table@, k as int, (q, t));
                assert(table@.take(k as int).last() == table@[k - 1]);
                assert(table@.take(k as int).len() > 0);
                assert(amap(table@.take(k as int)) == amap(
                    table@.take(k as int).drop_last(),
                ).insert((q, t), vv));
            }
            return Some(vv);
        }
        k = k - 1;
    }
    proof {
        lemma_amap_skip_absent(table@, 0, (q, t));
        assert(table@.take(0) =~= Seq::<((usize, u64), V)>::empty());
        assert(!amap(table@.take(0)).contains_key((q, t)));
    }
    None
}

/// Records a key and value; at the map level this is an insert, the new
/// entry shadowing any earlier one with the same key.
fn alist_insert<V>(table: &mut Vec<((usize, u64), V)>, q: usize, t: u64, v: V)
    ensures
        amap(final(table)@) == amap(old(table)@).insert((q, t), v),
        final(table)@.len() == old(table)@.len() + 1,
{
    table.push(((q, t), v));
    proof {
        assert(table@.drop_last() =~= old(table)@);
    }
}

/// A compiled LR(0) parser: the action and goto tables, the rule table for
/// reductions, and the live state of a parse (state stack, semantic-value
/// stack, remaining input).
pub struct LR0Parser<NTV, TV> {
    pub input: Vec<TV>,
    pub action_table: Vec<((usize, u64), ActionKind)>,
    pub goto_table: Vec<((usize, u64), usize)>,
    pub stack: Vec<usize>,
    pub rule_table: Vec<LR0Item>,
    pub value_stack: Vec<ValueStackSymbol<NTV, TV>>,
}

impl<NTV, TV> LR0Parser<NTV, TV> {
    /// The action table as a finite map.
    pub open spec fn action_map(&self) -> Map<(usize, u64), ActionKind> {
        amap(self.action_table@)
    }

    /// The goto table as a finite map.
    pub open spec fn goto_map(&self) -> Map<(usize, u64), usize> {
        amap(self.goto_table@)
    }

    /// The stack discipline of a healthy parse: the state stack carries one
    /// bottom sentinel more than the semantic-value stack.
    pub open spec fn wf(&self) -> bool {
        self.stack@.len() == self.value_stack@.len() + 1
    }

    /// Clears the input and resets the state stack to the bottom state.
    pub fn reset(&mut self)
        ensures
            final(self).input@.len() == 0,
            final(self).stack@ == seq![0usize],
            final(self).action_table@ == old(self).action_table@,
            final(self).goto_table@ == old(self).goto_table@,
            final(self).rule_table@ == old(self).rule_table@,
            final(self).value_stack@ == old(self).value_stack@,
    {
        self.input = Vec::new();
        let mut st: Vec<usize> = Vec::new();
        st.push(0);
        proof {
            assert(st@ =~= seq![0usize]);
        }
        self.stack = st;
    }

    /// Loads a token sequence to parse, clearing the semantic-value stack;
    /// the tables and the state stack are kept.
    pub fn input(self, input: Vec<TV>) -> (r: Self)
        ensures
            r.input@ == input@,
            r.value_stack@.len() == 0,
            r.action_table@ == self.action_table@,
            r.goto_table@ == self.goto_table@,
            r.stack@ == self.stack@,
            r.rule_table@ == self.rule_table@,
    {
        Self {
            input,
            action_table: self.action_table,
            goto_table: self.goto_table,
            stack: self.stack,
            rule_table: self.rule_table,
            value_stack: Vec::new(),
        }
    }

    /// Pops the synthesized root value after an accepted parse; `None` when
    /// the value stack is empty.
    pub fn get_syntax_tree(&mut self) -> (r: Option<ValueStackSymbol<NTV, TV>>)
        ensures
            final(self).input@ == old(self).input@,
            final(self).action_table@ == old(self).action_table@,
            final(self).goto_table@ == old(self).goto_table@,
            final(self).stack@ == old(self).stack@,
            final(self).rule_table@ == old(self).rule_table@,
            old(self).value_stack@.len() == 0 ==> r is None && final(self).value_stack@ == old(
                self,
            ).value_stack@,
            old(self).value_stack@.len() > 0 ==> r == Some(old(self).value_stack@.last())
                && final(self).value_stack@ == old(self).value_stack@.drop_last(),
    {
        self.value_stack.pop()
    }

    /// Removes the topmost `n` semantic values and hands them back in their
    /// original left-to-right order: exactly what a reduction's callback
    /// receives, one value per right-hand-side symbol.
    pub fn split_reduce_args(&mut self, n: usize) -> (args: Vec<ValueStackSymbol<NTV, TV>>)
        requires
            n <= old(self).value_stack@.len(),
        ensures
            args@.len() == n,
            args@ == old(self).value_stack@.subrange(
                old(self).value_stack@.len() - n,
                old(self).value_stack@.len() as int,
            ),
            final(self).value_stack@ == old(self).value_stack@.take(
                old(self).value_stack@.len() - n,
            ),
            final(self).input@ == old(self).input@,
            final(self).action_table@ == old(self).action_table@,
            final(self).goto_table@ == old(self).goto_table@,
            final(self).stack@ == old(self).stack@,
            final(self).rule_table@ == old(self).rule_table@,
    {
        let at = self.value_stack.len() - n;
        let args = self.value_stack.split_off(at);
        proof {
            assert(self.value_stack@ =~= old(self).value_stack@.take(
                old(self).value_stack@.len() - n,
            ));
        }
        args
    }
}

/// The outcome of a reduce action `ri` taken from configuration `pre` to
/// configuration `post`: the rule index and its item are validated, the
/// matched states are popped, the goto state is entered, and the reduction
/// callback's synthesized value replaces the popped semantic values.
pub open spec fn reduce_post<NTV, TV>(
    pre: LR0Parser<NTV, TV>,
    post: LR0Parser<NTV, TV>,
    ri: usize,
    r: StepOutcome,
) -> bool {
    if ri >= pre.rule_table@.len() || !crate::item_set::item_complete(pre.rule_table@[ri as int]@) {
        r == StepOutcome::Failed(ParseError::BadRule { rule: ri }) && post == pre
    } else {
        let n = pre.rule_table@[ri as int]@.right.len();
        if n >= pre.stack@.len() {
            r == StepOutcome::Failed(ParseError::StackUnderflow) && post == pre
        } else {
            let q2 = pre.stack@[pre.stack@.len() - 1 - n];
            let left = pre.rule_table@[ri as int]@.left;
            if !pre.goto_map().contains_key((q2, left)) {
                r == StepOutcome::Failed(
                    ParseError::MissingGoto { state: q2, nonterm: left },
                ) && post == pre
            } else {
                let p = pre.goto_map()[(q2, left)];
                &&& post.input@ == pre.input@
                &&& post.stack@ == pre.stack@.take(pre.stack@.len() - n).push(p)
                &&& r == StepOutcome::Continue || r == StepOutcome::Failed(
                    ParseError::MissingReduceAction { rule: ri },
                )
                &&& r == StepOutcome::Continue ==> exists|v: NTV|
                    post.value_stack@ == pre.value_stack@.take(
                        pre.value_stack@.len() - n,
                    ).push(ValueStackSymbol::NonTerm(v))
                &&& r != StepOutcome::Continue ==> post.value_stack@ == pre.value_stack@.take(
                    pre.value_stack@.len() - n,
                )
            }
        }
    }
}

/// The outcome of one parse step from configuration `pre` to configuration
/// `post` on token kind `kind`: the action dictated by the table for the
/// current state decides between shift, reduce, accept and the error cases.
pub open spec fn step_post<NTV, TV>(
    pre: LR0Parser<NTV, TV>,
    post: LR0Parser<NTV, TV>,
    kind: u64,
    r: StepOutcome,
) -> bool {
    let q = pre.stack@.last();
    if !pre.action_map().contains_key((q, kind)) {
        r == StepOutcome::Failed(ParseError::NoAction { state: q, token_kind: kind }) && post
            == pre
    } else {
        match pre.action_map()[(q, kind)] {
            ActionKind::Error => r == StepOutcome::Failed(
                ParseError::Syntax { state: q, token_kind: kind },
            ) && post == pre,
            ActionKind::Accept => r == StepOutcome::Accepted && post == pre,
            ActionKind::Shift(p) => {
                &&& r == StepOutcome::Continue
                &&& post.input@ == pre.input@.drop_first()
                &&& post.stack@ == pre.stack@.push(p)
                &&& post.value_stack@ == pre.value_stack@.push(
                    ValueStackSymbol::Term(pre.input@[0]),
                )
                &&& post.action_table@ == pre.action_table@
                &&& post.goto_table@ == pre.goto_table@
                &&& post.rule_table@ == pre.rule_table@
            },
            ActionKind::Reduce(ri) => reduce_post(pre, post, ri, r),
        }
    }
}

/// The step budget a run starts with, computed from the input length and the
/// (capped) action-table size: generous enough for every terminating parse.
pub open spec fn step_budget<NTV, TV>(p: LR0Parser<NTV, TV>) -> int {
    (p.input@.len() + 2) * ((if p.action_table@.len() > 0xFFFF_FFFF {
        0xFFFF_FFFF
    } else {
        p.action_table@.len() as int
    }) + 4)
}

/// A chain of continuing parse steps from configuration `pre`: `cfgs` are
/// the successive configurations, `cfgs[0]` being `pre`, and `kinds[j]` the
/// token kind observed at step `j`; every step is a `step_post` transition
/// with outcome `Continue`, taken with input left on a well-formed stack.
pub open spec fn run_steps<NTV, TV>(
    pre: LR0Parser<NTV, TV>,
    cfgs: Seq<LR0Parser<NTV, TV>>,
    kinds: Seq<u64>,
) -> bool {
    &&& cfgs.len() == kinds.len() + 1
    &&& cfgs[0] == pre
    &&& forall|j: int|
        0 <= j < kinds.len() ==> (#[trigger] cfgs[j]).wf() && cfgs[j].input@.len() > 0
            && step_post(cfgs[j], cfgs[j + 1], kinds[j], StepOutcome::Continue)
}

/// How a run ends in configuration `post` with outcome `r`, from the last
/// reached configuration `last` after `steps` continuing steps: acceptance
/// and each step error are one further table-dictated step, exhausted input
/// means `last` had none left, and the step limit fires only once the whole
/// budget was spent on continuing steps.
pub open spec fn run_last<NTV, TV>(
    budget: int,
    steps: int,
    last: LR0Parser<NTV, TV>,
    post: LR0Parser<NTV, TV>,
    r: ParseOutcome,
) -> bool {
    match r {
        ParseOutcome::Accepted => exists|kind: u64|
            last.wf() && last.input@.len() > 0 && #[trigger] step_post(
                last,
                post,
                kind,
                StepOutcome::Accepted,
            ),
        ParseOutcome::Failed(e) => {
            if e == ParseError::StepLimit {
                post == last && steps == budget
            } else if e == ParseError::InputExhausted {
                post == last && last.input@.len() == 0
            } else {
                exists|kind: u64|
                    last.wf() && last.input@.len() > 0 && #[trigger] step_post(
                        last,
                        post,
                        kind,
                        StepOutcome::Failed(e),
                    )
            }
        },
    }
}

/// The whole-run contract: some chain of table-dictated continuing steps
/// leads from `pre` to a last configuration from which the outcome `r` and
/// the final configuration `post` follow by `run_last`.
pub open spec fn run_post<NTV, TV>(
    pre: LR0Parser<NTV, TV>,
    post: LR0Parser<NTV, TV>,
    r: ParseOutcome,
) -> bool {
    exists|cfgs: Seq<LR0Parser<NTV, TV>>, kinds: Seq<u64>|
        #![trigger run_steps(pre, cfgs, kinds)]
        run_steps(pre, cfgs, kinds) && run_last(
            step_budget(pre),
            kinds.len() as int,
            cfgs.last(),
            post,
            r,
        )
}

impl<NTV, TV> LR0Parser<NTV, TV> {
    /// The action dictated for state `q` on token kind `t`: the recorded
    /// table entry, or the error action when no entry exists.
    pub open spec fn table_action(&self, q: usize, t: u64) -> ActionKind {
        if self.action_map().contains_key((q, t)) {
            self.action_map()[(q, t)]
        } else {
            ActionKind::Error
        }
    }

    /// Executes one parse step for the next input token, given its kind:
    /// looks up the action for the current state and applies it.
    pub fn step_kind<A: ReduceActions<NTV, TV>>(&mut self, kind: u64, actions: &A) -> (r:
        StepOutcome)
        requires
            old(self).wf(),
            old(self).input@.len() > 0,
        ensures
            final(self).action_table@ == old(self).action_table@,
            final(self).goto_table@ == old(self).goto_table@,
            final(self).rule_table@ == old(self).rule_table@,
            step_post(*old(self), *final(self), kind, r),
    {
        let q = self.stack[self.stack.len() - 1];
        let act = alist_lookup(&self.action_table, q, kind);
        match act {
            None => StepOutcome::Failed(ParseError::NoAction { state: q, token_kind: kind }),
            Some(ActionKind::Error) => StepOutcome::Failed(
                ParseError::Syntax { state: q, token_kind: kind },
            ),
            Some(ActionKind::Accept) => StepOutcome::Accepted,
            Some(ActionKind::Shift(p)) => {
                self.stack.push(p);
                let value = self.input.remove(0);
                self.value_stack.push(ValueStackSymbol::Term(value));
                proof {
                    assert(self.input@ =~= old(self).input@.drop_first());
                }
                StepOutcome::Continue
            },
            Some(ActionKind::Reduce(ri)) => {
                if ri >= self.rule_table.len() {
                    return StepOutcome::Failed(ParseError::BadRule { rule: ri });
                }
                let n = self.rule_table[ri].right.len();
                if self.rule_table[ri].dot_pos != n {
                    return StepOutcome::Failed(ParseError::BadRule { rule: ri });
                }
                if n >= self.stack.len() {
                    return StepOutcome::Failed(ParseError::StackUnderflow);
                }
                let q2 = self.stack[self.stack.len() - 1 - n];
                let left = self.rule_table[ri].left;
                let lg = alist_lookup(&self.goto_table, q2, left);
                match lg {
                    None => StepOutcome::Failed(
                        ParseError::MissingGoto { state: q2, nonterm: left },
                    ),
                    Some(p) => {
                        let ghost stack0 = self.stack@;
                        let mut k: usize = 0;
                        while k < n
                            invariant
                                k <= n,
                                n < stack0.len(),
                                self.stack@ == stack0.take(stack0.len() - k),
                                self.input@ == old(self).input@,
                                self.value_stack@ == old(self).value_stack@,
                                self.action_table@ == old(self).action_table@,
                                self.goto_table@ == old(self).goto_table@,
                                self.rule_table@ == old(self).rule_table@,
                            decreases n - k,
                        {
                            self.stack.pop();
                            proof {
                                assert(stack0.take(stack0.len() - k).drop_last() =~= stack0.take(
                                    stack0.len() - (k + 1),
                                ));
                            }
                            k = k + 1;
                        }
                        self.stack.push(p);
                        let args = self.split_reduce_args(n);
                        let res = actions.reduce(&self.rule_table[ri], args);
                        match res {
                            None => StepOutcome::Failed(
                                ParseError::MissingReduceAction { rule: ri },
                            ),
                            Some(v) => {
                                self.value_stack.push(ValueStackSymbol::NonTerm(v));
                                StepOutcome::Continue
                            },
                        }
                    },
                }
            },
        }
    }

    /// Runs the shift-reduce interpreter over the loaded input until it
    /// accepts or fails: a pure left-to-right, single-pass loop that takes
    /// exactly the action the table dictates at every step, as `run_post`
    /// states: a chain of `step_post` transitions on the observed token
    /// kinds leads to the final configuration and outcome. A generous step
    /// budget guarantees termination even against a malformed table; the
    /// tables themselves are never modified, so the parser stays valid for
    /// later runs.
    pub fn run<A: ReduceActions<NTV, TV>>(&mut self, actions: &A) -> (r: ParseOutcome) where
        TV: IntoKind<u64>,

        requires
            old(self).wf(),
        ensures
            final(self).action_table@ == old(self).action_table@,
            final(self).goto_table@ == old(self).goto_table@,
            final(self).rule_table@ == old(self).rule_table@,
            !outcome_broke_stacks(r) ==> final(self).wf(),
            run_post(*old(self), *final(self), r),
            old(self).input@.len() == 0 ==> r == ParseOutcome::Failed(ParseError::InputExhausted),
            r == ParseOutcome::Failed(ParseError::InputExhausted) ==> final(self).input@.len()
                == 0,
    {
        let tlen = self.action_table.len();
        let tcap: usize = if tlen > 0xFFFF_FFFFusize {
            0xFFFF_FFFFusize
        } else {
            tlen
        };
        let li = self.input.len();
        proof {
            assert((li as u128 + 2) * (tcap as u128 + 4) <= u128::MAX) by (nonlinear_arith)
                requires
                    li as u128 <= 0xFFFF_FFFF_FFFF_FFFFu128,
                    tcap as u128 <= 0xFFFF_FFFFu128,
            ;
        }
        let mut fuel: u128 = (li as u128 + 2) * (tcap as u128 + 4);
        let ghost mut cfgs: Seq<LR0Parser<NTV, TV>> = seq![*self];
        let ghost mut kinds: Seq<u64> = Seq::empty();
        proof {
            assert(fuel as int == step_budget(*old(self)));
            assert((li as u128 + 2) * (tcap as u128 + 4) >= 2) by (nonlinear_arith);
        }
        loop
            invariant
                self.wf(),
                self.action_table@ == old(self).action_table@,
                self.goto_table@ == old(self).goto_table@,
                self.rule_table@ == old(self).rule_table@,
                cfgs.len() == kinds.len() + 1,
                cfgs[0] == *old(self),
                cfgs.last() == *self,
                forall|j: int|
                    0 <= j < kinds.len() ==> (#[trigger] cfgs[j]).wf() && cfgs[j].input@.len() > 0
                        && step_post(cfgs[j], cfgs[j + 1], kinds[j], StepOutcome::Continue),
                kinds.len() as int + fuel as int == step_budget(*old(self)),
                step_budget(*old(self)) >= 2,
                old(self).input@.len() == 0 ==> *self == *old(self),
            decreases fuel,
        {
            if fuel == 0 {
                proof {
                    assert(run_steps(*old(self), cfgs, kinds));
                    if old(self).input@.len() == 0 {
                        // An empty input admits no continuing step, yet the
                        // whole budget, at least two steps, was spent.
                        assert(kinds.len() as int == step_budget(*old(self)));
                        assert(step_budget(*old(self)) >= 2);
                        assert(cfgs[0].input@.len() > 0);
                        assert(false);
                    }
                    assert(run_last(
                        step_budget(*old(self)),
                        kinds.len() as int,
                        cfgs.last(),
                        *self,
                        ParseOutcome::Failed(ParseError::StepLimit),
                    ));
                }
                return ParseOutcome::Failed(ParseError::StepLimit);
            }
            fuel = fuel - 1;
            if self.input.len() == 0 {
                proof {
                    assert(run_steps(*old(self), cfgs, kinds));
                    assert(run_last(
                        step_budget(*old(self)),
                        kinds.len() as int,
                        cfgs.last(),
                        *self,
                        ParseOutcome::Failed(ParseError::InputExhausted),
                    ));
                }
                return ParseOutcome::Failed(ParseError::InputExhausted);
            }
            let kind = self.input[0].into_kind();
            let ghost pre = *self;
            proof {
                if old(self).input@.len() == 0 {
                    assert(pre == *old(self));
                    assert(false);
                }
            }
            let r = self.step_kind(kind, actions);
            match r {
                StepOutcome::Continue => {
                    proof {
                        let q = pre.stack@.last();
                        if pre.action_map().contains_key((q, kind)) {
                            match pre.action_map()[(q, kind)] {
                                ActionKind::Shift(_) => {},
                                ActionKind::Reduce(ri) => {
                                    assert(self.wf());
                                },
                                _ => {},
                            }
                        }
                        let oldc = cfgs;
                        let oldk = kinds;
                        cfgs = cfgs.push(*self);
                        kinds = kinds.push(kind);
                        assert forall|j: int|
                            0 <= j < kinds.len() implies (#[trigger] cfgs[j]).wf()
                            && cfgs[j].input@.len() > 0 && step_post(
                            cfgs[j],
                            cfgs[j + 1],
                            kinds[j],
                            StepOutcome::Continue,
                        ) by {
                            if j < oldk.len() {
                                assert(cfgs[j] == oldc[j] && cfgs[j + 1] == oldc[j + 1]
                                    && kinds[j] == oldk[j]);
                            } else {
                                assert(cfgs[j] == pre && cfgs[j + 1] == *self && kinds[j] == kind);
                            }
                        };
                    }
                },
                StepOutcome::Accepted => {
                    proof {
                        assert(run_steps(*old(self), cfgs, kinds));
                        assert(cfgs.last() == pre);
                        assert(pre.wf() && pre.input@.len() > 0);
                        assert(step_post(cfgs.last(), *self, kind, StepOutcome::Accepted));
                        assert(run_last(
                            step_budget(*old(self)),
                            kinds.len() as int,
                            cfgs.last(),
                            *self,
                            ParseOutcome::Accepted,
                        ));
                    }
                    return ParseOutcome::Accepted;
                },
                StepOutcome::Failed(e) => {
                    proof {
                        assert(run_steps(*old(self), cfgs, kinds));
                        assert(cfgs.last() == pre);
                        assert(pre.wf() && pre.input@.len() > 0);
                        assert(e != ParseError::StepLimit && e != ParseError::InputExhausted);
                        assert(step_post(cfgs.last(), *self, kind, StepOutcome::Failed(e)));
                        assert(run_last(
                            step_budget(*old(self)),
                            kinds.len() as int,
                            cfgs.last(),
                            *self,
                            ParseOutcome::Failed(e),
                        ));
                    }
                    return ParseOutcome::Failed(e);
                },
            }
        }
    }
}

/// A conflict found while classifying a state, carrying the state's index.
#[derive(Clone, Copy, PartialEq, Eq, Structural, Debug)]
pub enum LRConflict {
    ShiftReduce(usize),
    ReduceReduce(usize),
}

/// The introductory form of the augmented start rule `S' -> S $`.
pub open spec fn start_item0(ext: u64, start: u64, eof: u64) -> SpecItem {
    SpecItem { left: ext, right: seq![Symbol::NonTerm(start), Symbol::Term(eof)], dot_pos: 0 }
}

/// The accepting item `S' -> S $ .`.
pub open spec fn accept_item(ext: u64, start: u64, eof: u64) -> SpecItem {
    SpecItem { left: ext, right: seq![Symbol::NonTerm(start), Symbol::Term(eof)], dot_pos: 2 }
}

/// A complete item other than the accepting item: a candidate reduction.
pub open spec fn is_complete_nonaccept(it: SpecItem, accept: SpecItem) -> bool {
    item_complete(it) && it != accept
}

/// How many of the first `upto` items of a state are candidate reductions.
pub open spec fn completes_count(s: Seq<SpecItem>, accept: SpecItem, upto: int) -> int
    decreases upto,
{
    if upto <= 0 {
        0
    } else {
        completes_count(s, accept, upto - 1) + if is_complete_nonaccept(s[upto - 1], accept) {
            1int
        } else {
            0int
        }
    }
}

proof fn lemma_completes_nonneg(s: Seq<SpecItem>, accept: SpecItem, upto: int)
    ensures
        completes_count(s, accept, upto) >= 0,
    decreases upto,
{
    if upto > 0 {
        lemma_completes_nonneg(s, accept, upto - 1);
    }
}

proof fn lemma_completes_zero(s: Seq<SpecItem>, accept: SpecItem, upto: int)
    requires
        completes_count(s, accept, upto) == 0,
    ensures
        forall|p: int| 0 <= p < upto ==> !is_complete_nonaccept(#[trigger] s[p], accept),
    decreases upto,
{
    if upto > 0 {
        lemma_completes_nonneg(s, accept, upto - 1);
        lemma_completes_zero(s, accept, upto - 1);
    }
}

/// A state that holds at least one candidate reduction.
pub open spec fn is_reduce_state(s: Seq<SpecItem>, accept: SpecItem) -> bool {
    completes_count(s, accept, s.len() as int) >= 1
}

/// The first candidate reduction of a state, in item order.
pub open spec fn first_complete(s: Seq<SpecItem>, accept: SpecItem) -> SpecItem
    decreases s.len(),
{
    if s.len() == 0 {
        arbitrary()
    } else if is_complete_nonaccept(s[0], accept) {
        s[0]
    } else {
        first_complete(s.drop_first(), accept)
    }
}

proof fn lemma_first_complete_at(s: Seq<SpecItem>, accept: SpecItem, k: int)
    requires
        0 <= k < s.len(),
        is_complete_nonaccept(s[k], accept),
        forall|p: int| 0 <= p < k ==> !is_complete_nonaccept(#[trigger] s[p], accept),
    ensures
        first_complete(s, accept) == s[k],
    decreases k,
{
    if k == 0 {
    } else {
        assert(!is_complete_nonaccept(s[0], accept));
        assert(s.drop_first()[k - 1] == s[k]);
        assert forall|p: int| 0 <= p < k - 1 implies !is_complete_nonaccept(
            #[trigger] s.drop_first()[p],
            accept,
        ) by {
            assert(s.drop_first()[p] == s[p + 1]);
        };
        lemma_first_complete_at(s.drop_first(), accept, k - 1);
    }
}

/// True when some item of the state still expects a symbol, so the state has
/// outgoing edges.
pub open spec fn has_incomplete(s: Seq<SpecItem>) -> bool {
    exists|k: int| 0 <= k < s.len() && s[k].dot_pos < s[k].right.len()
}

/// How many of the first `q` states are reducing states; the dense rule
/// index assigned to state `q` is the count of its reducing predecessors.
pub open spec fn count_reduce(states: Seq<Vec<LR0Item>>, accept: SpecItem, q: int) -> int
    decreases q,
{
    if q <= 0 {
        0
    } else {
        count_reduce(states, accept, q - 1) + if is_reduce_state(views(states[q - 1]@), accept) {
            1int
        } else {
            0int
        }
    }
}

/// The conflicts reported for the first `upto` states, in state order: a
/// state with two or more candidate reductions is a reduce/reduce conflict;
/// one with a single candidate reduction and some outgoing edge is a
/// shift/reduce conflict.
pub open spec fn conflict_seq(states: Seq<Vec<LR0Item>>, accept: SpecItem, upto: int) -> Seq<
    LRConflict,
>
    decreases upto,
{
    if upto <= 0 {
        Seq::empty()
    } else {
        let pre = conflict_seq(states, accept, upto - 1);
        let s = views(states[upto - 1]@);
        if completes_count(s, accept, s.len() as int) >= 2 {
            pre.push(LRConflict::ReduceReduce((upto - 1) as usize))
        } else if completes_count(s, accept, s.len() as int) == 1 && has_incomplete(s) {
            pre.push(LRConflict::ShiftReduce((upto - 1) as usize))
        } else {
            pre
        }
    }
}

/// True when some discovered state holds the item.
pub open spec fn has_state_containing(states: Seq<Vec<LR0Item>>, it: SpecItem) -> bool {
    exists|q: int| 0 <= q < states.len() && (#[trigger] set_seq(states)[q]).contains(it)
}

/// The index of the first state holding the item.
pub open spec fn first_containing(states: Seq<Vec<LR0Item>>, it: SpecItem) -> int
    decreases states.len(),
{
    if states.len() == 0 {
        0
    } else if iset(states[0]@).contains(it) {
        0
    } else {
        1 + first_containing(states.drop_first(), it)
    }
}

proof fn lemma_first_containing_at(states: Seq<Vec<LR0Item>>, it: SpecItem, k: int)
    requires
        0 <= k < states.len(),
        set_seq(states)[k].contains(it),
        forall|p: int| 0 <= p < k ==> !(#[trigger] set_seq(states)[p]).contains(it),
    ensures
        first_containing(states, it) == k,
    decreases k,
{
    if k == 0 {
        assert(iset(states[0]@).contains(it));
    } else {
        assert(set_seq(states)[0] == iset(states[0]@));
        assert(!iset(states[0]@).contains(it));
        assert(states.drop_first()[k - 1] == states[k]);
        assert(set_seq(states.drop_first())[k - 1] == iset(states[k]@));
        assert(set_seq(states)[k] == iset(states[k]@));
        assert forall|p: int| 0 <= p < k - 1 implies !(#[trigger] set_seq(
            states.drop_first(),
        )[p]).contains(it) by {
            assert(states.drop_first()[p] == states[p + 1]);
            assert(set_seq(states.drop_first())[p] == iset(states[p + 1]@));
            assert(set_seq(states)[p + 1] == iset(states[p + 1]@));
        };
        lemma_first_containing_at(states.drop_first(), it, k - 1);
    }
}

/// The unique index of the state whose item set is `s`.
pub open spec fn state_index_of(states: Seq<Vec<LR0Item>>, s: Set<SpecItem>) -> int {
    choose|p: int| 0 <= p < states.len() && set_seq(states)[p] == s
}

/// Finds the index of the state holding exactly the item set of `st`.
fn find_state(states: &Vec<Vec<LR0Item>>, st: &Vec<LR0Item>) -> (r: usize)
    requires
        distinct_sets(set_seq(states@)),
        states_fam(states@).contains(iset(st@)),
    ensures
        r < states@.len(),
        set_seq(states@)[r as int] == iset(st@),
        r as int == state_index_of(states@, iset(st@)),
{
    let mut q: usize = 0;
    proof {
        assert(set_seq(states@).contains(iset(st@)));
    }
    while q < states.len()
        invariant
            q <= states@.len(),
            distinct_sets(set_seq(states@)),
            set_seq(states@).contains(iset(st@)),
            forall|p: int| 0 <= p < q ==> set_seq(states@)[p] != iset(st@),
        decreases states@.len() - q,
    {
        if item_set_eq(states[q].as_slice(), st.as_slice()) {
            proof {
                assert(set_seq(states@)[q as int] == iset(st@));
                let c = state_index_of(states@, iset(st@));
                assert(0 <= c < states@.len() && set_seq(states@)[c] == iset(st@));
                assert(c == q as int);
            }
            return q;
        }
        q = q + 1;
    }
    proof {
        let w = choose|p: int| 0 <= p < set_seq(states@).len() && set_seq(states@)[p] == iset(st@);
        assert(false);
    }
    0
}

/// Counts a state's candidate reductions, finds the first one, and tests
/// for outgoing edges.
fn classify_state(state: &Vec<LR0Item>, accept_rule: &LR0Item) -> (r: (usize, usize, bool))
    ensures
        r.0 as int == completes_count(views(state@), accept_rule@, state@.len() as int),
        r.0 >= 1 ==> r.1 < state@.len() && views(state@)[r.1 as int] == first_complete(
            views(state@),
            accept_rule@,
        ),
        r.2 == has_incomplete(views(state@)),
{
    let mut cnt: usize = 0;
    let mut first: usize = 0;
    let mut inc = false;
    let mut k: usize = 0;
    while k < state.len()
        invariant
            k <= state@.len(),
            cnt as int == completes_count(views(state@), accept_rule@, k as int),
            cnt <= k,
            cnt >= 1 ==> first < k && views(state@)[first as int] == first_complete(
                views(state@),
                accept_rule@,
            ),
            inc == (exists|m: int|
                0 <= m < k && (#[trigger] views(state@)[m]).dot_pos < views(
                    state@,
                )[m].right.len()),
        decreases state@.len() - k,
    {
        proof {
            assert(views(state@)[k as int] == state@[k as int]@);
        }
        if state[k].dot_pos < state[k].right.len() {
            inc = true;
        }
        let complete = state[k].dot_pos == state[k].right.len();
        let is_acc = state[k] == *accept_rule;
        if complete && !is_acc {
            if cnt == 0 {
                first = k;
                proof {
                    lemma_completes_zero(views(state@), accept_rule@, k as int);
                    lemma_first_complete_at(views(state@), accept_rule@, k as int);
                }
            }
            proof {
                assert(is_complete_nonaccept(views(state@)[k as int], accept_rule@));
            }
            cnt = cnt + 1;
        } else {
            proof {
                assert(!is_complete_nonaccept(views(state@)[k as int], accept_rule@));
            }
        }
        k = k + 1;
    }
    (cnt, first, inc)
}

/// Maps every given terminal, in the given state, to the reduction of the
/// rule with the given dense index.
fn insert_reduces(action: &mut Vec<((usize, u64), ActionKind)>, q: usize, terms: &[u64], rno: usize)
    ensures
        forall|t: u64|
            #[trigger] terms@.contains(t) ==> amap(final(action)@).contains_key((q, t)) && amap(
                final(action)@,
            )[(q, t)] == ActionKind::Reduce(rno),
        forall|k: (usize, u64)|
            !(k.0 == q && terms@.contains(k.1)) ==> #[trigger] map_opt(amap(final(action)@), k)
                == map_opt(amap(old(action)@), k),
{
    let mut ti: usize = 0;
    while ti < terms.len()
        invariant
            ti <= terms@.len(),
            forall|t: u64|
                #[trigger] terms@.take(ti as int).contains(t) ==> amap(
                    action@,
                ).contains_key((q, t)) && amap(action@)[(q, t)] == ActionKind::Reduce(rno),
            forall|k: (usize, u64)|
                !(k.0 == q && terms@.take(ti as int).contains(k.1)) ==> #[trigger] map_opt(
                    amap(action@),
                    k,
                ) == map_opt(amap(old(action)@), k),
        decreases terms@.len() - ti,
    {
        let t = terms[ti];
        let ghost a_prev = action@;
        alist_insert(action, q, t, ActionKind::Reduce(rno));
        proof {
            assert(amap(action@) == amap(a_prev).insert((q, t), ActionKind::Reduce(rno)));
            assert(terms@.take(ti + 1) =~= terms@.take(ti as int).push(t));
            assert forall|t2: u64| #[trigger] terms@.take(ti + 1).contains(t2) implies amap(
                action@,
            ).contains_key((q, t2)) && amap(action@)[(q, t2)] == ActionKind::Reduce(rno) by {
                if t2 != t && terms@.take(ti as int).contains(t2) {
                    assert((q, t2) != (q, t));
                }
            };
            assert forall|k: (usize, u64)|
                !(k.0 == q && terms@.take(ti + 1).contains(k.1)) implies #[trigger] map_opt(
                amap(action@),
                k,
            ) == map_opt(amap(old(action)@), k) by {
                assert(terms@.take(ti + 1)[ti as int] == t);
                assert(terms@.take(ti + 1).contains(t));
                assert(!(k.0 == q && terms@.take(ti as int).contains(k.1)));
                if k.0 == q {
                    assert(k.1 != t);
                }
                assert(k != (q, t));
                assert(map_opt(amap(a_prev), k) == map_opt(amap(old(action)@), k));
                assert(amap(action@).contains_key(k) == amap(a_prev).contains_key(k));
            };
        }
        ti = ti + 1;
    }
    proof {
        assert(terms@.take(terms@.len() as int) =~= terms@);
    }
}

/// True when transition record `e` leaves state `q` on terminal `t`.
pub open spec fn entry_matches_term(
    states: Seq<Vec<LR0Item>>,
    e: DeltaEntry,
    q: int,
    t: u64,
) -> bool {
    0 <= q < states.len() && iset(e.0.0@) == set_seq(states)[q] && e.0.1 == Symbol::Term(t)
}

/// True when transition record `e` leaves state `q` on non-terminal `n`.
pub open spec fn entry_matches_nt(
    states: Seq<Vec<LR0Item>>,
    e: DeltaEntry,
    q: int,
    n: u64,
) -> bool {
    0 <= q < states.len() && iset(e.0.0@) == set_seq(states)[q] && e.0.1 == Symbol::NonTerm(n)
}

/// The action a transition record compiles to: accept when the target holds
/// the accepting item, else a shift to the target state's index.
pub open spec fn entry_action(
    states: Seq<Vec<LR0Item>>,
    e: DeltaEntry,
    accept: SpecItem,
) -> ActionKind {
    if iset(e.1@).contains(accept) {
        ActionKind::Accept
    } else {
        ActionKind::Shift(state_index_of(states, iset(e.1@)) as usize)
    }
}

/// Pairwise functional transitions: equal source item set and symbol give
/// equal target item sets.
pub open spec fn delta_functional(delta: Seq<DeltaEntry>) -> bool {
    forall|i: int, j: int|
        0 <= i < delta.len() && 0 <= j < delta.len() && iset((#[trigger] delta[i]).0.0@) == iset(
            (#[trigger] delta[j]).0.0@,
        ) && delta[i].0.1 == delta[j].0.1 ==> iset(delta[i].1@) == iset(delta[j].1@)
}

/// The reduce-phase action for state `q` and terminal `t`, after the first
/// `upto` states were classified.
pub open spec fn reduce_at(
    states: Seq<Vec<LR0Item>>,
    accept: SpecItem,
    terms: Seq<u64>,
    upto: int,
    q: int,
    t: u64,
) -> Option<ActionKind> {
    if 0 <= q < upto && is_reduce_state(views(states[q]@), accept) && terms.contains(t) {
        Some(ActionKind::Reduce(count_reduce(states, accept, q) as usize))
    } else {
        None
    }
}

/// The compiled action for state `q` and terminal `t`, after the first `di`
/// transition records: a recorded edge wins, and shadows the reduce default
/// that a reducing state assigns to every terminal of the alphabet.
pub open spec fn action_at(
    states: Seq<Vec<LR0Item>>,
    delta: Seq<DeltaEntry>,
    accept: SpecItem,
    terms: Seq<u64>,
    di: int,
    q: int,
    t: u64,
) -> Option<ActionKind> {
    if exists|i: int| 0 <= i < di && entry_matches_term(states, #[trigger] delta[i], q, t) {
        let i = choose|i: int| 0 <= i < di && entry_matches_term(states, #[trigger] delta[i], q, t);
        Some(entry_action(states, delta[i], accept))
    } else {
        reduce_at(states, accept, terms, states.len() as int, q, t)
    }
}

/// The compiled goto entry for state `q` and non-terminal `n`, after the
/// first `di` transition records.
pub open spec fn goto_at(
    states: Seq<Vec<LR0Item>>,
    delta: Seq<DeltaEntry>,
    di: int,
    q: int,
    n: u64,
) -> Option<usize> {
    if exists|i: int| 0 <= i < di && entry_matches_nt(states, #[trigger] delta[i], q, n) {
        let i = choose|i: int| 0 <= i < di && entry_matches_nt(states, #[trigger] delta[i], q, n);
        Some(state_index_of(states, iset(delta[i].1@)) as usize)
    } else {
        None
    }
}

proof fn lemma_entry_action_agree(
    states: Seq<Vec<LR0Item>>,
    delta: Seq<DeltaEntry>,
    accept: SpecItem,
    i: int,
    j: int,
    q: int,
    t: u64,
)
    requires
        delta_functional(delta),
        0 <= i < delta.len(),
        0 <= j < delta.len(),
        entry_matches_term(states, delta[i], q, t),
        entry_matches_term(states, delta[j], q, t),
    ensures
        entry_action(states, delta[i], accept) == entry_action(states, delta[j], accept),
{
    assert(iset(delta[i].0.0@) == iset(delta[j].0.0@));
    assert(iset(delta[i].1@) == iset(delta[j].1@));
}

proof fn lemma_entry_dst_agree_nt(
    states: Seq<Vec<LR0Item>>,
    delta: Seq<DeltaEntry>,
    i: int,
    j: int,
    q: int,
    n: u64,
)
    requires
        delta_functional(delta),
        0 <= i < delta.len(),
        0 <= j < delta.len(),
        entry_matches_nt(states, delta[i], q, n),
        entry_matches_nt(states, delta[j], q, n),
    ensures
        iset(delta[i].1@) == iset(delta[j].1@),
{
    assert(iset(delta[i].0.0@) == iset(delta[j].0.0@));
}

/// Applying the transition record `delta[i]` on terminal `t` moves the
/// action map from the `i`-entry characterisation to the `i + 1` one.
#[verifier::rlimit(30)]
proof fn lemma_action_char_step_term(
    states: Seq<Vec<LR0Item>>,
    delta: Seq<DeltaEntry>,
    accept: SpecItem,
    terms: Seq<u64>,
    i: int,
    qf: usize,
    t: u64,
    m_prev: Map<(usize, u64), ActionKind>,
    m_new: Map<(usize, u64), ActionKind>,
)
    requires
        distinct_sets(set_seq(states)),
        delta_functional(delta),
        0 <= i < delta.len(),
        entry_matches_term(states, delta[i], qf as int, t),
        m_new == m_prev.insert((qf, t), entry_action(states, delta[i], accept)),
        forall|q2: usize, t2: u64|
            #[trigger] map_opt(m_prev, (q2, t2)) == action_at(
                states,
                delta,
                accept,
                terms,
                i,
                q2 as int,
                t2,
            ),
    ensures
        forall|q2: usize, t2: u64|
            #[trigger] map_opt(m_new, (q2, t2)) == action_at(
                states,
                delta,
                accept,
                terms,
                i + 1,
                q2 as int,
                t2,
            ),
{
    assert forall|q2: usize, t2: u64| #[trigger] map_opt(m_new, (q2, t2)) == action_at(
        states,
        delta,
        accept,
        terms,
        i + 1,
        q2 as int,
        t2,
    ) by {
        if q2 == qf && t2 == t {
            assert(map_opt(m_new, (q2, t2)) == Some(entry_action(states, delta[i], accept)));
            assert(entry_matches_term(states, delta[i], q2 as int, t2));
            assert(exists|i2: int|
                0 <= i2 < i + 1 && entry_matches_term(states, #[trigger] delta[i2], q2 as int, t2));
            let i0 = choose|i2: int|
                0 <= i2 < i + 1 && entry_matches_term(states, #[trigger] delta[i2], q2 as int, t2);
            lemma_entry_action_agree(states, delta, accept, i0, i, q2 as int, t2);
        } else {
            assert((q2, t2) != (qf, t));
            assert(map_opt(m_new, (q2, t2)) == map_opt(m_prev, (q2, t2)));
            if exists|i2: int|
                0 <= i2 < i + 1 && entry_matches_term(states, #[trigger] delta[i2], q2 as int, t2) {
                let i0 = choose|i2: int|
                    0 <= i2 < i + 1 && entry_matches_term(
                        states,
                        #[trigger] delta[i2],
                        q2 as int,
                        t2,
                    );
                if i0 == i {
                    assert(set_seq(states)[q2 as int] == iset(delta[i].0.0@));
                    assert(set_seq(states)[q2 as int] == set_seq(states)[qf as int]);
                    assert(q2 as int == qf as int);
                    assert(Symbol::Term(t2) == Symbol::Term(t));
                    assert(false);
                }
                assert(exists|i2: int|
                    0 <= i2 < i && entry_matches_term(states, #[trigger] delta[i2], q2 as int, t2));
                let i1 = choose|i2: int|
                    0 <= i2 < i && entry_matches_term(states, #[trigger] delta[i2], q2 as int, t2);
                lemma_entry_action_agree(states, delta, accept, i0, i1, q2 as int, t2);
            } else {
                assert(!(exists|i2: int|
                    0 <= i2 < i && entry_matches_term(
                        states,
                        #[trigger] delta[i2],
                        q2 as int,
                        t2,
                    )));
            }
        }
    };
}

/// A transition record on a non-terminal leaves the action map's
/// characterisation unchanged, stepping its entry bound to `i + 1`.
proof fn lemma_action_char_step_nt(
    states: Seq<Vec<LR0Item>>,
    delta: Seq<DeltaEntry>,
    accept: SpecItem,
    terms: Seq<u64>,
    i: int,
    m: Map<(usize, u64), ActionKind>,
)
    requires
        delta_functional(delta),
        0 <= i < delta.len(),
        delta[i].0.1 is NonTerm,
        forall|q2: usize, t2: u64|
            #[trigger] map_opt(m, (q2, t2)) == action_at(
                states,
                delta,
                accept,
                terms,
                i,
                q2 as int,
                t2,
            ),
    ensures
        forall|q2: usize, t2: u64|
            #[trigger] map_opt(m, (q2, t2)) == action_at(
                states,
                delta,
                accept,
                terms,
                i + 1,
                q2 as int,
                t2,
            ),
{
    assert forall|q2: usize, t2: u64| #[trigger] map_opt(m, (q2, t2)) == action_at(
        states,
        delta,
        accept,
        terms,
        i + 1,
        q2 as int,
        t2,
    ) by {
        if exists|i2: int|
            0 <= i2 < i + 1 && entry_matches_term(states, #[trigger] delta[i2], q2 as int, t2) {
            let i0 = choose|i2: int|
                0 <= i2 < i + 1 && entry_matches_term(states, #[trigger] delta[i2], q2 as int, t2);
            assert(i0 != i);
            assert(exists|i2: int|
                0 <= i2 < i && entry_matches_term(states, #[trigger] delta[i2], q2 as int, t2));
            let i1 = choose|i2: int|
                0 <= i2 < i && entry_matches_term(states, #[trigger] delta[i2], q2 as int, t2);
            lemma_entry_action_agree(states, delta, accept, i0, i1, q2 as int, t2);
        } else {
            assert(!(exists|i2: int|
                0 <= i2 < i && entry_matches_term(states, #[trigger] delta[i2], q2 as int, t2)));
        }
    };
}

/// Applying the transition record `delta[i]` on non-terminal `n` moves the
/// goto map from the `i`-entry characterisation to the `i + 1` one.
#[verifier::rlimit(30)]
proof fn lemma_goto_char_step_nt(
    states: Seq<Vec<LR0Item>>,
    delta: Seq<DeltaEntry>,
    i: int,
    qf: usize,
    n: u64,
    qd: usize,
    m_prev: Map<(usize, u64), usize>,
    m_new: Map<(usize, u64), usize>,
)
    requires
        distinct_sets(set_seq(states)),
        delta_functional(delta),
        0 <= i < delta.len(),
        entry_matches_nt(states, delta[i], qf as int, n),
        qd as int == state_index_of(states, iset(delta[i].1@)),
        m_new == m_prev.insert((qf, n), qd),
        forall|q2: usize, n2: u64|
            #[trigger] map_opt(m_prev, (q2, n2)) == goto_at(states, delta, i, q2 as int, n2),
    ensures
        forall|q2: usize, n2: u64|
            #[trigger] map_opt(m_new, (q2, n2)) == goto_at(states, delta, i + 1, q2 as int, n2),
{
    assert forall|q2: usize, n2: u64| #[trigger] map_opt(m_new, (q2, n2)) == goto_at(
        states,
        delta,
        i + 1,
        q2 as int,
        n2,
    ) by {
        if q2 == qf && n2 == n {
            assert(map_opt(m_new, (q2, n2)) == Some(qd));
            assert(entry_matches_nt(states, delta[i], q2 as int, n2));
            assert(exists|i2: int|
                0 <= i2 < i + 1 && entry_matches_nt(states, #[trigger] delta[i2], q2 as int, n2));
            let i0 = choose|i2: int|
                0 <= i2 < i + 1 && entry_matches_nt(states, #[trigger] delta[i2], q2 as int, n2);
            lemma_entry_dst_agree_nt(states, delta, i0, i, q2 as int, n2);
        } else {
            assert((q2, n2) != (qf, n));
            assert(map_opt(m_new, (q2, n2)) == map_opt(m_prev, (q2, n2)));
            if exists|i2: int|
                0 <= i2 < i + 1 && entry_matches_nt(states, #[trigger] delta[i2], q2 as int, n2) {
                let i0 = choose|i2: int|
                    0 <= i2 < i + 1 && entry_matches_nt(states, #[trigger] delta[i2], q2 as int, n2);
                if i0 == i {
                    assert(set_seq(states)[q2 as int] == set_seq(states)[qf as int]);
                    assert(q2 as int == qf as int);
                    assert(Symbol::NonTerm(n2) == Symbol::NonTerm(n));
                    assert(false);
                }
                assert(exists|i2: int|
                    0 <= i2 < i && entry_matches_nt(states, #[trigger] delta[i2], q2 as int, n2));
                let i1 = choose|i2: int|
                    0 <= i2 < i && entry_matches_nt(states, #[trigger] delta[i2], q2 as int, n2);
                lemma_entry_dst_agree_nt(states, delta, i0, i1, q2 as int, n2);
            } else {
                assert(!(exists|i2: int|
                    0 <= i2 < i && entry_matches_nt(states, #[trigger] delta[i2], q2 as int, n2)));
            }
        }
    };
}

/// A transition record on a terminal leaves the goto map's characterisation
/// unchanged, stepping its entry bound to `i + 1`.
proof fn lemma_goto_char_step_term(
    states: Seq<Vec<LR0Item>>,
    delta: Seq<DeltaEntry>,
    i: int,
    m: Map<(usize, u64), usize>,
)
    requires
        delta_functional(delta),
        0 <= i < delta.len(),
        delta[i].0.1 is Term,
        forall|q2: usize, n2: u64|
            #[trigger] map_opt(m, (q2, n2)) == goto_at(states, delta, i, q2 as int, n2),
    ensures
        forall|q2: usize, n2: u64|
            #[trigger] map_opt(m, (q2, n2)) == goto_at(states, delta, i + 1, q2 as int, n2),
{
    assert forall|q2: usize, n2: u64| #[trigger] map_opt(m, (q2, n2)) == goto_at(
        states,
        delta,
        i + 1,
        q2 as int,
        n2,
    ) by {
        if exists|i2: int|
            0 <= i2 < i + 1 && entry_matches_nt(states, #[trigger] delta[i2], q2 as int, n2) {
            let i0 = choose|i2: int|
                0 <= i2 < i + 1 && entry_matches_nt(states, #[trigger] delta[i2], q2 as int, n2);
            assert(i0 != i);
            assert(exists|i2: int|
                0 <= i2 < i && entry_matches_nt(states, #[trigger] delta[i2], q2 as int, n2));
            let i1 = choose|i2: int|
                0 <= i2 < i && entry_matches_nt(states, #[trigger] delta[i2], q2 as int, n2);
            lemma_entry_dst_agree_nt(states, delta, i0, i1, q2 as int, n2);
        } else {
            assert(!(exists|i2: int|
                0 <= i2 < i && entry_matches_nt(states, #[trigger] delta[i2], q2 as int, n2)));
        }
    };
}

/// The full contract of table compilation: the parser starts in the state
/// holding the augmented start item, its rule table lists each reducing
/// state's first candidate reduction under its dense index, its action and
/// goto maps hold exactly the compiled classification, and the conflicts are
/// reported in state order.
pub open spec fn table_post<NTV, TV>(
    states: Seq<Vec<LR0Item>>,
    delta: Seq<DeltaEntry>,
    ext: u64,
    start: u64,
    eof: u64,
    terms: Seq<u64>,
    p: LR0Parser<NTV, TV>,
    conflicts: Seq<LRConflict>,
) -> bool {
    let accept = accept_item(ext, start, eof);
    &&& p.input@.len() == 0
    &&& p.value_stack@.len() == 0
    &&& p.stack@.len() == 1
    &&& p.stack@[0] as int == first_containing(states, start_item0(ext, start, eof))
    &&& p.rule_table@.len() == count_reduce(states, accept, states.len() as int)
    &&& forall|q: int|
        0 <= q < states.len() && is_reduce_state(views(#[trigger] states[q]@), accept)
            ==> views(p.rule_table@)[count_reduce(states, accept, q)] == first_complete(
            views(states[q]@),
            accept,
        )
    &&& forall|q: usize, t: u64|
        #[trigger] map_opt(p.action_map(), (q, t)) == action_at(
            states,
            delta,
            accept,
            terms,
            delta.len() as int,
            q as int,
            t,
        )
    &&& forall|q: usize, n: u64|
        #[trigger] map_opt(p.goto_map(), (q, n)) == goto_at(
            states,
            delta,
            delta.len() as int,
            q as int,
            n,
        )
    &&& conflicts == conflict_seq(states, accept, states.len() as int)
}

proof fn lemma_conflict_seq_grows(
    states: Seq<Vec<LR0Item>>,
    accept: SpecItem,
    c: LRConflict,
    a: int,
    b: int,
)
    requires
        0 <= a <= b,
        conflict_seq(states, accept, a).contains(c),
    ensures
        conflict_seq(states, accept, b).contains(c),
    decreases b - a,
{
    if a < b {
        lemma_conflict_seq_grows(states, accept, c, a, b - 1);
        let pre = conflict_seq(states, accept, b - 1);
        let j = choose|j: int| 0 <= j < pre.len() && pre[j] == c;
        assert(conflict_seq(states, accept, b)[j] == c);
    }
}

/// A state shaped as a shift/reduce conflict — exactly one candidate
/// reduction beside an item that still expects a symbol — is reported: the
/// compiled conflict list carries `ShiftReduce` with that state's index.
pub proof fn lemma_shift_reduce_reported(states: Seq<Vec<LR0Item>>, accept: SpecItem, q: int)
    requires
        0 <= q < states.len(),
        completes_count(views(states[q]@), accept, views(states[q]@).len() as int) == 1,
        has_incomplete(views(states[q]@)),
    ensures
        conflict_seq(states, accept, states.len() as int).contains(
            LRConflict::ShiftReduce(q as usize),
        ),
{
    let pre = conflict_seq(states, accept, q);
    let step = conflict_seq(states, accept, q + 1);
    assert(step == pre.push(LRConflict::ShiftReduce(q as usize)));
    assert(step[pre.len() as int] == LRConflict::ShiftReduce(q as usize));
    assert(step.contains(LRConflict::ShiftReduce(q as usize)));
    lemma_conflict_seq_grows(
        states,
        accept,
        LRConflict::ShiftReduce(q as usize),
        q + 1,
        states.len() as int,
    );
}

/// Table totality: the action table dictates exactly one action for every
/// state and terminal — a recorded shift, reduce or accept entry, or the
/// error action when no entry exists; two lookups of the same pair can never
/// dictate different actions.
pub proof fn lemma_table_totality<NTV, TV>(
    p: LR0Parser<NTV, TV>,
    q: usize,
    t: u64,
    a1: ActionKind,
    a2: ActionKind,
)
    requires
        a1 == p.table_action(q, t),
        a2 == p.table_action(q, t),
    ensures
        a1 == a2,
{
}

/// Compiles the canonical automaton into an LR(0) parser: assigns each state
/// its discovery index, gives every reducing state a dense rule index and a
/// reduce action on every terminal, lets recorded shift and accept edges
/// shadow those defaults, fills the goto table from the non-terminal edges,
/// and reports shift/reduce and reduce/reduce conflicts in state order.
/// `None` when no state holds the augmented start item `S' -> . S $`, which
/// leaves no state to start in.
#[verifier::rlimit(60)]
pub fn canonical_automaton_to_lr0_parser<NTV, TV>(
    automaton: (&Vec<Vec<LR0Item>>, &Vec<DeltaEntry>),
    extended_start_symbol: u64,
    start_symbol: u64,
    eof_symbol: u64,
    terms: &[u64],
) -> (r: Option<(LR0Parser<NTV, TV>, Vec<LRConflict>)>)
    requires
        distinct_sets(set_seq(automaton.0@)),
        forall|i: int|
            0 <= i < automaton.1@.len() ==> states_fam(automaton.0@).contains(
                iset((#[trigger] automaton.1@[i]).0.0@),
            ),
        forall|i: int|
            0 <= i < automaton.1@.len() ==> states_fam(automaton.0@).contains(
                iset((#[trigger] automaton.1@[i]).1@),
            ),
        delta_functional(automaton.1@),
    ensures
        r is Some <==> has_state_containing(
            automaton.0@,
            start_item0(extended_start_symbol, start_symbol, eof_symbol),
        ),
        match r {
            Option::Some(pc) => table_post(
                automaton.0@,
                automaton.1@,
                extended_start_symbol,
                start_symbol,
                eof_symbol,
                terms@,
                pc.0,
                pc.1@,
            ),
            Option::None => true,
        },
{
    let states = automaton.0;
    let delta = automaton.1;
    let ghost start0 = start_item0(extended_start_symbol, start_symbol, eof_symbol);
    let ghost accept = accept_item(extended_start_symbol, start_symbol, eof_symbol);
    let mut rv: Vec<Symbol> = Vec::new();
    rv.push(Symbol::NonTerm(start_symbol));
    rv.push(Symbol::Term(eof_symbol));
    let start_rule = LR0Item { left: extended_start_symbol, right: rv, dot_pos: 0 };
    let mut accept_rule = start_rule.clone();
    accept_rule.dot_pos = 2;
    proof {
        assert(start_rule.right@ =~= seq![
            Symbol::NonTerm(start_symbol),
            Symbol::Term(eof_symbol),
        ]);
        assert(start_rule@ == start0);
        assert(accept_rule@ == accept);
    }
    let mut q0: usize = 0;
    let mut found = false;
    while q0 < states.len()
        invariant
            q0 <= states@.len(),
            forall|p: int| 0 <= p < q0 ==> !(#[trigger] set_seq(states@)[p]).contains(start0),
            found ==> q0 < states@.len() && set_seq(states@)[q0 as int].contains(start0),
            start_rule@ == start0,
        ensures
            q0 <= states@.len(),
            forall|p: int| 0 <= p < q0 ==> !(#[trigger] set_seq(states@)[p]).contains(start0),
            found ==> q0 < states@.len() && set_seq(states@)[q0 as int].contains(start0),
            !found ==> q0 == states@.len(),
        decreases states@.len() - q0,
    {
        if contains_item(states[q0].as_slice(), &start_rule) {
            found = true;
            proof {
                assert(set_seq(states@)[q0 as int] == iset(states@[q0 as int]@));
            }
            break ;
        }
        proof {
            assert(set_seq(states@)[q0 as int] == iset(states@[q0 as int]@));
        }
        q0 = q0 + 1;
    }
    if !found {
        proof {
            if has_state_containing(states@, start0) {
                let w = choose|q: int|
                    0 <= q < states@.len() && (#[trigger] set_seq(states@)[q]).contains(start0);
            }
        }
        return None;
    }
    proof {
        lemma_first_containing_at(states@, start0, q0 as int);
        assert(has_state_containing(states@, start0));
    }
    let mut action: Vec<((usize, u64), ActionKind)> = Vec::new();
    let mut rule_table: Vec<LR0Item> = Vec::new();
    let mut conflicts: Vec<LRConflict> = Vec::new();
    let mut q: usize = 0;
    while q < states.len()
        invariant
            q <= states@.len(),
            accept == accept_item(extended_start_symbol, start_symbol, eof_symbol),
            accept_rule@ == accept,
            conflicts@ == conflict_seq(states@, accept, q as int),
            rule_table@.len() == count_reduce(states@, accept, q as int),
            forall|q2: int|
                0 <= q2 < q && is_reduce_state(views(#[trigger] states@[q2]@), accept) ==> views(
                    rule_table@,
                )[count_reduce(states@, accept, q2)] == first_complete(
                    views(states@[q2]@),
                    accept,
                ),
            forall|q2: usize, t: u64|
                #[trigger] map_opt(amap(action@), (q2, t)) == reduce_at(
                    states@,
                    accept,
                    terms@,
                    q as int,
                    q2 as int,
                    t,
                ),
        decreases states@.len() - q,
    {
        let (cnt, first, inc) = classify_state(&states[q], &accept_rule);
        let ghost sv = views(states@[q as int]@);
        proof {
            assert(cnt as int == completes_count(sv, accept, sv.len() as int));
            assert(inc == has_incomplete(sv));
        }
        if cnt >= 2 {
            conflicts.push(LRConflict::ReduceReduce(q));
        } else if cnt == 1 && inc {
            conflicts.push(LRConflict::ShiftReduce(q));
        }
        proof {
            assert(conflicts@ == conflict_seq(states@, accept, q + 1));
        }
        if cnt >= 1 {
            let rno = rule_table.len();
            let item = states[q][first].clone();
            let ghost rt_before = rule_table@;
            proof {
                assert(item@ == sv[first as int]);
                assert(item@ == first_complete(sv, accept));
                crate::item_set::lemma_views_push(rule_table@, item);
            }
            rule_table.push(item);
            let ghost a_before = action@;
            insert_reduces(&mut action, q, terms, rno);
            proof {
                assert(rno as int == count_reduce(states@, accept, q as int));
                assert(is_reduce_state(sv, accept));
                assert(rule_table@.len() == count_reduce(states@, accept, q + 1));
                assert forall|q2: int|
                    0 <= q2 < q + 1 && is_reduce_state(
                        views(#[trigger] states@[q2]@),
                        accept,
                    ) implies views(rule_table@)[count_reduce(states@, accept, q2)]
                    == first_complete(views(states@[q2]@), accept) by {
                    if q2 < q {
                        lemma_count_reduce_nonneg(states@, accept, q2);
                        assert(count_reduce(states@, accept, q2) < count_reduce(
                            states@,
                            accept,
                            q as int,
                        )) by {
                            lemma_count_reduce_mono(states@, accept, q2, q as int);
                        };
                        assert(views(rule_table@) == views(rt_before).push(item@));
                        assert(views(rule_table@)[count_reduce(states@, accept, q2)] == views(
                            rt_before,
                        )[count_reduce(states@, accept, q2)]);
                    } else {
                        assert(views(rule_table@)[rno as int] == item@);
                    }
                };
                assert forall|q2: usize, t: u64| #[trigger] map_opt(amap(action@), (q2, t))
                    == reduce_at(states@, accept, terms@, q + 1, q2 as int, t) by {
                    if q2 == q && terms@.contains(t) {
                    } else {
                        assert(!(q2 == q && terms@.contains(t)));
                        assert(map_opt(amap(action@), (q2, t)) == map_opt(
                            amap(a_before),
                            (q2, t),
                        ));
                    }
                };
            }
        } else {
            proof {
                assert(!is_reduce_state(sv, accept));
                assert forall|q2: usize, t: u64| #[trigger] map_opt(amap(action@), (q2, t))
                    == reduce_at(states@, accept, terms@, q + 1, q2 as int, t) by {};
            }
        }
        q = q + 1;
    }
    let mut goto_t: Vec<((usize, u64), usize)> = Vec::new();
    let mut i: usize = 0;
    proof {
        assert forall|q2: usize, t: u64| #[trigger] map_opt(amap(action@), (q2, t)) == action_at(
            states@,
            delta@,
            accept,
            terms@,
            0,
            q2 as int,
            t,
        ) by {
            assert(map_opt(amap(action@), (q2, t)) == reduce_at(
                states@,
                accept,
                terms@,
                states@.len() as int,
                q2 as int,
                t,
            ));
        };
        assert forall|q2: usize, n: u64| #[trigger] map_opt(amap(goto_t@), (q2, n)) == goto_at(
            states@,
            delta@,
            0,
            q2 as int,
            n,
        ) by {
            assert(amap(goto_t@) =~= Map::<(usize, u64), usize>::empty());
        };
    }
    while i < delta.len()
        invariant
            i <= delta@.len(),
            accept == accept_item(extended_start_symbol, start_symbol, eof_symbol),
            accept_rule@ == accept,
            distinct_sets(set_seq(states@)),
            delta_functional(delta@),
            forall|j: int|
                0 <= j < delta@.len() ==> states_fam(states@).contains(
                    iset((#[trigger] delta@[j]).0.0@),
                ),
            forall|j: int|
                0 <= j < delta@.len() ==> states_fam(states@).contains(
                    iset((#[trigger] delta@[j]).1@),
                ),
            conflicts@ == conflict_seq(states@, accept, states@.len() as int),
            rule_table@.len() == count_reduce(states@, accept, states@.len() as int),
            forall|q2: int|
                0 <= q2 < states@.len() && is_reduce_state(views(#[trigger] states@[q2]@), accept)
                    ==> views(rule_table@)[count_reduce(states@, accept, q2)] == first_complete(
                    views(states@[q2]@),
                    accept,
                ),
            forall|q2: usize, t: u64|
                #[trigger] map_opt(amap(action@), (q2, t)) == action_at(
                    states@,
                    delta@,
                    accept,
                    terms@,
                    i as int,
                    q2 as int,
                    t,
                ),
            forall|q2: usize, n: u64|
                #[trigger] map_opt(amap(goto_t@), (q2, n)) == goto_at(
                    states@,
                    delta@,
                    i as int,
                    q2 as int,
                    n,
                ),
        decreases delta@.len() - i,
    {
        let sym = delta[i].0.1;
        match sym {
            Symbol::Term(t) => {
                let qf = find_state(states, &delta[i].0.0);
                let acc = contains_item(delta[i].1.as_slice(), &accept_rule);
                let kind = if acc {
                    ActionKind::Accept
                } else {
                    ActionKind::Shift(find_state(states, &delta[i].1))
                };
                let ghost a_prev = action@;
                proof {
                    assert(kind == entry_action(states@, delta@[i as int], accept));
                    assert(entry_matches_term(states@, delta@[i as int], qf as int, t));
                }
                alist_insert(&mut action, qf, t, kind);
                proof {
                    lemma_action_char_step_term(
                        states@,
                        delta@,
                        accept,
                        terms@,
                        i as int,
                        qf,
                        t,
                        amap(a_prev),
                        amap(action@),
                    );
                    lemma_goto_char_step_term(states@, delta@, i as int, amap(goto_t@));
                }
            },
            Symbol::NonTerm(n) => {
                let qf = find_state(states, &delta[i].0.0);
                let qd = find_state(states, &delta[i].1);
                let ghost g_prev = goto_t@;
                proof {
                    assert(entry_matches_nt(states@, delta@[i as int], qf as int, n));
                }
                alist_insert(&mut goto_t, qf, n, qd);
                proof {
                    lemma_goto_char_step_nt(
                        states@,
                        delta@,
                        i as int,
                        qf,
                        n,
                        qd,
                        amap(g_prev),
                        amap(goto_t@),
                    );
                    lemma_action_char_step_nt(
                        states@,
                        delta@,
                        accept,
                        terms@,
                        i as int,
                        amap(action@),
                    );
                }
            },
        }
        i = i + 1;
    }
    let mut stack: Vec<usize> = Vec::new();
    stack.push(q0);
    let parser = LR0Parser {
        input: Vec::new(),
        action_table: action,
        goto_table: goto_t,
        stack,
        rule_table,
        value_stack: Vec::new(),
    };
    Some((parser, conflicts))
}

proof fn lemma_count_reduce_mono(states: Seq<Vec<LR0Item>>, accept: SpecItem, a: int, b: int)
    requires
        0 <= a < b,
        is_reduce_state(views(states[a]@), accept),
    ensures
        count_reduce(states, accept, a) < count_reduce(states, accept, b),
    decreases b,
{
    if b == a + 1 {
    } else {
        lemma_count_reduce_mono(states, accept, a, b - 1);
        lemma_count_reduce_nondec(states, accept, b - 1);
    }
}

proof fn lemma_count_reduce_nondec(states: Seq<Vec<LR0Item>>, accept: SpecItem, b: int)
    ensures
        count_reduce(states, accept, b) <= count_reduce(states, accept, b + 1),
{
}

proof fn lemma_count_reduce_nonneg(states: Seq<Vec<LR0Item>>, accept: SpecItem, b: int)
    ensures
        count_reduce(states, accept, b) >= 0,
    decreases b,
{
    if b > 0 {
        lemma_count_reduce_nonneg(states, accept, b - 1);
    }
}

} // verus!
