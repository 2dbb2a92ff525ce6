//! Tests of table compilation and the shift-reduce runtime, on the grammar
//! S' -> S $; S -> ( E ); E -> E + P | P; P -> ( E ) | 1.

use std::cell::Cell;

use lr0_parser::bnf::{Expr, Grammer, Symbol};
use lr0_parser::item_set::{generate_canonical_automaton, LR0Item};
use lr0_parser::parsing_table::{
    canonical_automaton_to_lr0_parser, ActionKind, LR0Parser, LRConflict, ParseError,
    ParseOutcome, ReduceActions, ValueStackSymbol,
};

fn example_grammar() -> (Grammer, Vec<Symbol>, Vec<u64>) {
    let sd: u64 = 0;
    let s: u64 = 1;
    let e: u64 = 2;
    let p: u64 = 3;
    let one = '1' as u64;
    let plus = '+' as u64;
    let lp = '(' as u64;
    let rp = ')' as u64;
    let eof = '$' as u64;
    let grammer = Grammer {
        rules: vec![
            Expr { left: sd, right: vec![Symbol::NonTerm(s), Symbol::Term(eof)] },
            Expr {
                left: s,
                right: vec![Symbol::Term(lp), Symbol::NonTerm(e), Symbol::Term(rp)],
            },
            Expr {
                left: e,
                right: vec![Symbol::NonTerm(e), Symbol::Term(plus), Symbol::NonTerm(p)],
            },
            Expr { left: e, right: vec![Symbol::NonTerm(p)] },
            Expr {
                left: p,
                right: vec![Symbol::Term(lp), Symbol::NonTerm(e), Symbol::Term(rp)],
            },
            Expr { left: p, right: vec![Symbol::Term(one)] },
        ],
    };
    let alphabet = vec![
        Symbol::NonTerm(sd),
        Symbol::NonTerm(s),
        Symbol::NonTerm(e),
        Symbol::NonTerm(p),
        Symbol::Term(one),
        Symbol::Term(plus),
        Symbol::Term(lp),
        Symbol::Term(rp),
        Symbol::Term(eof),
    ];
    let terms = vec![one, plus, lp, rp, eof];
    (grammer, alphabet, terms)
}

fn example_parser() -> (LR0Parser<Vec<u64>, u64>, Vec<LRConflict>) {
    let (grammer, alphabet, terms) = example_grammar();
    let (states, delta) = generate_canonical_automaton(&grammer, 0, &alphabet);
    canonical_automaton_to_lr0_parser((&states, &delta), 0, 1, '$' as u64, &terms).unwrap()
}

/// Flattens every reduction into the sequence of terminals it covers, and
/// records whether each callback got exactly one value per right-hand-side
/// symbol.
struct FlattenActions {
    arity_ok: Cell<bool>,
}

impl ReduceActions<Vec<u64>, u64> for FlattenActions {
    fn reduce(
        &self,
        rule: &LR0Item,
        args: Vec<ValueStackSymbol<Vec<u64>, u64>>,
    ) -> Option<Vec<u64>> {
        if args.len() != rule.right.len() {
            self.arity_ok.set(false);
        }
        let mut out = Vec::new();
        for a in args {
            match a {
                ValueStackSymbol::Term(t) => out.push(t),
                ValueStackSymbol::NonTerm(v) => out.extend(v),
            }
        }
        Some(out)
    }
}

/// Never supplies a reduction action.
struct NoActions;

impl ReduceActions<Vec<u64>, u64> for NoActions {
    fn reduce(
        &self,
        _rule: &LR0Item,
        _args: Vec<ValueStackSymbol<Vec<u64>, u64>>,
    ) -> Option<Vec<u64>> {
        None
    }
}

fn tokens_of(text: &str) -> Vec<u64> {
    text.chars().map(|c| c as u64).collect()
}

#[test]
fn test_round_trip_parse() {
    // ((1)+(1+1))$ must be accepted with exactly one synthesized root value,
    // and the reductions, fed their values in original order, rebuild the
    // consumed input.
    let (parser, conflicts) = example_parser();
    assert_eq!(conflicts.len(), 0);
    let mut parser = parser.input(tokens_of("((1)+(1+1))$"));
    let acts = FlattenActions { arity_ok: Cell::new(true) };
    let outcome = parser.run(&acts);
    assert_eq!(outcome, ParseOutcome::Accepted);
    assert!(acts.arity_ok.get());
    match parser.get_syntax_tree() {
        Some(ValueStackSymbol::NonTerm(v)) => assert_eq!(v, tokens_of("((1)+(1+1))")),
        _ => panic!("expected a synthesized non-terminal root"),
    }
    assert!(parser.get_syntax_tree().is_none());
}

#[test]
fn test_error_path() {
    // (1+)$ must end in an error, never in acceptance, and must terminate.
    let (parser, _) = example_parser();
    let mut parser = parser.input(tokens_of("(1+)$"));
    let acts = FlattenActions { arity_ok: Cell::new(true) };
    let outcome = parser.run(&acts);
    assert!(matches!(outcome, ParseOutcome::Failed(_)));
    assert!(acts.arity_ok.get());
}

#[test]
fn test_table_totality() {
    // Resolving the action for a (state, terminal) pair scans the table from
    // the youngest entry: the result is unique, and reducing states cover
    // every terminal of the alphabet.
    let (parser, _) = example_parser();
    let (_, _, terms) = example_grammar();
    let max_state = parser
        .action_table
        .iter()
        .map(|((q, _), _)| *q)
        .max()
        .unwrap();
    let resolve = |q: u64, t: u64| -> ActionKind {
        parser
            .action_table
            .iter()
            .rev()
            .find(|((q2, t2), _)| *q2 as u64 == q && *t2 == t)
            .map(|(_, a)| *a)
            .unwrap_or(ActionKind::Error)
    };
    for q in 0..=max_state {
        for t in &terms {
            // Exactly one action is dictated per pair: two resolutions agree.
            assert_eq!(resolve(q as u64, *t), resolve(q as u64, *t));
        }
    }
    // The state holding only `P -> 1 .` reduces on every terminal.
    let one_rule = LR0Item { left: 3, right: vec![Symbol::Term('1' as u64)], dot_pos: 1 };
    let ri = parser.rule_table.iter().position(|r| *r == one_rule).unwrap();
    let reducing_states: Vec<u64> = (0..=max_state as u64)
        .filter(|q| terms.iter().all(|t| resolve(*q, *t) == ActionKind::Reduce(ri)))
        .collect();
    assert!(!reducing_states.is_empty());
}

#[test]
fn test_conflict_detection() {
    // The dangling-else grammar X -> if X | if X else X | a is not LR(0):
    // compilation must report a shift/reduce conflict and still finish.
    let xd: u64 = 0;
    let x: u64 = 1;
    let t_if = 'i' as u64;
    let t_else = 'e' as u64;
    let t_a = 'a' as u64;
    let eof = '$' as u64;
    let grammer = Grammer {
        rules: vec![
            Expr { left: xd, right: vec![Symbol::NonTerm(x), Symbol::Term(eof)] },
            Expr { left: x, right: vec![Symbol::Term(t_if), Symbol::NonTerm(x)] },
            Expr {
                left: x,
                right: vec![
                    Symbol::Term(t_if),
                    Symbol::NonTerm(x),
                    Symbol::Term(t_else),
                    Symbol::NonTerm(x),
                ],
            },
            Expr { left: x, right: vec![Symbol::Term(t_a)] },
        ],
    };
    let alphabet = vec![
        Symbol::NonTerm(xd),
        Symbol::NonTerm(x),
        Symbol::Term(t_if),
        Symbol::Term(t_else),
        Symbol::Term(t_a),
        Symbol::Term(eof),
    ];
    let terms = vec![t_if, t_else, t_a, eof];
    let (states, delta) = generate_canonical_automaton(&grammer, xd, &alphabet);
    let compiled = canonical_automaton_to_lr0_parser::<Vec<u64>, u64>(
        (&states, &delta),
        xd,
        x,
        eof,
        &terms,
    );
    let (_, conflicts) = compiled.unwrap();
    assert!(conflicts.iter().any(|c| matches!(c, LRConflict::ShiftReduce(_))));
}

#[test]
fn test_compiler_without_start_state() {
    // An automaton holding no augmented start item compiles to nothing.
    let states: Vec<Vec<LR0Item>> = Vec::new();
    let delta = Vec::new();
    let r = canonical_automaton_to_lr0_parser::<Vec<u64>, u64>(
        (&states, &delta),
        0,
        1,
        '$' as u64,
        &[],
    );
    assert!(r.is_none());
}

fn bare_parser(
    action_table: Vec<((usize, u64), ActionKind)>,
    goto_table: Vec<((usize, u64), usize)>,
    rule_table: Vec<LR0Item>,
    input: Vec<u64>,
) -> LR0Parser<Vec<u64>, u64> {
    LR0Parser {
        input,
        action_table,
        goto_table,
        stack: vec![0],
        rule_table,
        value_stack: Vec::new(),
    }
}

#[test]
fn test_error_no_action() {
    let mut p = bare_parser(vec![], vec![], vec![], vec![5]);
    let acts = FlattenActions { arity_ok: Cell::new(true) };
    assert_eq!(
        p.run(&acts),
        ParseOutcome::Failed(ParseError::NoAction { state: 0, token_kind: 5 })
    );
}

#[test]
fn test_error_syntax() {
    let mut p = bare_parser(vec![((0, 5), ActionKind::Error)], vec![], vec![], vec![5]);
    let acts = FlattenActions { arity_ok: Cell::new(true) };
    assert_eq!(
        p.run(&acts),
        ParseOutcome::Failed(ParseError::Syntax { state: 0, token_kind: 5 })
    );
}

#[test]
fn test_error_input_exhausted() {
    let mut p = bare_parser(vec![], vec![], vec![], vec![]);
    let acts = FlattenActions { arity_ok: Cell::new(true) };
    assert_eq!(p.run(&acts), ParseOutcome::Failed(ParseError::InputExhausted));
}

#[test]
fn test_error_bad_rule() {
    let mut p = bare_parser(vec![((0, 5), ActionKind::Reduce(0))], vec![], vec![], vec![5]);
    let acts = FlattenActions { arity_ok: Cell::new(true) };
    assert_eq!(p.run(&acts), ParseOutcome::Failed(ParseError::BadRule { rule: 0 }));
}

#[test]
fn test_error_stack_underflow() {
    let rule = LR0Item { left: 9, right: vec![Symbol::Term(5), Symbol::Term(6)], dot_pos: 2 };
    let mut p = bare_parser(
        vec![((0, 5), ActionKind::Reduce(0))],
        vec![],
        vec![rule],
        vec![5],
    );
    let acts = FlattenActions { arity_ok: Cell::new(true) };
    assert_eq!(p.run(&acts), ParseOutcome::Failed(ParseError::StackUnderflow));
}

#[test]
fn test_error_missing_goto() {
    let rule = LR0Item { left: 9, right: vec![], dot_pos: 0 };
    let mut p = bare_parser(
        vec![((0, 5), ActionKind::Reduce(0))],
        vec![],
        vec![rule],
        vec![5],
    );
    let acts = FlattenActions { arity_ok: Cell::new(true) };
    assert_eq!(
        p.run(&acts),
        ParseOutcome::Failed(ParseError::MissingGoto { state: 0, nonterm: 9 })
    );
}

#[test]
fn test_error_missing_reduce_action() {
    let rule = LR0Item { left: 9, right: vec![], dot_pos: 0 };
    let mut p = bare_parser(
        vec![((0, 5), ActionKind::Reduce(0))],
        vec![((0, 9), 1)],
        vec![rule],
        vec![5],
    );
    let acts = NoActions;
    assert_eq!(
        p.run(&acts),
        ParseOutcome::Failed(ParseError::MissingReduceAction { rule: 0 })
    );
}

#[test]
fn test_accept_action() {
    let mut p = bare_parser(vec![((0, 5), ActionKind::Accept)], vec![], vec![], vec![5]);
    let acts = FlattenActions { arity_ok: Cell::new(true) };
    assert_eq!(p.run(&acts), ParseOutcome::Accepted);
}

#[test]
fn test_reset_and_input() {
    let (parser, _) = example_parser();
    let start_state = parser.stack[0];
    let mut parser = parser.input(tokens_of("(1)$"));
    assert_eq!(parser.stack[0], start_state);
    assert_eq!(parser.input.len(), 4);
    parser.reset();
    assert_eq!(parser.input.len(), 0);
    assert_eq!(parser.stack, vec![0]);
}

#[test]
fn test_get_syntax_tree_empty() {
    let (parser, _) = example_parser();
    let mut parser = parser.input(vec![]);
    assert!(parser.get_syntax_tree().is_none());
}

#[test]
fn test_shift_reduce_default_prefers_shift() {
    // In the dangling-else table, the conflicted state still shifts on
    // `else`: recorded shift edges shadow the reduce default.
    let xd: u64 = 0;
    let x: u64 = 1;
    let t_if = 'i' as u64;
    let t_else = 'e' as u64;
    let t_a = 'a' as u64;
    let eof = '$' as u64;
    let grammer = Grammer {
        rules: vec![
            Expr { left: xd, right: vec![Symbol::NonTerm(x), Symbol::Term(eof)] },
            Expr { left: x, right: vec![Symbol::Term(t_if), Symbol::NonTerm(x)] },
            Expr {
                left: x,
                right: vec![
                    Symbol::Term(t_if),
                    Symbol::NonTerm(x),
                    Symbol::Term(t_else),
                    Symbol::NonTerm(x),
                ],
            },
            Expr { left: x, right: vec![Symbol::Term(t_a)] },
        ],
    };
    let alphabet = vec![
        Symbol::NonTerm(xd),
        Symbol::NonTerm(x),
        Symbol::Term(t_if),
        Symbol::Term(t_else),
        Symbol::Term(t_a),
        Symbol::Term(eof),
    ];
    let terms = vec![t_if, t_else, t_a, eof];
    let (states, delta) = generate_canonical_automaton(&grammer, xd, &alphabet);
    let (parser, conflicts) = canonical_automaton_to_lr0_parser::<Vec<u64>, u64>(
        (&states, &delta),
        xd,
        x,
        eof,
        &terms,
    )
    .unwrap();
    let conflicted: Vec<usize> = conflicts
        .iter()
        .filter_map(|c| match c {
            LRConflict::ShiftReduce(q) => Some(*q),
            LRConflict::ReduceReduce(_) => None,
        })
        .collect();
    assert!(!conflicted.is_empty());
    let resolve = |q: usize, t: u64| -> ActionKind {
        parser
            .action_table
            .iter()
            .rev()
            .find(|((q2, t2), _)| *q2 == q && *t2 == t)
            .map(|(_, a)| *a)
            .unwrap_or(ActionKind::Error)
    };
    let mut saw_shift_on_else = false;
    for q in &conflicted {
        if matches!(resolve(*q, t_else), ActionKind::Shift(_)) {
            saw_shift_on_else = true;
        }
    }
    assert!(saw_shift_on_else);
}
