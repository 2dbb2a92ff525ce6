//! Tests of the item algebra: item generation, closure, goto, and the
//! canonical automaton. Non-terminals and terminals are integer-coded;
//! terminals reuse their character codes where the grammar is written with
//! characters.

use lr0_parser::bnf::{Expr, Grammer, Symbol};
use lr0_parser::item_set::{
    generate_canonical_automaton, generate_goto_set, generate_lr0_item_closure,
    generate_lr0_item_set, item_set_eq, test_symbol_after_dot, LR0Item,
};

fn paren_grammar() -> Grammer {
    // S -> E; E -> T; E -> ( E ); T -> n; T -> + T; T -> T + n
    let s: u64 = 0;
    let e: u64 = 1;
    let t: u64 = 2;
    Grammer {
        rules: vec![
            Expr { left: s, right: vec![Symbol::NonTerm(e)] },
            Expr { left: e, right: vec![Symbol::NonTerm(t)] },
            Expr {
                left: e,
                right: vec![
                    Symbol::Term('(' as u64),
                    Symbol::NonTerm(e),
                    Symbol::Term(')' as u64),
                ],
            },
            Expr { left: t, right: vec![Symbol::Term('n' as u64)] },
            Expr { left: t, right: vec![Symbol::Term('+' as u64), Symbol::NonTerm(t)] },
            Expr {
                left: t,
                right: vec![
                    Symbol::NonTerm(t),
                    Symbol::Term('+' as u64),
                    Symbol::Term('n' as u64),
                ],
            },
        ],
    }
}

fn expr_grammar() -> Grammer {
    // E -> E + T; E -> T; T -> T * F; T -> F; F -> ( E ); F -> i
    let e: u64 = 0;
    let t: u64 = 1;
    let f: u64 = 2;
    Grammer {
        rules: vec![
            Expr {
                left: e,
                right: vec![
                    Symbol::NonTerm(e),
                    Symbol::Term('+' as u64),
                    Symbol::NonTerm(t),
                ],
            },
            Expr { left: e, right: vec![Symbol::NonTerm(t)] },
            Expr {
                left: t,
                right: vec![
                    Symbol::NonTerm(t),
                    Symbol::Term('*' as u64),
                    Symbol::NonTerm(f),
                ],
            },
            Expr { left: t, right: vec![Symbol::NonTerm(f)] },
            Expr {
                left: f,
                right: vec![
                    Symbol::Term('(' as u64),
                    Symbol::NonTerm(e),
                    Symbol::Term(')' as u64),
                ],
            },
            Expr { left: f, right: vec![Symbol::Term('i' as u64)] },
        ],
    }
}

#[test]
fn test_generate_lr0_item_set() {
    let grammer = paren_grammar();
    let lr0_item_set = generate_lr0_item_set(&grammer);
    for item in lr0_item_set {
        println!("{:?}", item);
    }
}

#[test]
fn test_generate_lr0_item_set_counts() {
    // One item per rule and dot position: |rhs| + 1 items per rule.
    let grammer = paren_grammar();
    let items = generate_lr0_item_set(&grammer);
    let expected: usize = grammer.rules.iter().map(|r| r.right.len() + 1).sum();
    assert_eq!(items.len(), expected);
    assert_eq!(items[0], LR0Item { left: 0, right: vec![Symbol::NonTerm(1)], dot_pos: 0 });
    assert_eq!(items[1], LR0Item { left: 0, right: vec![Symbol::NonTerm(1)], dot_pos: 1 });
}

#[test]
fn test_generate_lr0_item_closure() {
    let grammer = expr_grammar();
    let closure_target = LR0Item {
        left: 0,
        right: vec![
            Symbol::NonTerm(0),
            Symbol::Term('+' as u64),
            Symbol::NonTerm(1),
        ],
        dot_pos: 2,
    };
    let lr0_items = generate_lr0_item_set(&grammer);
    let item_closure = generate_lr0_item_closure(&lr0_items, &[closure_target]);
    for item in item_closure {
        println!("{:?}", item);
    }
}

#[test]
fn test_closure_expected_items() {
    // closure of { E -> E + . T } must pull in the introductory items of T
    // and, through T -> . F, those of F.
    let grammer = expr_grammar();
    let seed = LR0Item {
        left: 0,
        right: vec![
            Symbol::NonTerm(0),
            Symbol::Term('+' as u64),
            Symbol::NonTerm(1),
        ],
        dot_pos: 2,
    };
    let all = generate_lr0_item_set(&grammer);
    let closure = generate_lr0_item_closure(&all, &[seed.clone()]);
    assert_eq!(closure.len(), 5);
    assert_eq!(closure[0], seed);
    let t_star = LR0Item {
        left: 1,
        right: vec![
            Symbol::NonTerm(1),
            Symbol::Term('*' as u64),
            Symbol::NonTerm(2),
        ],
        dot_pos: 0,
    };
    let t_f = LR0Item { left: 1, right: vec![Symbol::NonTerm(2)], dot_pos: 0 };
    let f_paren = LR0Item {
        left: 2,
        right: vec![
            Symbol::Term('(' as u64),
            Symbol::NonTerm(0),
            Symbol::Term(')' as u64),
        ],
        dot_pos: 0,
    };
    let f_i = LR0Item { left: 2, right: vec![Symbol::Term('i' as u64)], dot_pos: 0 };
    for expected in [&t_star, &t_f, &f_paren, &f_i] {
        assert!(closure.iter().any(|it| it == expected));
    }
}

#[test]
fn test_closure_monotone() {
    // Every seed item is in its own closure.
    let grammer = expr_grammar();
    let all = generate_lr0_item_set(&grammer);
    let seeds = vec![all[0].clone(), all[4].clone(), all[7].clone()];
    let closure = generate_lr0_item_closure(&all, &seeds);
    for s in &seeds {
        assert!(closure.iter().any(|it| it == s));
    }
}

#[test]
fn test_closure_idempotent() {
    // Closing a closure adds nothing.
    let grammer = expr_grammar();
    let all = generate_lr0_item_set(&grammer);
    let seeds = vec![all[0].clone()];
    let once = generate_lr0_item_closure(&all, &seeds);
    let twice = generate_lr0_item_closure(&all, &once);
    assert!(item_set_eq(&twice, &once));
}

#[test]
fn test_symbol_after_dot_cases() {
    let item = LR0Item {
        left: 0,
        right: vec![Symbol::NonTerm(1), Symbol::Term('+' as u64)],
        dot_pos: 1,
    };
    assert!(test_symbol_after_dot(&item, &Symbol::Term('+' as u64)));
    assert!(!test_symbol_after_dot(&item, &Symbol::NonTerm(1)));
    let complete = LR0Item {
        left: 0,
        right: vec![Symbol::NonTerm(1), Symbol::Term('+' as u64)],
        dot_pos: 2,
    };
    assert!(!test_symbol_after_dot(&complete, &Symbol::Term('+' as u64)));
}

#[test]
fn test_generate_goto_set() {
    let grammer = expr_grammar();
    let goto_set = generate_goto_set(
        &grammer,
        &[LR0Item {
            left: 1,
            right: vec![
                Symbol::NonTerm(1),
                Symbol::Term('*' as u64),
                Symbol::NonTerm(2),
            ],
            dot_pos: 1,
        }],
        &Symbol::Term('*' as u64),
    );
    for item in goto_set {
        println!("{:?}", item);
    }
}

#[test]
fn test_goto_deterministic() {
    // Goto on the same state and symbol twice yields the same item set.
    let grammer = expr_grammar();
    let state = vec![LR0Item {
        left: 1,
        right: vec![
            Symbol::NonTerm(1),
            Symbol::Term('*' as u64),
            Symbol::NonTerm(2),
        ],
        dot_pos: 1,
    }];
    let first = generate_goto_set(&grammer, &state, &Symbol::Term('*' as u64));
    let second = generate_goto_set(&grammer, &state, &Symbol::Term('*' as u64));
    assert!(item_set_eq(&first, &second));
    // An unexpected symbol yields the empty set: no transition.
    let none = generate_goto_set(&grammer, &state, &Symbol::Term('?' as u64));
    assert_eq!(none.len(), 0);
}

fn augmented_expr_grammar() -> (Grammer, Vec<Symbol>) {
    // S -> E over the expression grammar, with the full symbol alphabet.
    let s: u64 = 3;
    let mut g = expr_grammar();
    g.rules.insert(0, Expr { left: s, right: vec![Symbol::NonTerm(0)] });
    let alphabet = vec![
        Symbol::NonTerm(s),
        Symbol::NonTerm(0),
        Symbol::NonTerm(1),
        Symbol::NonTerm(2),
        Symbol::Term('i' as u64),
        Symbol::Term('(' as u64),
        Symbol::Term(')' as u64),
        Symbol::Term('+' as u64),
        Symbol::Term('*' as u64),
    ];
    (g, alphabet)
}

#[test]
fn test_generate_canonical_set() {
    let (grammer, alphabet) = augmented_expr_grammar();
    let (states, delta) = generate_canonical_automaton(&grammer, 3, &alphabet);
    for (n, state) in states.iter().enumerate() {
        println!("I{}", n);
        for item in state {
            println!("{:?}", item);
        }
    }
    println!("transitions: {}", delta.len());
}

#[test]
fn test_canonical_automaton_deterministic() {
    // Two runs discover the same states, pairwise equal as item sets.
    let (grammer, alphabet) = augmented_expr_grammar();
    let (states1, delta1) = generate_canonical_automaton(&grammer, 3, &alphabet);
    let (states2, delta2) = generate_canonical_automaton(&grammer, 3, &alphabet);
    assert_eq!(states1.len(), states2.len());
    for (a, b) in states1.iter().zip(states2.iter()) {
        assert!(item_set_eq(a, b));
    }
    assert_eq!(delta1.len(), delta2.len());
}

#[test]
fn test_canonical_automaton_missing_start() {
    // A start symbol on no left-hand side yields an empty automaton.
    let grammer = expr_grammar();
    let (states, delta) = generate_canonical_automaton(&grammer, 99, &[Symbol::NonTerm(0)]);
    assert_eq!(states.len(), 0);
    assert_eq!(delta.len(), 0);
}

#[test]
fn test_canonical_automaton_edges_stay_inside() {
    // Every transition leaves a discovered state and enters a discovered
    // state.
    let (grammer, alphabet) = augmented_expr_grammar();
    let (states, delta) = generate_canonical_automaton(&grammer, 3, &alphabet);
    for ((from, _sym), to) in &delta {
        assert!(states.iter().any(|s| item_set_eq(s, from)));
        assert!(states.iter().any(|s| item_set_eq(s, to)));
        assert!(!to.is_empty());
    }
}
