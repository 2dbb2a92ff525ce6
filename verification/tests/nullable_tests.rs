//! Tests of the nullable-set computation.

use lr0_parser::bnf::{Expr, Grammer, Symbol};
use lr0_parser::nullable_set::generate_null_set;

#[test]
fn test_generate_null_set() {
    // X -> Y 0; Y -> 1; Y -> epsilon. Only Y derives the empty string.
    let x: u64 = 0;
    let y: u64 = 1;
    let grammer = Grammer {
        rules: vec![
            Expr { left: x, right: vec![Symbol::NonTerm(y), Symbol::Term(0)] },
            Expr { left: y, right: vec![Symbol::Term(1)] },
            Expr { left: y, right: vec![] },
        ],
    };
    let nullset = generate_null_set(&grammer);
    assert_eq!(nullset, vec![y]);
}

#[test]
fn test_null_set_chain() {
    // X -> Y; Y -> epsilon: nullability propagates through the chain.
    let x: u64 = 0;
    let y: u64 = 1;
    let grammer = Grammer {
        rules: vec![
            Expr { left: x, right: vec![Symbol::NonTerm(y)] },
            Expr { left: y, right: vec![] },
        ],
    };
    let nullset = generate_null_set(&grammer);
    assert_eq!(nullset, vec![y, x]);
}

#[test]
fn test_null_set_empty_grammar() {
    let grammer = Grammer { rules: vec![] };
    let nullset = generate_null_set(&grammer);
    assert_eq!(nullset, Vec::<u64>::new());
}

#[test]
fn test_null_set_terminal_blocks() {
    // A terminal anywhere on the right-hand side blocks nullability.
    let x: u64 = 0;
    let grammer = Grammer {
        rules: vec![Expr { left: x, right: vec![Symbol::Term(7)] }],
    };
    let nullset = generate_null_set(&grammer);
    assert_eq!(nullset, Vec::<u64>::new());
}
