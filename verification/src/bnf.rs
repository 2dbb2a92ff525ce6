//! The grammar model: symbols, production rules, and grammars.
//!
//! Terminal and non-terminal alphabets are identified by `u64` codes; a
//! caller keeps its own mapping from meaningful token types to these codes.

use vstd::prelude::*;

verus! {

/// A grammar symbol: either a terminal or a non-terminal, each drawn from its
/// own integer-coded alphabet.
#[derive(Clone, Copy, PartialEq, Eq, Structural, Debug)]
pub enum Symbol {
    Term(u64),
    NonTerm(u64),
}

/// One production rule: a left-hand non-terminal and the ordered sequence of
/// symbols it produces. An empty `right` represents an epsilon production.
#[derive(Debug)]
pub struct Expr {
    pub left: u64,
    pub right: Vec<Symbol>,
}

/// A grammar: an ordered sequence of production rules.
#[derive(Debug)]
pub struct Grammer {
    pub rules: Vec<Expr>,
}

/// The mathematical image of a production rule.
#[verifier::ext_equal]
pub struct SpecRule {
    pub left: u64,
    pub right: Seq<Symbol>,
}

impl View for Expr {
    type V = SpecRule;

    open spec fn view(&self) -> SpecRule {
        SpecRule { left: self.left, right: self.right@ }
    }
}

impl View for Grammer {
    type V = Seq<SpecRule>;

    open spec fn view(&self) -> Seq<SpecRule> {
        self.rules@.map_values(|r: Expr| r@)
    }
}

/// Supplies the reserved end-of-input terminal of a token alphabet.
pub trait EOFSupply<T> {
    fn eof() -> T;
}

/// Maps a semantic value to the code of the symbol kind it carries; the parse
/// runtime uses it to turn the next input token into an action-table key.
pub trait IntoKind<T> {
    fn into_kind(&self) -> T;
}

impl<T> IntoKind<T> for T where T: Clone {
    fn into_kind(&self) -> T {
        self.clone()
    }
}

} // verus!
