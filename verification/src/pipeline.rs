//! The whole pipeline, composed: string to infix symbols, to postfix, to
//! an expression tree.

use vstd::prelude::*;
use crate::ast::{Expr, ExprV, Registry, SymErr, Symbol, SymbolV};
use crate::builder::{postfix_to_tree, spec_postfix_to_tree};
use crate::lexer::{parse_infix, spec_parse_infix, syms_view};
use crate::postfix::{spec_to_postfix, to_postfix};

verus! {

/// The postfix form of an infix string.
pub open spec fn spec_parse_and_convert(
    s: Seq<char>,
    reg: Seq<(Seq<char>, u32)>,
) -> Result<Seq<SymbolV>, SymErr> {
    match spec_parse_infix(s, reg) {
        Err(e) => Err(e),
        Ok(syms) => spec_to_postfix(syms),
    }
}

/// The tree of an infix string.
pub open spec fn spec_parse(s: Seq<char>, reg: Seq<(Seq<char>, u32)>) -> Result<ExprV, SymErr> {
    match spec_parse_and_convert(s, reg) {
        Err(e) => Err(e),
        Ok(post) => spec_postfix_to_tree(post, reg),
    }
}

/// Every tree the parser hands out is renderable: it can go straight back
/// through the infix renderer.
pub proof fn lemma_parse_renderable(s: Seq<char>, reg: Seq<(Seq<char>, u32)>)
    ensures
        spec_parse(s, reg) is Ok ==> crate::render::spec_renderable(spec_parse(s, reg).unwrap()),
{
    if spec_parse(s, reg) is Ok {
        let lexed = spec_parse_infix(s, reg).unwrap();
        crate::postfix::lemma_to_postfix_no_paren(lexed);
        crate::builder::lemma_postfix_to_tree_renderable(spec_to_postfix(lexed).unwrap(), reg);
    }
}

/// Lexes an infix string and converts it to postfix order.
pub fn parse_and_convert(reg: &Registry, infix_string: &str) -> (r: Result<Vec<Symbol>, SymErr>)
    ensures
        match (r, spec_parse_and_convert(infix_string@, reg@)) {
            (Ok(v), Ok(m)) => syms_view(v@) == m,
            (Err(e), Err(m)) => e == m,
            _ => false,
        },
{
    let syms = match parse_infix(reg, infix_string) {
        Ok(v) => v,
        Err(e) => {
            return Err(e);
        },
    };
    to_postfix(&syms)
}

/// Parses an infix string all the way to an expression tree.
pub fn parse(reg: &Registry, infix_string: &str) -> (r: Result<Expr, SymErr>)
    ensures
        match (r, spec_parse(infix_string@, reg@)) {
            (Ok(t), Ok(m)) => t@ == m,
            (Err(e), Err(m)) => e == m,
            _ => false,
        },
{
    let post = match parse_and_convert(reg, infix_string) {
        Ok(v) => v,
        Err(e) => {
            return Err(e);
        },
    };
    postfix_to_tree(reg, &post)
}

} // verus!
