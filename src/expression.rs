//! Reading a whole expression into its tree.
use vstd::prelude::*;
use crate::ast::{Node, Tree, build, create_ast};
use crate::error::{Error, Fault};
use crate::lexer::{get_tokens, lex};
use crate::parser::{postfix, shunting_yard};

verus! {

/// The tree of an expression: its tokens, put in postfix order, built into one tree.
pub open spec fn parsed(s: Seq<char>) -> Result<Tree, Fault> {
    match lex(s) {
        Err(e) => Err(e),
        Ok(ts) => match postfix(ts) {
            Err(e) => Err(e),
            Ok(ps) => build(ps),
        },
    }
}

/// Reads an expression (spaces already removed) into its tree.
pub fn parse_expression(expr: &str) -> (r: Result<Node, Error>)
    ensures
        match r {
            Ok(n) => parsed(expr@) == Ok::<Tree, Fault>(n@),
            Err(e) => parsed(expr@) == Err::<Tree, Fault>(e@),
        },
{
    let tokens = get_tokens(expr)?;
    let rpn = shunting_yard(tokens)?;
    create_ast(rpn)
}

} // verus!
