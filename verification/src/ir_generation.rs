//! The downstream intermediate-representation stage: a placeholder
//! consumer of the syntax forest.

use crate::environment::Error;
use crate::parser::ParseNode;
use vstd::prelude::*;

verus! {

pub enum Ast {
    Empty,
    Struct,
    Function,
}

pub enum Types {
    Number,
    String,
}

/// Consume a forest; the stage produces nothing yet.
pub fn generate(parse_nodes: &Vec<ParseNode>) -> (r: Result<Ast, Error>)
    ensures
        r matches Result::Ok(a) && a is Empty,
{
    Result::Ok(Ast::Empty)
}

} // verus!
