//! Building an expression tree from postfix tokens.
use vstd::prelude::*;
use crate::error::{Error, Fault};
use crate::lexer::{Lexeme, Token, lemma_lexemes_subrange, lexemes};

verus! {

/// An expression tree. Each node owns its children.
pub enum Node {
    /// The text of a number literal.
    Number(String),
    Operation { operator: String, left: Box<Node>, right: Box<Node> },
    Function { name: String, argument: Box<Node> },
}

/// A [`Node`] with its texts as character sequences.
pub ghost enum Tree {
    Number(Seq<char>),
    Operation(Seq<char>, Box<Tree>, Box<Tree>),
    Function(Seq<char>, Box<Tree>),
}

impl View for Node {
    type V = Tree;

    open spec fn view(&self) -> Tree
        decreases self,
    {
        match self {
            Node::Number(t) => Tree::Number(t@),
            Node::Operation { operator, left, right } => Tree::Operation(
                operator@,
                Box::new((**left)@),
                Box::new((**right)@),
            ),
            Node::Function { name, argument } => Tree::Function(name@, Box::new((**argument)@)),
        }
    }
}

/// The trees of a sequence of nodes.
pub open spec fn trees(ns: Seq<Node>) -> Seq<Tree> {
    ns.map_values(|n: Node| n@)
}

/// One postfix token read onto a stack of trees: a number becomes a leaf, an operator
/// takes the top two trees (the top one as its right operand), a function the top one.
pub open spec fn build_step(stack: Seq<Tree>, tok: Lexeme) -> Result<Seq<Tree>, Fault> {
    match tok {
        Lexeme::Number(t) => Ok(stack.push(Tree::Number(t))),
        Lexeme::Operator(t) => if stack.len() < 2 {
            Err(Fault::MissingOperand)
        } else {
            let n = stack.len() as int;
            Ok(
                stack.subrange(0, n - 2).push(
                    Tree::Operation(t, Box::new(stack[n - 2]), Box::new(stack[n - 1])),
                ),
            )
        },
        Lexeme::Function(t) => if stack.len() < 1 {
            Err(Fault::MissingOperand)
        } else {
            Ok(stack.drop_last().push(Tree::Function(t, Box::new(stack.last()))))
        },
        Lexeme::LeftParen | Lexeme::RightParen => Err(Fault::UnexpectedParenthesis),
    }
}

/// The stack of trees after all of `ts` has been read.
pub open spec fn build_run(ts: Seq<Lexeme>) -> Result<Seq<Tree>, Fault>
    decreases ts.len(),
{
    if ts.len() == 0 {
        Ok(Seq::empty())
    } else {
        match build_run(ts.drop_last()) {
            Err(e) => Err(e),
            Ok(stack) => build_step(stack, ts.last()),
        }
    }
}

/// The one tree that a postfix sequence encodes, or why it encodes none.
pub open spec fn build(ts: Seq<Lexeme>) -> Result<Tree, Fault> {
    match build_run(ts) {
        Err(e) => Err(e),
        Ok(stack) => if stack.len() == 1 {
            Ok(stack[0])
        } else {
            Err(Fault::InvalidTree)
        },
    }
}

proof fn lemma_build_error_stays(ts: Seq<Lexeme>, k: int)
    requires
        0 <= k <= ts.len(),
        build_run(ts.subrange(0, k)) is Err,
    ensures
        build_run(ts) == build_run(ts.subrange(0, k)),
    decreases ts.len() - k,
{
    if k < ts.len() {
        assert(ts.subrange(0, k + 1).drop_last() =~= ts.subrange(0, k));
        lemma_build_error_stays(ts, k + 1);
    } else {
        assert(ts.subrange(0, k) =~= ts);
    }
}

/// Builds the expression tree that a postfix token sequence encodes.
#[verifier::loop_isolation(false)]
pub fn create_ast(tokens: Vec<Token>) -> (r: Result<Node, Error>)
    ensures
        match r {
            Ok(n) => build(lexemes(tokens@)) == Ok::<Tree, Fault>(n@),
            Err(e) => build(lexemes(tokens@)) == Err::<Tree, Fault>(e@),
        },
{
    let ghost all = lexemes(tokens@);
    let mut rest = tokens;
    let mut stack: Vec<Node> = Vec::new();
    let ghost mut k: int = 0;
    assert(all.subrange(0, 0) =~= Seq::<Lexeme>::empty());
    assert(trees(stack@) =~= Seq::<Tree>::empty());
    while rest.len() > 0
        invariant
            0 <= k <= all.len(),
            lexemes(rest@) == all.subrange(k, all.len() as int),
            build_run(all.subrange(0, k)) == Ok::<Seq<Tree>, Fault>(trees(stack@)),
        decreases rest.len(),
    {
        let ghost old_rest = rest@;
        proof {
            assert(lexemes(rest@).len() == rest@.len());
            assert(lexemes(rest@)[0] == rest@[0]@);
        }
        let token = rest.remove(0);
        let ghost before = trees(stack@);
        proof {
            assert(rest@ =~= old_rest.subrange(1, old_rest.len() as int));
            lemma_lexemes_subrange(old_rest, 1, old_rest.len() as int);
            assert(lexemes(rest@) =~= all.subrange(k + 1, all.len() as int));
            assert(all[k] == token@);
            assert(all.subrange(0, k + 1).drop_last() =~= all.subrange(0, k));
            assert(all.subrange(0, k + 1).last() == token@);
            assert(build_run(all.subrange(0, k + 1)) == build_step(before, token@));
            k = k + 1;
        }
        match token {
            Token::Number(value) => {
                stack.push(Node::Number(value));
                assert(trees(stack@) =~= before.push(stack@.last()@));
            },
            Token::Operator(op) => {
                if stack.len() < 2 {
                    proof {
                        lemma_build_error_stays(all, k);
                    }
                    return Err(Error::MissingOperand);
                }
                let right = stack.pop().unwrap();
                let left = stack.pop().unwrap();
                stack.push(
                    Node::Operation { operator: op, left: Box::new(left), right: Box::new(right) },
                );
                assert(trees(stack@) =~= before.subrange(0, before.len() - 2).push(
                    stack@.last()@,
                ));
            },
            Token::Function(name) => {
                if stack.len() < 1 {
                    proof {
                        lemma_build_error_stays(all, k);
                    }
                    return Err(Error::MissingOperand);
                }
                let argument = stack.pop().unwrap();
                stack.push(Node::Function { name, argument: Box::new(argument) });
                assert(trees(stack@) =~= before.drop_last().push(stack@.last()@));
            },
            Token::LeftParen | Token::RightParen => {
                proof {
                    lemma_build_error_stays(all, k);
                }
                return Err(Error::UnexpectedParenthesis);
            },
        }
    }
    assert(all.subrange(0, all.len() as int) =~= all);
    if stack.len() != 1 {
        return Err(Error::InvalidTree);
    }
    let root = stack.pop().unwrap();
    Ok(root)
}

} // verus!
