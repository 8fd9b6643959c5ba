use vstd::prelude::*;
use vstd::string::StringExecFns;

use crate::token::{token_text, Token, TokenView};

verus! {

/// A syntax tree: a number, or an operator applied to its operands.
pub enum AST {
    /// An operand.
    Node(Token),
    /// An operator and its operands, one for a prefix or postfix operator,
    /// two for an infix one.
    Con(Token, Vec<AST>),
}

/// The mathematical value of an [`AST`].
pub enum Tree {
    Leaf(TokenView),
    Branch(TokenView, Seq<Tree>),
}

impl View for AST {
    type V = Tree;

    open spec fn view(&self) -> Tree
        decreases self,
    {
        match self {
            AST::Node(t) => Tree::Leaf(t@),
            AST::Con(op, kids) => Tree::Branch(
                op@,
                Seq::new(
                    kids@.len(),
                    |i: int|
                        if 0 <= i < kids@.len() {
                            kids@[i].view()
                        } else {
                            Tree::Leaf(TokenView::Eof)
                        },
                ),
            ),
        }
    }
}

/// The printed form of a tree: a leaf is its token after a space; a branch
/// is its operator and then its operands, in parentheses.
pub open spec fn tree_text(t: Tree) -> Seq<char>
    decreases t, 1nat,
{
    match t {
        Tree::Leaf(tok) => " "@ + token_text(tok),
        Tree::Branch(op, kids) => "("@ + token_text(op) + forest_text(kids, kids.len() as int)
            + ")"@,
    }
}

/// The printed forms of the first `n` trees of `ts`, one after another.
pub open spec fn forest_text(ts: Seq<Tree>, n: int) -> Seq<char>
    decreases ts, 0nat, n,
{
    if n <= 0 || n > ts.len() {
        Seq::empty()
    } else {
        forest_text(ts, n - 1) + tree_text(ts[n - 1])
    }
}

impl AST {
    /// The printed form of the tree, see [`tree_text`].
    pub fn to_text(&self) -> (r: String)
        ensures
            r@ == tree_text(self@),
        decreases self,
    {
        match self {
            AST::Node(t) => String::from_str(" ").concat(t.to_text().as_str()),
            AST::Con(op, kids) => {
                let ghost kids_view = self@->Branch_1;
                assert(forall|j: int| 0 <= j < kids@.len() ==> kids_view[j] == #[trigger] kids@[j]@);
                let mut s = String::from_str("(").concat(op.to_text().as_str());
                let mut i: usize = 0;
                while i < kids.len()
                    invariant
                        i <= kids@.len(),
                        *self == AST::Con(*op, *kids),
                        self@ == Tree::Branch(op@, kids_view),
                        kids_view.len() == kids@.len(),
                        forall|j: int| 0 <= j < kids@.len() ==> kids_view[j] == #[trigger] kids@[j]@,
                        s@ == "("@ + token_text(op@) + forest_text(kids_view, i as int),
                    decreases kids@.len() - i,
                {
                    proof {
                        broadcast use vstd::std_specs::vec::axiom_vec_index_decreases;

                        assert(decreases_to!(kids => kids[i as int]));
                    }
                    let part = kids[i].to_text();
                    s = s.concat(part.as_str());
                    proof {
                        assert(forest_text(kids_view, i + 1) == forest_text(kids_view, i as int)
                            + tree_text(kids_view[i as int]));
                        assert(s@ =~= "("@ + token_text(op@) + forest_text(kids_view, i + 1));
                    }
                    i += 1;
                }
                s.concat(")")
            },
        }
    }
}

} // verus!
