use vstd::prelude::*;
use vstd::string::StringExecFns;

use crate::ast::{Tree, AST};
use crate::token::{Token, TokenView};

verus! {

/// One step of evaluating a tree on a stack of numbers.
#[derive(Debug, PartialEq)]
pub enum Step {
    /// Pushes the number written as this literal.
    Push(String),
    /// Pops the right and then the left operand, pushes their sum.
    Add,
    /// Pops the right and then the left operand, pushes left minus right.
    Subtract,
    /// Pops the right and then the left operand, pushes their product.
    Multiply,
    /// Pops the right and then the left operand, pushes left divided by right.
    Divide,
    /// Pops an operand, pushes its negation.
    Negate,
    /// Pops an operand, pushes its factorial.
    Factorial,
}

/// The mathematical value of a [`Step`].
pub enum StepView {
    Push(Seq<char>),
    Add,
    Subtract,
    Multiply,
    Divide,
    Negate,
    Factorial,
}

impl View for Step {
    type V = StepView;

    open spec fn view(&self) -> StepView {
        match self {
            Step::Push(s) => StepView::Push(s@),
            Step::Add => StepView::Add,
            Step::Subtract => StepView::Subtract,
            Step::Multiply => StepView::Multiply,
            Step::Divide => StepView::Divide,
            Step::Negate => StepView::Negate,
            Step::Factorial => StepView::Factorial,
        }
    }
}

/// The views of a sequence of steps.
pub open spec fn step_views(s: Seq<Step>) -> Seq<StepView> {
    s.map_values(|x: Step| x@)
}

/// The error for a leaf that holds no number.
pub open spec fn bad_leaf() -> Seq<char> {
    "Unrecognised node token."@
}

/// The error for an operator with neither one nor two operands.
pub open spec fn bad_operand_count() -> Seq<char> {
    "Unrecognised number of operands."@
}

/// The error for an operator that cannot stand between two operands.
pub open spec fn bad_binary_operator() -> Seq<char> {
    "Unrecognised binary operator."@
}

/// The error for an operator that cannot apply to one operand.
pub open spec fn bad_unary_operator() -> Seq<char> {
    "Unrecognised unary operator."@
}

/// The step that applies a binary operator.
pub open spec fn binary_step(op: TokenView) -> Option<StepView> {
    match op {
        TokenView::Plus => Some(StepView::Add),
        TokenView::Minus => Some(StepView::Subtract),
        TokenView::Star => Some(StepView::Multiply),
        TokenView::Slash => Some(StepView::Divide),
        _ => None,
    }
}

/// The step that applies a unary operator.
pub open spec fn unary_step(op: TokenView) -> Option<StepView> {
    match op {
        TokenView::Minus => Some(StepView::Negate),
        TokenView::Bang => Some(StepView::Factorial),
        _ => None,
    }
}

/// The steps that evaluate a tree, depth first and left to right, or the
/// first error met in that order.
pub open spec fn plan_of(t: Tree) -> Result<Seq<StepView>, Seq<char>>
    decreases t,
{
    match t {
        Tree::Leaf(TokenView::Number(n)) => Ok(seq![StepView::Push(n)]),
        Tree::Leaf(_) => Err(bad_leaf()),
        Tree::Branch(op, kids) => if kids.len() == 2 {
            match plan_of(kids[0]) {
                Err(e) => Err(e),
                Ok(left) => match plan_of(kids[1]) {
                    Err(e) => Err(e),
                    Ok(right) => match binary_step(op) {
                        Some(s) => Ok(left + right + seq![s]),
                        None => Err(bad_binary_operator()),
                    },
                },
            }
        } else if kids.len() == 1 {
            match plan_of(kids[0]) {
                Err(e) => Err(e),
                Ok(operand) => match unary_step(op) {
                    Some(s) => Ok(operand.push(s)),
                    None => Err(bad_unary_operator()),
                },
            }
        } else {
            Err(bad_operand_count())
        },
    }
}

/// How many values a stack of `depth` values holds after `steps`, or `None`
/// if some step finds fewer operands than it takes.
pub open spec fn depth_after(steps: Seq<StepView>, depth: int) -> Option<int>
    decreases steps.len(),
{
    if steps.len() == 0 {
        Some(depth)
    } else {
        match depth_after(steps.drop_last(), depth) {
            None => None,
            Some(d) => match steps.last() {
                StepView::Push(_) => Some(d + 1),
                StepView::Negate | StepView::Factorial => if d >= 1 {
                    Some(d)
                } else {
                    None
                },
                _ => if d >= 2 {
                    Some(d - 1)
                } else {
                    None
                },
            },
        }
    }
}

/// Running two lists of steps one after the other is running the second on
/// what the first leaves.
pub proof fn lemma_depth_after_concat(a: Seq<StepView>, b: Seq<StepView>, depth: int)
    ensures
        depth_after(a + b, depth) == match depth_after(a, depth) {
            None => None,
            Some(e) => depth_after(b, e),
        },
    decreases b.len(),
{
    if b.len() == 0 {
        assert(a + b =~= a);
    } else {
        lemma_depth_after_concat(a, b.drop_last(), depth);
        assert((a + b).drop_last() =~= a + b.drop_last());
        assert((a + b).last() == b.last());
    }
}

/// The steps planned for a tree never find too few operands, and they leave
/// exactly one value more than the stack held before: the tree's value.
pub proof fn law_plan_leaves_one_value(t: Tree, depth: int)
    requires
        depth >= 0,
        plan_of(t) is Ok,
    ensures
        depth_after(plan_of(t)->Ok_0, depth) == Some(depth + 1),
    decreases t,
{
    match t {
        Tree::Leaf(_) => {
            let p = plan_of(t)->Ok_0;
            assert(p.drop_last() =~= Seq::<StepView>::empty());
            assert(depth_after(p.drop_last(), depth) == Some(depth));
        },
        Tree::Branch(op, kids) => {
            if kids.len() == 2 {
                let left = plan_of(kids[0])->Ok_0;
                let right = plan_of(kids[1])->Ok_0;
                law_plan_leaves_one_value(kids[0], depth);
                law_plan_leaves_one_value(kids[1], depth + 1);
                lemma_depth_after_concat(left, right, depth);
                let p = plan_of(t)->Ok_0;
                assert(p.drop_last() =~= left + right);
            } else {
                let operand = plan_of(kids[0])->Ok_0;
                law_plan_leaves_one_value(kids[0], depth);
                let p = plan_of(t)->Ok_0;
                assert(p.drop_last() =~= operand);
            }
        },
    }
}

/// Whether the result `r` of an exec plan is the outcome `expected` of the model.
pub open spec fn planned_as(r: Result<Vec<Step>, String>, expected: Result<Seq<StepView>, Seq<char>>) -> bool {
    match expected {
        Ok(p) => r is Ok && step_views(r->Ok_0@) == p,
        Err(m) => r is Err && r->Err_0@ == m,
    }
}

/// Tree walk interpreter.
pub struct Interpreter;

impl Interpreter {
    /// The steps that evaluate `ast`, see [`plan_of`].
    pub fn plan(ast: &AST) -> (r: Result<Vec<Step>, String>)
        ensures
            planned_as(r, plan_of(ast@)),
        decreases ast, 2nat,
    {
        match ast {
            AST::Node(token) => Interpreter::plan_node(token),
            AST::Con(operator, sub_trees) => {
                let ghost kids = ast@->Branch_1;
                assert(forall|j: int|
                    0 <= j < sub_trees@.len() ==> kids[j] == #[trigger] sub_trees@[j]@);
                Interpreter::plan_expr(operator, sub_trees, Ghost(kids))
            },
        }
    }

    /// The step that pushes the number of a leaf.
    fn plan_node(token: &Token) -> (r: Result<Vec<Step>, String>)
        ensures
            planned_as(r, plan_of(Tree::Leaf(token@))),
    {
        match token {
            Token::Number(n) => {
                let steps = vec![Step::Push(n.clone())];
                proof {
                    assert(step_views(steps@) =~= seq![StepView::Push(n@)]);
                }
                Ok(steps)
            },
            _ => Err(String::from_str("Unrecognised node token.")),
        }
    }

    /// Chooses between a binary and a unary operator by the number of operands.
    fn plan_expr(operator: &Token, sub_trees: &Vec<AST>, Ghost(kids): Ghost<Seq<Tree>>) -> (r:
        Result<Vec<Step>, String>)
        requires
            kids.len() == sub_trees@.len(),
            forall|j: int| 0 <= j < sub_trees@.len() ==> kids[j] == #[trigger] sub_trees@[j]@,
        ensures
            planned_as(r, plan_of(Tree::Branch(operator@, kids))),
        decreases sub_trees, 1nat,
    {
        if sub_trees.len() == 2 {
            Interpreter::plan_binary(operator, sub_trees, Ghost(kids))
        } else if sub_trees.len() == 1 {
            Interpreter::plan_unary(operator, sub_trees, Ghost(kids))
        } else {
            Err(String::from_str("Unrecognised number of operands."))
        }
    }

    /// The steps of both operands, then the step of the binary operator.
    fn plan_binary(operator: &Token, sub_trees: &Vec<AST>, Ghost(kids): Ghost<Seq<Tree>>) -> (r:
        Result<Vec<Step>, String>)
        requires
            sub_trees@.len() == 2,
            kids.len() == 2,
            forall|j: int| 0 <= j < sub_trees@.len() ==> kids[j] == #[trigger] sub_trees@[j]@,
        ensures
            planned_as(r, plan_of(Tree::Branch(operator@, kids))),
        decreases sub_trees, 0nat,
    {
        proof {
            broadcast use vstd::std_specs::vec::axiom_vec_index_decreases;

            assert(decreases_to!(sub_trees => sub_trees[0]));
            assert(decreases_to!(sub_trees => sub_trees[1]));
            assert(kids[0] == sub_trees@[0]@);
            assert(kids[1] == sub_trees@[1]@);
        }
        let mut steps = match Interpreter::plan(&sub_trees[0]) {
            Ok(left) => left,
            Err(e) => {
                return Err(e);
            },
        };
        let mut right = match Interpreter::plan(&sub_trees[1]) {
            Ok(right) => right,
            Err(e) => {
                return Err(e);
            },
        };
        let ghost left_view = step_views(steps@);
        let ghost right_view = step_views(right@);
        let step = match operator {
            Token::Plus => Step::Add,
            Token::Minus => Step::Subtract,
            Token::Star => Step::Multiply,
            Token::Slash => Step::Divide,
            _ => {
                return Err(String::from_str("Unrecognised binary operator."));
            },
        };
        steps.append(&mut right);
        steps.push(step);
        proof {
            assert(step_views(steps@) =~= left_view + right_view + seq![step@]);
        }
        Ok(steps)
    }

    /// The steps of the operand, then the step of the unary operator.
    fn plan_unary(operator: &Token, sub_trees: &Vec<AST>, Ghost(kids): Ghost<Seq<Tree>>) -> (r:
        Result<Vec<Step>, String>)
        requires
            sub_trees@.len() == 1,
            kids.len() == 1,
            forall|j: int| 0 <= j < sub_trees@.len() ==> kids[j] == #[trigger] sub_trees@[j]@,
        ensures
            planned_as(r, plan_of(Tree::Branch(operator@, kids))),
        decreases sub_trees, 0nat,
    {
        proof {
            broadcast use vstd::std_specs::vec::axiom_vec_index_decreases;

            assert(decreases_to!(sub_trees => sub_trees[0]));
            assert(kids[0] == sub_trees@[0]@);
        }
        let mut steps = match Interpreter::plan(&sub_trees[0]) {
            Ok(operand) => operand,
            Err(e) => {
                return Err(e);
            },
        };
        let ghost operand_view = step_views(steps@);
        let step = match operator {
            Token::Minus => Step::Negate,
            Token::Bang => Step::Factorial,
            _ => {
                return Err(String::from_str("Unrecognised unary operator."));
            },
        };
        steps.push(step);
        proof {
            assert(step_views(steps@) =~= operand_view.push(step@));
        }
        Ok(steps)
    }
}

} // verus!
