use expr_resolver::ast::AST;
use expr_resolver::ast::AST::{Con, Node};
use expr_resolver::interpreter::{Interpreter, Step};
use expr_resolver::token::Token::{Bang, Eof, Minus, Number, Plus, Slash, Star};

fn num(text: &str) -> AST {
    Node(Number(text.to_string()))
}

/// Runs a plan on a stack of `f64`, with the factorial of whole numbers.
fn run(steps: &[Step]) -> f64 {
    let mut stack: Vec<f64> = Vec::new();
    for step in steps {
        match step {
            Step::Push(literal) => stack.push(literal.parse().unwrap()),
            Step::Negate => {
                let value = stack.pop().unwrap();
                stack.push(-value);
            }
            Step::Factorial => {
                let value = stack.pop().unwrap();
                let mut product = 1.0;
                let mut k = 2.0;
                while k <= value {
                    product *= k;
                    k += 1.0;
                }
                stack.push(product);
            }
            binary => {
                let right = stack.pop().unwrap();
                let left = stack.pop().unwrap();
                stack.push(match binary {
                    Step::Add => left + right,
                    Step::Subtract => left - right,
                    Step::Multiply => left * right,
                    _ => left / right,
                });
            }
        }
    }
    assert_eq!(stack.len(), 1);
    stack[0]
}

fn walk_ast(ast: &AST) -> Result<f64, String> {
    Interpreter::plan(ast).map(|steps| run(&steps))
}

#[test]
fn basic_walking() {
    let asts = vec![
        Node(Number("2.0".to_string())),
        Con(Minus, vec![num("2")]),
        Con(Minus, vec![num("2"), num("2")]),
        Con(Plus, vec![num("2"), num("2")]),
        Con(Slash, vec![num("2"), num("2")]),
        Con(Star, vec![num("3"), num("2")]),
    ];

    assert_eq!(walk_ast(&asts[0]), Ok(2.0));
    assert_eq!(walk_ast(&asts[1]), Ok(-2.0));
    assert_eq!(walk_ast(&asts[2]), Ok(0.0));
    assert_eq!(walk_ast(&asts[3]), Ok(4.0));
    assert_eq!(walk_ast(&asts[4]), Ok(1.0));
    assert_eq!(walk_ast(&asts[5]), Ok(6.0));
}

#[test]
fn plan_lists_operands_before_operator() {
    let ast = Con(Minus, vec![Con(Bang, vec![num("4")]), Con(Minus, vec![num("1")])]);
    assert_eq!(
        Interpreter::plan(&ast),
        Ok(vec![
            Step::Push("4".to_string()),
            Step::Factorial,
            Step::Push("1".to_string()),
            Step::Negate,
            Step::Subtract,
        ])
    );
    assert_eq!(walk_ast(&ast), Ok(25.0));
}

#[test]
fn leaf_without_number_is_refused() {
    assert_eq!(Interpreter::plan(&Node(Plus)), Err("Unrecognised node token.".to_string()));
}

#[test]
fn wrong_operand_count_is_refused() {
    let message = Err("Unrecognised number of operands.".to_string());
    assert_eq!(Interpreter::plan(&Con(Plus, vec![])), message);
    assert_eq!(Interpreter::plan(&Con(Plus, vec![num("1"), num("2"), num("3")])), message);
}

#[test]
fn operator_in_wrong_position_is_refused() {
    assert_eq!(
        Interpreter::plan(&Con(Bang, vec![num("1"), num("2")])),
        Err("Unrecognised binary operator.".to_string())
    );
    assert_eq!(
        Interpreter::plan(&Con(Plus, vec![num("1")])),
        Err("Unrecognised unary operator.".to_string())
    );
    assert_eq!(
        Interpreter::plan(&Con(Star, vec![num("1")])),
        Err("Unrecognised unary operator.".to_string())
    );
}

#[test]
fn first_error_in_walking_order_wins() {
    let ast = Con(Plus, vec![Con(Star, vec![num("1")]), Node(Eof)]);
    assert_eq!(Interpreter::plan(&ast), Err("Unrecognised unary operator.".to_string()));
    let ast = Con(Bang, vec![num("1"), Node(Eof)]);
    assert_eq!(Interpreter::plan(&ast), Err("Unrecognised node token.".to_string()));
}

#[test]
fn planning_twice_gives_the_same_steps() {
    let ast = Con(Slash, vec![num("9"), Con(Minus, vec![num("3")])]);
    assert_eq!(Interpreter::plan(&ast), Interpreter::plan(&ast));
    assert_eq!(walk_ast(&ast), walk_ast(&ast));
    assert_eq!(walk_ast(&ast), Ok(-3.0));
}

#[test]
fn tree_text_matches_shape() {
    let ast = Con(Minus, vec![num("2"), Con(Bang, vec![num("3")])]);
    assert_eq!(ast.to_text(), "( -   2 ( !   3 ))");
    assert_eq!(num("5").to_text(), "  5 ");
}
