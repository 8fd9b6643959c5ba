//! Arithmetic expressions: a tokenizer, a precedence-climbing parser that
//! builds a syntax tree, and the plan of steps that evaluates that tree on a
//! stack of numbers.

pub mod ast;
pub mod interpreter;
pub mod lexer;
pub mod parser;
pub mod token;

use vstd::prelude::*;
use vstd::string::StringExecFns;

use crate::ast::{Tree, AST};
use crate::interpreter::{plan_of, planned_as, Interpreter, Step, StepView};
use crate::lexer::{
    faulty_from, is_allowed, is_numeral, lemma_foreign_is_faulty, lemma_numeral_scan,
    lemma_scan_has_no_eof, rest_of, scan_from, tokens_of, Lexer,
};
use crate::parser::{
    lemma_expr_nested, lemma_expr_shape, lemma_expr_tokens, numbers_apart, parse_expr,
    parse_operators, read_between, tree_tokens, well_nested, Parser,
};
use crate::token::TokenView;

verus! {

/// The error for an input that holds a character of no token.
pub open spec fn lexical_error() -> Seq<char> {
    "Found lexical error(s) in the expression."@
}

/// The syntax tree of the text `cs`, or the first error found in it.
pub open spec fn syntax_of(cs: Seq<char>) -> Result<Tree, Seq<char>> {
    if faulty_from(cs, 0) {
        Err(lexical_error())
    } else {
        match parse_expr(tokens_of(cs).reverse(), 0) {
            Ok(p) => Ok(p.0),
            Err(e) => Err(e),
        }
    }
}

/// The evaluation plan of the text `cs`, or the first error found in it.
pub open spec fn plan_of_text(cs: Seq<char>) -> Result<Seq<StepView>, Seq<char>> {
    match syntax_of(cs) {
        Ok(t) => plan_of(t),
        Err(e) => Err(e),
    }
}

/// A numeral on its own parses as a single leaf that holds it, and its plan
/// pushes that number and does nothing else.
pub proof fn law_numeral_is_its_own_value(cs: Seq<char>)
    requires
        is_numeral(cs),
    ensures
        syntax_of(cs) == Ok::<Tree, Seq<char>>(Tree::Leaf(TokenView::Number(cs))),
        plan_of_text(cs) == Ok::<Seq<StepView>, Seq<char>>(seq![StepView::Push(cs)]),
{
    lemma_numeral_scan(cs);
    let ts = tokens_of(cs).reverse();
    assert(ts =~= seq![TokenView::Eof, TokenView::Number(cs)]);
    assert(rest_of(ts) =~= seq![TokenView::Eof]);
    let leaf = Tree::Leaf(TokenView::Number(cs));
    assert(parse_operators(seq![TokenView::Eof], leaf, 0) == Ok::<
        (Tree, Seq<TokenView>),
        Seq<char>,
    >((leaf, seq![TokenView::Eof])));
    assert(parse_expr(ts, 0) == Ok::<(Tree, Seq<TokenView>), Seq<char>>(
        (leaf, seq![TokenView::Eof]),
    ));
}

/// An input that holds a character other than a digit, a point, an
/// operator or a blank is refused with the lexical error.
pub proof fn law_foreign_character_is_refused(cs: Seq<char>, i: int)
    requires
        0 <= i < cs.len(),
        !is_allowed(cs[i]),
    ensures
        syntax_of(cs) == Err::<Tree, Seq<char>>(lexical_error()),
        plan_of_text(cs) == Err::<Seq<StepView>, Seq<char>>(lexical_error()),
{
    lemma_foreign_is_faulty(cs, 0, i);
}

/// Two numbers read one right after the other, with no operator between
/// them, make the input refused.
pub proof fn law_adjacent_numbers_are_refused(cs: Seq<char>, k: int)
    requires
        0 <= k,
        k + 1 < scan_from(cs, 0).len(),
        scan_from(cs, 0)[k] is Number,
        scan_from(cs, 0)[k + 1] is Number,
    ensures
        syntax_of(cs) is Err,
        plan_of_text(cs) is Err,
{
    if !faulty_from(cs, 0) {
        let s = scan_from(cs, 0);
        let ts = tokens_of(cs).reverse();
        let n = s.len() as int + 1;
        if parse_expr(ts, 0) is Ok {
            lemma_expr_shape(ts, 0);
            lemma_scan_has_no_eof(cs, 0);
            let left = parse_expr(ts, 0)->Ok_0.1;
            assert(ts.len() == n);
            if left.len() > 1 {
                let j = left.len() - 1;
                assert(left[j] == ts[j]);
                assert(ts[j] == s[n - 1 - j]);
            }
            let m = n - 2 - k;
            assert(ts[m] == s[k + 1]);
            assert(ts[m + 1] == s[k]);
            assert(numbers_apart(ts, left.len() as int, n));
        }
    }
}

/// A tree parsed from a text is made of exactly the text's tokens, in the
/// order they were written: parsing drops, adds and reorders none.
pub proof fn law_tree_holds_the_tokens_in_order(cs: Seq<char>)
    requires
        syntax_of(cs) is Ok,
    ensures
        tree_tokens(syntax_of(cs)->Ok_0) == scan_from(cs, 0),
{
    let s = scan_from(cs, 0);
    let ts = tokens_of(cs).reverse();
    let n = s.len() as int + 1;
    lemma_expr_shape(ts, 0);
    lemma_expr_tokens(ts, 0);
    lemma_scan_has_no_eof(cs, 0);
    let left = parse_expr(ts, 0)->Ok_0.1;
    assert(ts.len() == n);
    assert(ts[0] is Eof);
    if left.len() > 1 {
        let j = left.len() - 1;
        assert(left[j] == ts[j]);
        assert(ts[j] == s[n - 1 - j]);
    }
    assert(left.len() == 1);
    assert(read_between(ts, 1, n) =~= s);
}

/// A tree parsed from a text obeys precedence and associativity: products
/// and quotients bind tighter than sums and differences, a prefix operator
/// tighter than both, a postfix one tighter still, and infix operators of
/// one level group to the left.
pub proof fn law_tree_is_well_nested(cs: Seq<char>)
    requires
        syntax_of(cs) is Ok,
    ensures
        well_nested(syntax_of(cs)->Ok_0),
{
    lemma_expr_nested(tokens_of(cs).reverse(), 0);
}

/// Tokenizing and parsing depend on the text alone: the same text, read
/// twice, gives the same tokens, the same fault and the same tree or error.
pub proof fn law_reparsing_gives_the_same_tree(first: Seq<char>, second: Seq<char>)
    requires
        first == second,
    ensures
        tokens_of(first) == tokens_of(second),
        faulty_from(first, 0) == faulty_from(second, 0),
        syntax_of(first) == syntax_of(second),
{
}

/// Planning the evaluation of a tree depends on the tree alone: the same
/// tree, planned twice, gives the same steps or the same error.
pub proof fn law_replanning_gives_the_same_steps(first: Tree, second: Tree)
    requires
        first == second,
    ensures
        plan_of(first) == plan_of(second),
{
}

/// Tokenizes and parses an expression.
pub fn analyse(input_string: String) -> (r: Result<AST, String>)
    ensures
        match syntax_of(input_string@) {
            Ok(t) => r is Ok && r->Ok_0@ == t,
            Err(e) => r is Err && r->Err_0@ == e,
        },
{
    let mut lexer = Lexer::new(input_string);
    lexer.scan();
    if lexer.has_errors {
        return Err(String::from_str("Found lexical error(s) in the expression."));
    }
    let mut parser = Parser::new(&mut lexer);
    parser.parse()
}

/// Tokenizes and parses an expression and plans its evaluation: everything
/// that resolving it decides before any arithmetic is done.
pub fn compile(input_string: String) -> (r: Result<Vec<Step>, String>)
    ensures
        planned_as(r, plan_of_text(input_string@)),
{
    match analyse(input_string) {
        Ok(ast) => Interpreter::plan(&ast),
        Err(e) => Err(e),
    }
}

} // verus!
