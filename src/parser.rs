use vstd::prelude::*;
use vstd::string::StringExecFns;

use crate::ast::{Tree, AST};
use crate::lexer::{next_of, rest_of, Lexer};
use crate::token::{token_text, views, Token, TokenView};

verus! {

/// The right binding power of a prefix operator.
pub open spec fn prefix_power(t: TokenView) -> Option<u8> {
    match t {
        TokenView::Plus | TokenView::Minus => Some(5),
        _ => None,
    }
}

/// The left binding power of a postfix operator.
pub open spec fn postfix_power(t: TokenView) -> Option<u8> {
    match t {
        TokenView::Bang => Some(6),
        _ => None,
    }
}

/// The left and right binding powers of an infix operator; the right one is
/// the greater, which makes operators of one level associate to the left.
pub open spec fn infix_power(t: TokenView) -> Option<(u8, u8)> {
    match t {
        TokenView::Plus | TokenView::Minus => Some((1, 2)),
        TokenView::Star | TokenView::Slash => Some((3, 4)),
        _ => None,
    }
}

/// The error for an input that ends where an operand is due.
pub open spec fn unexpected_end() -> Seq<char> {
    "Unexpected token : EOF"@
}

/// The error for a number that stands where an operator is due.
pub open spec fn expected_operator(n: Seq<char>) -> Seq<char> {
    "Expected operator, received number : "@ + n
}

/// The error for a token that cannot begin an operand.
pub open spec fn invalid_prefix(t: TokenView) -> Seq<char> {
    "Cannot get prefix binding power of"@ + token_text(t)
}

/// The error for a token that cannot follow an operand.
pub open spec fn invalid_operator(t: TokenView) -> Seq<char> {
    "Cannot get infix binding power of"@ + token_text(t)
}

/// Parses an expression from the stack of tokens `ts` (its last element is
/// read first), going on while operators bind at least as tightly as
/// `min`. Gives the tree and the tokens left, or the error.
pub open spec fn parse_expr(ts: Seq<TokenView>, min: u8) -> Result<
    (Tree, Seq<TokenView>),
    Seq<char>,
>
    decreases ts.len(), 1nat,
{
    let t = next_of(ts);
    let rest = rest_of(ts);
    match t {
        TokenView::Number(_) => parse_operators(rest, Tree::Leaf(t), min),
        TokenView::Eof => Err(unexpected_end()),
        _ => match prefix_power(t) {
            None => Err(invalid_prefix(t)),
            Some(right) => match parse_expr(rest, right) {
                Err(e) => Err(e),
                Ok(p) => if p.1.len() < ts.len() {
                    parse_operators(p.1, Tree::Branch(t, seq![p.0]), min)
                } else {
                    Err(unexpected_end())
                },
            },
        },
    }
}

/// Continues an expression whose left operand `lhs` has been read: applies
/// the postfix and infix operators that follow it in `ts` and bind at least
/// as tightly as `min`.
pub open spec fn parse_operators(ts: Seq<TokenView>, lhs: Tree, min: u8) -> Result<
    (Tree, Seq<TokenView>),
    Seq<char>,
>
    decreases ts.len(), 0nat,
{
    let t = next_of(ts);
    match t {
        TokenView::Eof => Ok((lhs, ts)),
        TokenView::Number(n) => Err(expected_operator(n)),
        _ => match postfix_power(t) {
            Some(left) => if left < min {
                Ok((lhs, ts))
            } else {
                parse_operators(rest_of(ts), Tree::Branch(t, seq![lhs]), min)
            },
            None => match infix_power(t) {
                None => Err(invalid_operator(t)),
                Some(powers) => if powers.0 < min {
                    Ok((lhs, ts))
                } else {
                    match parse_expr(rest_of(ts), powers.1) {
                        Err(e) => Err(e),
                        Ok(p) => if p.1.len() < ts.len() {
                            parse_operators(p.1, Tree::Branch(t, seq![lhs, p.0]), min)
                        } else {
                            Err(unexpected_end())
                        },
                    }
                },
            },
        },
    }
}

/// No two numbers stand side by side in `ts` between positions `a` and `b`.
pub open spec fn numbers_apart(ts: Seq<TokenView>, a: int, b: int) -> bool {
    forall|k: int| a <= k && k + 1 < b ==> !(#[trigger] ts[k] is Number && ts[k + 1] is Number)
}

/// Numbers apart in the bottom part of a stack are apart in the stack.
proof fn lemma_apart_in_prefix(ts: Seq<TokenView>, pre: Seq<TokenView>, a: int, b: int)
    requires
        0 <= a,
        b <= pre.len() <= ts.len(),
        pre == ts.subrange(0, pre.len() as int),
        numbers_apart(pre, a, b),
    ensures
        numbers_apart(ts, a, b),
{
    assert forall|k: int| a <= k && k + 1 < b implies !(#[trigger] ts[k] is Number && ts[k
        + 1] is Number) by {
        assert(pre[k] == ts[k]);
        assert(pre[k + 1] == ts[k + 1]);
    }
}

/// Two stretches with numbers apart, and no two numbers where they meet,
/// make one stretch with numbers apart.
proof fn lemma_apart_join(ts: Seq<TokenView>, a: int, m: int, b: int)
    requires
        0 <= a <= m <= b <= ts.len(),
        numbers_apart(ts, a, m),
        numbers_apart(ts, m, b),
        a < m < b ==> !(ts[m - 1] is Number && ts[m] is Number),
    ensures
        numbers_apart(ts, a, b),
{
    assert forall|k: int| a <= k && k + 1 < b implies !(#[trigger] ts[k] is Number && ts[k
        + 1] is Number) by {
        if k + 1 < m {
        } else if k >= m {
        } else {
            assert(k == m - 1);
        }
    }
}

/// An operand read from `ts` and then the operators read after it: the
/// tokens consumed by both are apart, given the shapes that the two
/// shape lemmas give for each part.
proof fn lemma_operand_then_operators(
    ts: Seq<TokenView>,
    after_operand: Seq<TokenView>,
    left: Seq<TokenView>,
)
    requires
        ts.len() >= 1,
        !(ts.last() is Number),
        after_operand.len() < ts.len() - 1,
        after_operand == ts.subrange(0, ts.len() - 1).subrange(0, after_operand.len() as int),
        !(next_of(after_operand) is Number),
        numbers_apart(ts.subrange(0, ts.len() - 1), after_operand.len() as int, ts.len() - 1),
        left.len() <= after_operand.len(),
        left == after_operand.subrange(0, left.len() as int),
        numbers_apart(after_operand, left.len() as int, after_operand.len() as int),
        left.len() < after_operand.len() ==> !(after_operand.last() is Number),
    ensures
        left == ts.subrange(0, left.len() as int),
        numbers_apart(ts, left.len() as int, ts.len() as int),
{
    let n = ts.len() as int;
    let rest = ts.subrange(0, n - 1);
    assert(after_operand =~= ts.subrange(0, after_operand.len() as int));
    assert(left =~= ts.subrange(0, left.len() as int));
    lemma_apart_in_prefix(ts, rest, after_operand.len() as int, n - 1);
    lemma_apart_in_prefix(ts, after_operand, left.len() as int, after_operand.len() as int);
    if left.len() < after_operand.len() {
        assert(ts[after_operand.len() - 1] == after_operand.last());
    }
    lemma_apart_join(ts, left.len() as int, after_operand.len() as int, n - 1);
    lemma_apart_join(ts, left.len() as int, n - 1, n);
}

/// What an expression consumes: the tokens it leaves are the bottom of the
/// stack, the next of them is no number, no two numbers it read stood side
/// by side, and at the lowest binding power it stops only at `Eof`.
pub proof fn lemma_expr_shape(ts: Seq<TokenView>, min: u8)
    requires
        parse_expr(ts, min) is Ok,
    ensures
        ({
            let left = parse_expr(ts, min)->Ok_0.1;
            &&& left.len() < ts.len()
            &&& left == ts.subrange(0, left.len() as int)
            &&& !(next_of(left) is Number)
            &&& numbers_apart(ts, left.len() as int, ts.len() as int)
            &&& min == 0 ==> next_of(left) is Eof
            &&& ts.len() >= 1 && ts[0] is Eof ==> left.len() >= 1
        }),
    decreases ts.len(), 1nat,
{
    let n = ts.len() as int;
    let t = next_of(ts);
    let rest = rest_of(ts);
    assert(n >= 1);
    assert(rest == ts.subrange(0, n - 1));
    if n >= 2 {
        assert(rest[0] == ts[0]);
    }
    if t is Number {
        let leaf = Tree::Leaf(t);
        assert(parse_expr(ts, min) == parse_operators(rest, leaf, min));
        lemma_operators_shape(rest, leaf, min);
        let left = parse_operators(rest, leaf, min)->Ok_0.1;
        assert(left =~= ts.subrange(0, left.len() as int));
        lemma_apart_in_prefix(ts, rest, left.len() as int, n - 1);
        if left.len() < n - 1 {
            assert(ts[n - 2] == rest.last());
        }
        lemma_apart_join(ts, left.len() as int, n - 1, n);
    } else {
        let right = prefix_power(t)->0;
        lemma_expr_shape(rest, right);
        let p = parse_expr(rest, right)->Ok_0;
        let lhs = Tree::Branch(t, seq![p.0]);
        assert(parse_expr(ts, min) == parse_operators(p.1, lhs, min));
        lemma_operators_shape(p.1, lhs, min);
        let left = parse_operators(p.1, lhs, min)->Ok_0.1;
        lemma_operand_then_operators(ts, p.1, left);
    }
}

/// What the operators after an operand consume, as for [`lemma_expr_shape`];
/// besides, the first token they read is no number.
pub proof fn lemma_operators_shape(ts: Seq<TokenView>, lhs: Tree, min: u8)
    requires
        parse_operators(ts, lhs, min) is Ok,
    ensures
        ({
            let left = parse_operators(ts, lhs, min)->Ok_0.1;
            &&& left.len() <= ts.len()
            &&& left == ts.subrange(0, left.len() as int)
            &&& !(next_of(left) is Number)
            &&& numbers_apart(ts, left.len() as int, ts.len() as int)
            &&& left.len() < ts.len() ==> !(ts.last() is Number)
            &&& min == 0 ==> next_of(left) is Eof
            &&& ts.len() >= 1 && ts[0] is Eof ==> left.len() >= 1
        }),
    decreases ts.len(), 0nat,
{
    let n = ts.len() as int;
    let t = next_of(ts);
    let rest = rest_of(ts);
    if t is Eof {
        assert(ts =~= ts.subrange(0, n));
    } else {
        assert(n >= 1);
        assert(rest == ts.subrange(0, n - 1));
        if n >= 2 {
            assert(rest[0] == ts[0]);
        }
        if postfix_power(t) is Some {
            if postfix_power(t)->0 < min {
                assert(ts =~= ts.subrange(0, n));
            } else {
                let next_lhs = Tree::Branch(t, seq![lhs]);
                assert(parse_operators(ts, lhs, min) == parse_operators(rest, next_lhs, min));
                lemma_operators_shape(rest, next_lhs, min);
                let left = parse_operators(rest, next_lhs, min)->Ok_0.1;
                assert(left =~= ts.subrange(0, left.len() as int));
                lemma_apart_in_prefix(ts, rest, left.len() as int, n - 1);
                lemma_apart_join(ts, left.len() as int, n - 1, n);
            }
        } else {
            let powers = infix_power(t)->0;
            if powers.0 < min {
                assert(ts =~= ts.subrange(0, n));
            } else {
                lemma_expr_shape(rest, powers.1);
                let p = parse_expr(rest, powers.1)->Ok_0;
                let next_lhs = Tree::Branch(t, seq![lhs, p.0]);
                assert(parse_operators(ts, lhs, min) == parse_operators(p.1, next_lhs, min));
                lemma_operators_shape(p.1, next_lhs, min);
                let left = parse_operators(p.1, next_lhs, min)->Ok_0.1;
                lemma_operand_then_operators(ts, p.1, left);
            }
        }
    }
}

/// The tokens of a tree in reading order: a prefix operator before its
/// operand, a postfix one after it, an infix one between its operands.
pub open spec fn tree_tokens(t: Tree) -> Seq<TokenView>
    decreases t,
{
    match t {
        Tree::Leaf(tok) => seq![tok],
        Tree::Branch(op, kids) => if kids.len() == 2 {
            tree_tokens(kids[0]) + seq![op] + tree_tokens(kids[1])
        } else if kids.len() == 1 {
            if postfix_power(op) is Some {
                tree_tokens(kids[0]).push(op)
            } else {
                seq![op] + tree_tokens(kids[0])
            }
        } else {
            seq![op]
        },
    }
}

/// The tokens at positions `a` to `b` of a stack, in the order they are read.
pub open spec fn read_between(ts: Seq<TokenView>, a: int, b: int) -> Seq<TokenView> {
    ts.subrange(a, b).reverse()
}

/// Reading a stretch of a stack reads its upper part first.
proof fn lemma_read_split(ts: Seq<TokenView>, a: int, m: int, b: int)
    requires
        0 <= a <= m <= b <= ts.len(),
    ensures
        read_between(ts, a, b) == read_between(ts, m, b) + read_between(ts, a, m),
{
    assert(read_between(ts, a, b) =~= read_between(ts, m, b) + read_between(ts, a, m));
}

/// The bottom part of a stack reads as the stack does there.
proof fn lemma_read_in_prefix(ts: Seq<TokenView>, pre: Seq<TokenView>, a: int, b: int)
    requires
        0 <= a <= b <= pre.len() <= ts.len(),
        pre == ts.subrange(0, pre.len() as int),
    ensures
        read_between(pre, a, b) == read_between(ts, a, b),
{
    assert(pre.subrange(a, b) =~= ts.subrange(a, b));
}

/// An expression parsed from a stack is made of exactly the tokens it
/// consumed, in the order they were read.
pub proof fn lemma_expr_tokens(ts: Seq<TokenView>, min: u8)
    requires
        parse_expr(ts, min) is Ok,
    ensures
        tree_tokens(parse_expr(ts, min)->Ok_0.0) == read_between(
            ts,
            parse_expr(ts, min)->Ok_0.1.len() as int,
            ts.len() as int,
        ),
    decreases ts.len(), 1nat,
{
    let n = ts.len() as int;
    let t = next_of(ts);
    let rest = rest_of(ts);
    lemma_expr_shape(ts, min);
    assert(rest == ts.subrange(0, n - 1));
    assert(read_between(ts, n - 1, n) =~= seq![t]);
    if t is Number {
        let leaf = Tree::Leaf(t);
        lemma_operators_shape(rest, leaf, min);
        lemma_operators_tokens(rest, leaf, min);
        let left = parse_operators(rest, leaf, min)->Ok_0.1;
        lemma_read_in_prefix(ts, rest, left.len() as int, n - 1);
        lemma_read_split(ts, left.len() as int, n - 1, n);
    } else {
        let right = prefix_power(t)->0;
        lemma_expr_shape(rest, right);
        lemma_expr_tokens(rest, right);
        let p = parse_expr(rest, right)->Ok_0;
        let lhs = Tree::Branch(t, seq![p.0]);
        lemma_operators_shape(p.1, lhs, min);
        lemma_operators_tokens(p.1, lhs, min);
        let left = parse_operators(p.1, lhs, min)->Ok_0.1;
        assert(p.1 =~= ts.subrange(0, p.1.len() as int));
        lemma_read_in_prefix(ts, rest, p.1.len() as int, n - 1);
        lemma_read_in_prefix(ts, p.1, left.len() as int, p.1.len() as int);
        assert(tree_tokens(lhs) == seq![t] + tree_tokens(p.0));
        lemma_read_split(ts, left.len() as int, p.1.len() as int, n);
        lemma_read_split(ts, p.1.len() as int, n - 1, n);
    }
}

/// The operators read after an operand add exactly the tokens they
/// consumed, in the order they were read, after the operand's own.
pub proof fn lemma_operators_tokens(ts: Seq<TokenView>, lhs: Tree, min: u8)
    requires
        parse_operators(ts, lhs, min) is Ok,
    ensures
        tree_tokens(parse_operators(ts, lhs, min)->Ok_0.0) == tree_tokens(lhs) + read_between(
            ts,
            parse_operators(ts, lhs, min)->Ok_0.1.len() as int,
            ts.len() as int,
        ),
    decreases ts.len(), 0nat,
{
    let n = ts.len() as int;
    let t = next_of(ts);
    let rest = rest_of(ts);
    lemma_operators_shape(ts, lhs, min);
    if parse_operators(ts, lhs, min) == Ok::<(Tree, Seq<TokenView>), Seq<char>>((lhs, ts)) {
        assert(read_between(ts, n, n) =~= Seq::<TokenView>::empty());
        assert(tree_tokens(lhs) + read_between(ts, n, n) =~= tree_tokens(lhs));
    } else {
        assert(n >= 1);
        assert(rest == ts.subrange(0, n - 1));
        assert(read_between(ts, n - 1, n) =~= seq![t]);
        if postfix_power(t) is Some {
            let next_lhs = Tree::Branch(t, seq![lhs]);
            lemma_operators_shape(rest, next_lhs, min);
            lemma_operators_tokens(rest, next_lhs, min);
            let left = parse_operators(rest, next_lhs, min)->Ok_0.1;
            lemma_read_in_prefix(ts, rest, left.len() as int, n - 1);
            lemma_read_split(ts, left.len() as int, n - 1, n);
            assert(tree_tokens(next_lhs) == tree_tokens(lhs).push(t));
            assert(tree_tokens(lhs).push(t) + read_between(ts, left.len() as int, n - 1)
                =~= tree_tokens(lhs) + (seq![t] + read_between(ts, left.len() as int, n - 1)));
        } else {
            let powers = infix_power(t)->0;
            lemma_expr_shape(rest, powers.1);
            lemma_expr_tokens(rest, powers.1);
            let p = parse_expr(rest, powers.1)->Ok_0;
            let next_lhs = Tree::Branch(t, seq![lhs, p.0]);
            lemma_operators_shape(p.1, next_lhs, min);
            lemma_operators_tokens(p.1, next_lhs, min);
            let left = parse_operators(p.1, next_lhs, min)->Ok_0.1;
            assert(p.1 =~= ts.subrange(0, p.1.len() as int));
            lemma_read_in_prefix(ts, rest, p.1.len() as int, n - 1);
            lemma_read_in_prefix(ts, p.1, left.len() as int, p.1.len() as int);
            assert(tree_tokens(next_lhs) == tree_tokens(lhs) + seq![t] + tree_tokens(p.0));
            lemma_read_split(ts, left.len() as int, p.1.len() as int, n);
            lemma_read_split(ts, p.1.len() as int, n - 1, n);
            let a = read_between(ts, left.len() as int, p.1.len() as int);
            assert(tree_tokens(lhs) + seq![t] + tree_tokens(p.0) + a =~= tree_tokens(lhs) + (
            seq![t] + tree_tokens(p.0) + a));
        }
    }
}

/// How tightly the root of a tree binds: a sum or difference 1, a product or
/// quotient 2, a prefix operator 3, a postfix one 4, a number 5.
pub open spec fn tightness(t: Tree) -> int {
    match t {
        Tree::Leaf(_) => 5,
        Tree::Branch(op, kids) => if kids.len() == 2 {
            operator_level(op)
        } else if postfix_power(op) is Some {
            4
        } else {
            3
        },
    }
}

/// The level of an infix operator: 1 for `+` and `-`, 2 for `*` and `/`.
pub open spec fn operator_level(op: TokenView) -> int {
    if op is Plus || op is Minus {
        1
    } else {
        2
    }
}

/// Precedence and associativity hold throughout a tree: no operand of an
/// operator binds less tightly than the operator, and the right operand of
/// an infix operator binds strictly more tightly, so that operators of one
/// level group to the left.
pub open spec fn well_nested(t: Tree) -> bool
    decreases t,
{
    match t {
        Tree::Leaf(_) => true,
        Tree::Branch(op, kids) => if kids.len() == 2 {
            &&& well_nested(kids[0])
            &&& well_nested(kids[1])
            &&& tightness(kids[0]) >= tightness(t)
            &&& tightness(kids[1]) > tightness(t)
        } else if kids.len() == 1 {
            &&& well_nested(kids[0])
            &&& tightness(kids[0]) >= tightness(t)
        } else {
            true
        },
    }
}

/// The least tightness of what a parse at binding power `min` builds.
pub open spec fn tightness_floor(min: u8) -> int {
    if min <= 1 {
        1
    } else if min <= 3 {
        2
    } else {
        3
    }
}

/// A parse at binding power `min` stops before `next` only at the end or at
/// an operator that binds less tightly than `min`.
pub open spec fn stops_before(next: TokenView, min: u8) -> bool {
    ||| next is Eof
    ||| postfix_power(next) is Some && postfix_power(next)->0 < min
    ||| postfix_power(next) is None && infix_power(next) is Some && (infix_power(next)->0).0 < min
}

/// The operand `lhs` may take the operator `next` if that one applies.
pub open spec fn fits_before(lhs: Tree, next: TokenView, min: u8) -> bool {
    &&& postfix_power(next) is Some && postfix_power(next)->0 >= min ==> tightness(lhs) >= 4
    &&& postfix_power(next) is None && infix_power(next) is Some && (infix_power(next)->0).0 >= min
        ==> tightness(lhs) >= operator_level(next)
}

/// An expression parsed at binding power `min` is well nested, binds at
/// least as tightly as `min` asks, and stops only where it should.
pub proof fn lemma_expr_nested(ts: Seq<TokenView>, min: u8)
    requires
        parse_expr(ts, min) is Ok,
    ensures
        well_nested(parse_expr(ts, min)->Ok_0.0),
        tightness(parse_expr(ts, min)->Ok_0.0) >= tightness_floor(min),
        stops_before(next_of(parse_expr(ts, min)->Ok_0.1), min),
    decreases ts.len(), 1nat,
{
    let t = next_of(ts);
    let rest = rest_of(ts);
    if t is Number {
        lemma_operators_nested(rest, Tree::Leaf(t), min);
    } else {
        let right = prefix_power(t)->0;
        lemma_expr_nested(rest, right);
        let p = parse_expr(rest, right)->Ok_0;
        let lhs = Tree::Branch(t, seq![p.0]);
        assert(lhs->Branch_1[0] == p.0);
        lemma_operators_nested(p.1, lhs, min);
    }
}

/// The operators read after a well-nested operand that may take them keep
/// the tree well nested, as for [`lemma_expr_nested`].
pub proof fn lemma_operators_nested(ts: Seq<TokenView>, lhs: Tree, min: u8)
    requires
        parse_operators(ts, lhs, min) is Ok,
        well_nested(lhs),
        tightness(lhs) >= tightness_floor(min),
        fits_before(lhs, next_of(ts), min),
    ensures
        well_nested(parse_operators(ts, lhs, min)->Ok_0.0),
        tightness(parse_operators(ts, lhs, min)->Ok_0.0) >= tightness_floor(min),
        stops_before(next_of(parse_operators(ts, lhs, min)->Ok_0.1), min),
    decreases ts.len(), 0nat,
{
    let t = next_of(ts);
    let rest = rest_of(ts);
    if t is Eof {
    } else if postfix_power(t) is Some {
        if postfix_power(t)->0 >= min {
            let next_lhs = Tree::Branch(t, seq![lhs]);
            assert(next_lhs->Branch_1[0] == lhs);
            lemma_operators_nested(rest, next_lhs, min);
        }
    } else if infix_power(t) is Some {
        let powers = infix_power(t)->0;
        if powers.0 >= min {
            lemma_expr_nested(rest, powers.1);
            let p = parse_expr(rest, powers.1)->Ok_0;
            let next_lhs = Tree::Branch(t, seq![lhs, p.0]);
            assert(next_lhs->Branch_1[0] == lhs);
            assert(next_lhs->Branch_1[1] == p.0);
            lemma_operators_nested(p.1, next_lhs, min);
        }
    }
}

/// Whether the result `r` of an exec parse, with the tokens `left` that it
/// leaves, is the outcome `expected` of a parse in the model.
pub open spec fn parsed_as(
    r: Result<AST, String>,
    left: Seq<TokenView>,
    expected: Result<(Tree, Seq<TokenView>), Seq<char>>,
) -> bool {
    match expected {
        Ok(p) => r is Ok && r->Ok_0@ == p.0 && left == p.1,
        Err(m) => r is Err && r->Err_0@ == m,
    }
}

/// Builds a syntax tree from the tokens of a lexer.
pub struct Parser<'a> {
    pub lexer: &'a mut Lexer,
}

impl<'a> Parser<'a> {
    /// A parser that reads the tokens of `lexer`.
    pub fn new(lexer: &'a mut Lexer) -> (r: Self)
        ensures
            *r.lexer == *old(lexer),
    {
        Self { lexer }
    }

    /// Parses the whole expression that the lexer's tokens hold. The depth of
    /// recursion grows with the nesting of prefix operators and of right
    /// operands.
    pub fn parse(&mut self) -> (r: Result<AST, String>)
        ensures
            parsed_as(r, views(final(self).lexer.tokens@), parse_expr(views(old(self).lexer.tokens@), 0)),
            *final(self).lexer == (Lexer { tokens: final(self).lexer.tokens, ..*old(self).lexer }),
    {
        self.expr(0)
    }

    /// Parses an expression, going on while operators bind at least as
    /// tightly as `min_binding_power` (precedence climbing).
    fn expr(&mut self, min_binding_power: u8) -> (r: Result<AST, String>)
        ensures
            parsed_as(
                r,
                views(final(self).lexer.tokens@),
                parse_expr(views(old(self).lexer.tokens@), min_binding_power),
            ),
            r is Ok ==> final(self).lexer.tokens@.len() < old(self).lexer.tokens@.len(),
            *final(self).lexer == (Lexer { tokens: final(self).lexer.tokens, ..*old(self).lexer }),
        decreases old(self).lexer.tokens@.len(),
    {
        let ghost ts0 = views(self.lexer.tokens@);
        let ghost start = *self.lexer;
        let first = self.lexer.next_token();
        let mut left_hand_side = match first {
            Token::Number(n) => AST::Node(Token::Number(n)),
            Token::Eof => {
                return Err(String::from_str("Unexpected token : EOF"));
            },
            operator => {
                match Parser::prefix_binding_power(&operator) {
                    None => {
                        return Err(
                            String::from_str("Cannot get prefix binding power of").concat(
                                operator.to_text().as_str(),
                            ),
                        );
                    },
                    Some(right_binding_power) => {
                        match self.expr(right_binding_power) {
                            Ok(right_hand_side) => {
                                let node = AST::Con(operator, vec![right_hand_side]);
                                proof {
                                    assert(node@->Branch_1 =~= seq![right_hand_side@]);
                                }
                                node
                            },
                            Err(err) => {
                                return Err(err);
                            },
                        }
                    },
                }
            },
        };
        loop
            invariant
                ts0 == views(old(self).lexer.tokens@),
                start == *old(self).lexer,
                self.lexer.tokens@.len() < ts0.len(),
                *self.lexer == (Lexer { tokens: self.lexer.tokens, ..start }),
                parse_operators(views(self.lexer.tokens@), left_hand_side@, min_binding_power)
                    == parse_expr(ts0, min_binding_power),
            ensures
                self.lexer.tokens@.len() < ts0.len(),
                *self.lexer == (Lexer { tokens: self.lexer.tokens, ..start }),
                parse_expr(ts0, min_binding_power) == Ok::<(Tree, Seq<TokenView>), Seq<char>>(
                    (left_hand_side@, views(self.lexer.tokens@)),
                ),
            decreases self.lexer.tokens@.len(),
        {
            let operator = self.lexer.peek();
            match &operator {
                Token::Number(n) => {
                    return Err(
                        String::from_str("Expected operator, received number : ").concat(
                            n.as_str(),
                        ),
                    );
                },
                Token::Eof => {
                    break ;
                },
                _ => {},
            }
            match Parser::postfix_binding_power(&operator) {
                Some(left_bp) => {
                    if left_bp < min_binding_power {
                        break ;
                    }
                    self.lexer.next_token();
                    let node = AST::Con(operator, vec![left_hand_side]);
                    proof {
                        assert(node@->Branch_1 =~= seq![left_hand_side@]);
                    }
                    left_hand_side = node;
                },
                None => {
                    match Parser::infix_binding_power(&operator) {
                        None => {
                            return Err(
                                String::from_str("Cannot get infix binding power of").concat(
                                    operator.to_text().as_str(),
                                ),
                            );
                        },
                        Some((left_bp, right_bp)) => {
                            if left_bp < min_binding_power {
                                break ;
                            }
                            self.lexer.next_token();
                            match self.expr(right_bp) {
                                Ok(right_hand_side) => {
                                    let node = AST::Con(
                                        operator,
                                        vec![left_hand_side, right_hand_side],
                                    );
                                    proof {
                                        assert(node@->Branch_1 =~= seq![
                                            left_hand_side@,
                                            right_hand_side@,
                                        ]);
                                    }
                                    left_hand_side = node;
                                },
                                Err(err) => {
                                    return Err(err);
                                },
                            }
                        },
                    }
                },
            }
        }
        Ok(left_hand_side)
    }

    /// The right binding power of a prefix operator, see [`prefix_power`].
    fn prefix_binding_power(token: &Token) -> (r: Option<u8>)
        ensures
            r == prefix_power(token@),
    {
        match token {
            Token::Minus | Token::Plus => Some(5),
            _ => None,
        }
    }

    /// The left binding power of a postfix operator, see [`postfix_power`].
    fn postfix_binding_power(token: &Token) -> (r: Option<u8>)
        ensures
            r == postfix_power(token@),
    {
        match token {
            Token::Bang => Some(6),
            _ => None,
        }
    }

    /// The binding powers of an infix operator, see [`infix_power`].
    fn infix_binding_power(token: &Token) -> (r: Option<(u8, u8)>)
        ensures
            r == infix_power(token@),
    {
        match token {
            Token::Plus | Token::Minus => Some((1, 2)),
            Token::Star | Token::Slash => Some((3, 4)),
            _ => None,
        }
    }
}

} // verus!
