use expr_resolver::ast::AST;
use expr_resolver::interpreter::Step;
use expr_resolver::lexer::Lexer;
use expr_resolver::parser::Parser;
use expr_resolver::token::Token;
use expr_resolver::{analyse, compile};

fn push(text: &str) -> Step {
    Step::Push(text.to_string())
}

fn number(text: &str) -> Token {
    Token::Number(text.to_string())
}

fn parse_tokens(tokens: Vec<Token>) -> Result<AST, String> {
    let mut lexer = Lexer::new(String::new());
    lexer.tokens = tokens;
    let mut parser = Parser::new(&mut lexer);
    parser.parse()
}

#[test]
fn multiplication_binds_tighter_than_addition() {
    assert_eq!(
        compile("2+2*2".to_string()),
        Ok(vec![push("2"), push("2"), push("2"), Step::Multiply, Step::Add])
    );
}

#[test]
fn operators_of_one_level_associate_left() {
    assert_eq!(
        compile("2+2*2*2*2+2".to_string()),
        Ok(vec![
            push("2"),
            push("2"),
            push("2"),
            Step::Multiply,
            push("2"),
            Step::Multiply,
            push("2"),
            Step::Multiply,
            Step::Add,
            push("2"),
            Step::Add,
        ])
    );
    assert_eq!(
        compile("8-2-1".to_string()),
        Ok(vec![push("8"), push("2"), Step::Subtract, push("1"), Step::Subtract])
    );
}

#[test]
fn prefix_operators_chain() {
    assert_eq!(compile("--2".to_string()), Ok(vec![push("2"), Step::Negate, Step::Negate]));
    assert_eq!(
        compile("2--2".to_string()),
        Ok(vec![push("2"), push("2"), Step::Negate, Step::Subtract])
    );
}

#[test]
fn postfix_binds_tighter_than_prefix_and_infix() {
    assert_eq!(compile("3!".to_string()), Ok(vec![push("3"), Step::Factorial]));
    assert_eq!(compile("-3!".to_string()), Ok(vec![push("3"), Step::Factorial, Step::Negate]));
    assert_eq!(
        compile("3--3!".to_string()),
        Ok(vec![push("3"), push("3"), Step::Factorial, Step::Negate, Step::Subtract])
    );
    assert_eq!(compile("3.2!".to_string()), Ok(vec![push("3.2"), Step::Factorial]));
}

#[test]
fn mixed_precedence() {
    assert_eq!(
        compile("-2/2+2*2".to_string()),
        Ok(vec![
            push("2"),
            Step::Negate,
            push("2"),
            Step::Divide,
            push("2"),
            push("2"),
            Step::Multiply,
            Step::Add,
        ])
    );
}

#[test]
fn single_number_is_its_own_value() {
    assert_eq!(compile("20".to_string()), Ok(vec![push("20")]));
    assert_eq!(compile(" 0.25 ".to_string()), Ok(vec![push("0.25")]));
    assert!(matches!(analyse("7".to_string()), Ok(AST::Node(Token::Number(n))) if n == "7"));
}

#[test]
fn lexical_errors_are_refused() {
    let message = Err("Found lexical error(s) in the expression.".to_string());
    assert_eq!(compile("2&2".to_string()), message);
    assert_eq!(compile("2)2".to_string()), message);
    assert_eq!(compile("(2".to_string()), message);
    assert!(analyse("2 & 2".to_string()).is_err());
}

#[test]
fn number_after_number_is_refused() {
    assert_eq!(
        compile("2 3".to_string()),
        Err("Expected operator, received number : 3".to_string())
    );
    assert!(analyse("1+2 3.5".to_string()).is_err());
}

#[test]
fn missing_operand_is_refused() {
    let message = Err("Unexpected token : EOF".to_string());
    assert_eq!(compile("2+".to_string()), message);
    assert_eq!(compile("".to_string()), message);
    assert_eq!(compile("-".to_string()), message);
}

#[test]
fn operator_without_a_prefix_role_is_refused() {
    assert_eq!(
        compile("!2".to_string()),
        Err("Cannot get prefix binding power of ! ".to_string())
    );
    assert_eq!(
        compile("*2".to_string()),
        Err("Cannot get prefix binding power of * ".to_string())
    );
}

#[test]
fn parentheses_have_no_role() {
    assert_eq!(
        parse_tokens(vec![Token::Eof, number("1"), Token::LeftParen]).err(),
        Some("Cannot get prefix binding power of ( ".to_string())
    );
    assert_eq!(
        parse_tokens(vec![Token::Eof, Token::RightParen, number("1")]).err(),
        Some("Cannot get infix binding power of ) ".to_string())
    );
}

#[test]
fn empty_token_stack_ends_early() {
    assert_eq!(parse_tokens(Vec::new()).err(), Some("Unexpected token : EOF".to_string()));
}

#[test]
fn parser_reads_a_scanned_lexer() {
    let mut lexer = Lexer::new("1*2".to_string());
    lexer.scan();
    let mut parser = Parser::new(&mut lexer);
    let ast = parser.parse().unwrap();
    assert_eq!(ast.to_text(), "( *   1   2 )");
    assert_eq!(lexer.tokens, vec![Token::Eof]);
}

#[test]
fn parsing_twice_gives_the_same_tree() {
    let first = analyse("1+-2*3!".to_string()).unwrap();
    let second = analyse("1+-2*3!".to_string()).unwrap();
    assert_eq!(first.to_text(), second.to_text());
    assert_eq!(first.to_text(), "( +   1 ( * ( -   2 )( !   3 )))");
}

#[test]
fn unary_plus_parses() {
    assert!(matches!(analyse("+2".to_string()), Ok(AST::Con(Token::Plus, _))));
}
