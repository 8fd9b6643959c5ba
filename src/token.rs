use vstd::prelude::*;
use vstd::string::StringExecFns;

verus! {

/// One lexical unit of an expression. A number keeps the text it was
/// written with; converting it to a machine number is left to the caller.
#[derive(Debug, Clone, PartialEq)]
pub enum Token {
    Number(String),
    Plus,
    Minus,
    Star,
    Slash,
    Bang,
    LeftParen,
    RightParen,
    Eof,
}

/// The mathematical value of a [`Token`]: a number is its digits.
pub enum TokenView {
    Number(Seq<char>),
    Plus,
    Minus,
    Star,
    Slash,
    Bang,
    LeftParen,
    RightParen,
    Eof,
}

impl View for Token {
    type V = TokenView;

    open spec fn view(&self) -> TokenView {
        match self {
            Token::Number(s) => TokenView::Number(s@),
            Token::Plus => TokenView::Plus,
            Token::Minus => TokenView::Minus,
            Token::Star => TokenView::Star,
            Token::Slash => TokenView::Slash,
            Token::Bang => TokenView::Bang,
            Token::LeftParen => TokenView::LeftParen,
            Token::RightParen => TokenView::RightParen,
            Token::Eof => TokenView::Eof,
        }
    }
}

/// The views of a sequence of tokens.
pub open spec fn views(ts: Seq<Token>) -> Seq<TokenView> {
    ts.map_values(|t: Token| t@)
}

/// The printed form of a token: its symbol or number between two spaces.
pub open spec fn token_text(t: TokenView) -> Seq<char> {
    match t {
        TokenView::Number(n) => " "@ + n + " "@,
        TokenView::Plus => " + "@,
        TokenView::Minus => " - "@,
        TokenView::Star => " * "@,
        TokenView::Slash => " / "@,
        TokenView::Bang => " ! "@,
        TokenView::LeftParen => " ( "@,
        TokenView::RightParen => " ) "@,
        TokenView::Eof => " EOF "@,
    }
}

impl Token {
    /// A copy of this token.
    pub fn duplicate(&self) -> (r: Token)
        ensures
            r@ == self@,
    {
        match self {
            Token::Number(s) => Token::Number(s.clone()),
            Token::Plus => Token::Plus,
            Token::Minus => Token::Minus,
            Token::Star => Token::Star,
            Token::Slash => Token::Slash,
            Token::Bang => Token::Bang,
            Token::LeftParen => Token::LeftParen,
            Token::RightParen => Token::RightParen,
            Token::Eof => Token::Eof,
        }
    }

    /// The printed form of the token, see [`token_text`].
    pub fn to_text(&self) -> (r: String)
        ensures
            r@ == token_text(self@),
    {
        match self {
            Token::Number(n) => String::from_str(" ").concat(n.as_str()).concat(" "),
            Token::Plus => String::from_str(" + "),
            Token::Minus => String::from_str(" - "),
            Token::Star => String::from_str(" * "),
            Token::Slash => String::from_str(" / "),
            Token::Bang => String::from_str(" ! "),
            Token::LeftParen => String::from_str(" ( "),
            Token::RightParen => String::from_str(" ) "),
            Token::Eof => String::from_str(" EOF "),
        }
    }
}

} // verus!
