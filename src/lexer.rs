use vstd::prelude::*;
use vstd::string::{StrSliceExecFns, StringExecFns};

use crate::token::{views, Token, TokenView};

verus! {

/// A decimal digit, `0` to `9`.
pub open spec fn is_digit(c: char) -> bool {
    '0' <= c && c <= '9'
}

/// Characters that separate tokens and produce none.
pub open spec fn is_blank(c: char) -> bool {
    c == ' ' || c == '\t' || c == '\r'
}

/// The token that a one-character operator stands for.
pub open spec fn operator_of(c: char) -> Option<TokenView> {
    if c == '+' {
        Some(TokenView::Plus)
    } else if c == '-' {
        Some(TokenView::Minus)
    } else if c == '*' {
        Some(TokenView::Star)
    } else if c == '/' {
        Some(TokenView::Slash)
    } else if c == '!' {
        Some(TokenView::Bang)
    } else {
        None
    }
}

/// The number of digits in `cs` from position `i` on, up to the first non-digit.
pub open spec fn digit_run(cs: Seq<char>, i: int) -> nat
    decreases cs.len() - i,
{
    if 0 <= i < cs.len() && is_digit(cs[i]) {
        1 + digit_run(cs, i + 1)
    } else {
        0
    }
}

/// The length of the numeral that starts with the digit at `i`: digits,
/// then a point and digits if a digit follows the point.
pub open spec fn numeral_len(cs: Seq<char>, i: int) -> nat {
    let whole = 1 + digit_run(cs, i + 1);
    let j = i + whole;
    if j + 1 < cs.len() && cs[j] == '.' && is_digit(cs[j + 1]) {
        whole + 1 + digit_run(cs, j + 1)
    } else {
        whole
    }
}

/// The tokens of `cs` from position `i` on, in reading order.
pub open spec fn scan_from(cs: Seq<char>, i: int) -> Seq<TokenView>
    decreases cs.len() - i,
    via numeral_advances_scan
{
    if i < 0 || i >= cs.len() {
        Seq::empty()
    } else if operator_of(cs[i]) is Some {
        seq![operator_of(cs[i])->0] + scan_from(cs, i + 1)
    } else if is_digit(cs[i]) {
        let j = i + numeral_len(cs, i);
        seq![TokenView::Number(cs.subrange(i, j))] + scan_from(cs, j)
    } else {
        scan_from(cs, i + 1)
    }
}

/// Whether `cs` holds, from position `i` on, a character that starts no
/// token and is no blank.
pub open spec fn faulty_from(cs: Seq<char>, i: int) -> bool
    decreases cs.len() - i,
    via numeral_advances_check
{
    if i < 0 || i >= cs.len() {
        false
    } else if operator_of(cs[i]) is Some || is_blank(cs[i]) {
        faulty_from(cs, i + 1)
    } else if is_digit(cs[i]) {
        faulty_from(cs, i + numeral_len(cs, i))
    } else {
        true
    }
}

/// A run of digits stays within the input.
pub proof fn lemma_digit_run_bound(cs: Seq<char>, i: int)
    requires
        0 <= i <= cs.len(),
    ensures
        digit_run(cs, i) <= cs.len() - i,
    decreases cs.len() - i,
{
    if i < cs.len() && is_digit(cs[i]) {
        lemma_digit_run_bound(cs, i + 1);
    }
}

/// A numeral is at least one character long and stays within the input.
pub proof fn lemma_numeral_bound(cs: Seq<char>, i: int)
    requires
        0 <= i < cs.len(),
    ensures
        1 <= numeral_len(cs, i) <= cs.len() - i,
{
    lemma_digit_run_bound(cs, i + 1);
    let j = i + 1 + digit_run(cs, i + 1);
    if j + 1 < cs.len() && cs[j] == '.' && is_digit(cs[j + 1]) {
        lemma_digit_run_bound(cs, j + 1);
    }
}

/// Scanning moves forward past each numeral, so `scan_from` ends.
#[via_fn]
proof fn numeral_advances_scan(cs: Seq<char>, i: int) {
    if 0 <= i < cs.len() {
        lemma_numeral_bound(cs, i);
    }
}

/// Checking moves forward past each numeral, so `faulty_from` ends.
#[via_fn]
proof fn numeral_advances_check(cs: Seq<char>, i: int) {
    if 0 <= i < cs.len() {
        lemma_numeral_bound(cs, i);
    }
}

/// The characters that may stand in an expression.
pub open spec fn is_allowed(c: char) -> bool {
    is_digit(c) || c == '.' || operator_of(c) is Some || is_blank(c)
}

/// A run of digits holds digits only.
pub proof fn lemma_digit_run_digits(cs: Seq<char>, i: int, k: int)
    requires
        0 <= i <= k < i + digit_run(cs, i),
    ensures
        is_digit(cs[k]),
    decreases cs.len() - i,
{
    if k > i {
        lemma_digit_run_digits(cs, i + 1, k);
    }
}

/// A numeral holds digits and points only.
pub proof fn lemma_numeral_chars(cs: Seq<char>, p: int, k: int)
    requires
        0 <= p < cs.len(),
        is_digit(cs[p]),
        p <= k < p + numeral_len(cs, p),
    ensures
        is_digit(cs[k]) || cs[k] == '.',
{
    let j = p + 1 + digit_run(cs, p + 1);
    if p < k < j {
        lemma_digit_run_digits(cs, p + 1, k);
    } else if k > j {
        lemma_digit_run_digits(cs, j + 1, k);
    }
}

/// A character that may not stand in an expression, anywhere from position
/// `p` on, makes the scan from `p` faulty.
pub proof fn lemma_foreign_is_faulty(cs: Seq<char>, p: int, i: int)
    requires
        0 <= p <= i < cs.len(),
        !is_allowed(cs[i]),
    ensures
        faulty_from(cs, p),
    decreases i - p,
{
    if p < i {
        if operator_of(cs[p]) is Some || is_blank(cs[p]) {
            lemma_foreign_is_faulty(cs, p + 1, i);
        } else if is_digit(cs[p]) {
            lemma_numeral_bound(cs, p);
            if i < p + numeral_len(cs, p) {
                lemma_numeral_chars(cs, p, i);
            }
            lemma_foreign_is_faulty(cs, p + numeral_len(cs, p), i);
        }
    }
}

/// Whether every character of `s` is a digit.
pub open spec fn all_digits(s: Seq<char>) -> bool {
    forall|k: int| 0 <= k < s.len() ==> is_digit(#[trigger] s[k])
}

/// A numeral: digits, then a point and digits if there is a point.
pub open spec fn is_numeral(cs: Seq<char>) -> bool {
    ||| cs.len() >= 1 && all_digits(cs)
    ||| exists|k: int|
        1 <= k && k + 1 < cs.len() && #[trigger] cs[k] == '.' && all_digits(cs.subrange(0, k))
            && all_digits(cs.subrange(k + 1, cs.len() as int))
}

/// A run of digits from `i` that ends at `j` is `j - i` long.
pub proof fn lemma_digit_run_exact(cs: Seq<char>, i: int, j: int)
    requires
        0 <= i <= j <= cs.len(),
        forall|k: int| i <= k < j ==> is_digit(#[trigger] cs[k]),
        j == cs.len() || !is_digit(cs[j]),
    ensures
        digit_run(cs, i) == j - i,
    decreases j - i,
{
    if i < j {
        lemma_digit_run_exact(cs, i + 1, j);
    }
}

/// A numeral scans as one number token that holds all of it, with no fault.
pub proof fn lemma_numeral_scan(cs: Seq<char>)
    requires
        is_numeral(cs),
    ensures
        scan_from(cs, 0) == seq![TokenView::Number(cs)],
        !faulty_from(cs, 0),
{
    if cs.len() >= 1 && all_digits(cs) {
        lemma_digit_run_exact(cs, 1, cs.len() as int);
    } else {
        let k = choose|k: int|
            1 <= k && k + 1 < cs.len() && #[trigger] cs[k] == '.' && all_digits(
                cs.subrange(0, k),
            ) && all_digits(cs.subrange(k + 1, cs.len() as int));
        assert forall|m: int| 1 <= m < k implies is_digit(#[trigger] cs[m]) by {
            assert(cs.subrange(0, k)[m] == cs[m]);
        }
        assert forall|m: int| k + 1 <= m < cs.len() implies is_digit(#[trigger] cs[m]) by {
            assert(cs.subrange(k + 1, cs.len() as int)[m - k - 1] == cs[m]);
        }
        assert(cs.subrange(0, k)[0] == cs[0]);
        lemma_digit_run_exact(cs, 1, k);
        lemma_digit_run_exact(cs, k + 1, cs.len() as int);
    }
    assert(is_digit(cs[0]));
    assert(numeral_len(cs, 0) == cs.len());
    assert(!faulty_from(cs, cs.len() as int));
    assert(cs.subrange(0, cs.len() as int) =~= cs);
    assert(scan_from(cs, cs.len() as int) == Seq::<TokenView>::empty());
    assert(scan_from(cs, 0) =~= seq![TokenView::Number(cs)]);
}

/// Scanning never yields `Eof`: that token only marks the end.
pub proof fn lemma_scan_has_no_eof(cs: Seq<char>, i: int)
    ensures
        forall|k: int|
            0 <= k < scan_from(cs, i).len() ==> !(#[trigger] scan_from(cs, i)[k] is Eof),
    decreases cs.len() - i,
{
    if 0 <= i < cs.len() {
        let c = cs[i];
        let next = if operator_of(c) is Some {
            i + 1
        } else if is_digit(c) {
            lemma_numeral_bound(cs, i);
            i + numeral_len(cs, i)
        } else {
            i + 1
        };
        lemma_scan_has_no_eof(cs, next);
        let tail = scan_from(cs, next);
        if operator_of(c) is Some || is_digit(c) {
            assert forall|k: int| 0 <= k < scan_from(cs, i).len() implies !(#[trigger] scan_from(
                cs,
                i,
            )[k] is Eof) by {
                if k > 0 {
                    assert(scan_from(cs, i)[k] == tail[k - 1]);
                }
            }
        }
    }
}

/// The token that a parser reads next from a stack of tokens whose top is
/// its last element: `Eof` when the stack is empty.
pub open spec fn next_of(ts: Seq<TokenView>) -> TokenView {
    if ts.len() == 0 {
        TokenView::Eof
    } else {
        ts.last()
    }
}

/// The stack left once the next token is read.
pub open spec fn rest_of(ts: Seq<TokenView>) -> Seq<TokenView> {
    if ts.len() == 0 {
        ts
    } else {
        ts.drop_last()
    }
}

/// The tokens of a whole input, in reading order, ending with `Eof`.
pub open spec fn tokens_of(cs: Seq<char>) -> Seq<TokenView> {
    scan_from(cs, 0).push(TokenView::Eof)
}

fn is_digit_char(c: char) -> (r: bool)
    ensures
        r == is_digit(c),
{
    '0' <= c && c <= '9'
}

/// Turns an input string into tokens.
pub struct Lexer {
    /// The input.
    pub source_string: String,
    /// The input's characters.
    pub source_chars: Vec<char>,
    /// Where the token being scanned starts.
    pub start: usize,
    /// The position of the next character to read.
    pub current: usize,
    /// The tokens scanned so far; after `scan`, the last one is read first.
    pub tokens: Vec<Token>,
    /// The number of characters of the input.
    pub len: usize,
    /// Whether a character was found that belongs to no token.
    pub has_errors: bool,
}

impl Lexer {
    /// The characters agree with the string, and the positions lie within them.
    pub open spec fn well_formed(&self) -> bool {
        &&& self.source_chars@ == self.source_string@
        &&& self.len == self.source_chars@.len()
        &&& self.start <= self.current <= self.len
    }

    /// A lexer over `input` that has read nothing yet.
    pub fn new(input: String) -> (r: Lexer)
        ensures
            r.well_formed(),
            r.source_string@ == input@,
            r.start == 0,
            r.current == 0,
            r.tokens@.len() == 0,
            !r.has_errors,
    {
        let n = input.as_str().unicode_len();
        let mut chars: Vec<char> = Vec::new();
        let mut i: usize = 0;
        while i < n
            invariant
                n == input@.len(),
                i <= n,
                chars@ == input@.subrange(0, i as int),
            decreases n - i,
        {
            chars.push(input.as_str().get_char(i));
            i += 1;
        }
        proof {
            assert(chars@ =~= input@);
        }
        Lexer {
            source_string: input,
            source_chars: chars,
            start: 0,
            current: 0,
            tokens: Vec::new(),
            len: n,
            has_errors: false,
        }
    }

    /// Scans the rest of the input, appends `Eof`, and reverses the tokens so
    /// that popping them from the end yields them in reading order.
    pub fn scan(&mut self)
        requires
            old(self).well_formed(),
        ensures
            final(self).well_formed(),
            final(self).source_string == old(self).source_string,
            final(self).current == final(self).len,
            views(final(self).tokens@) == (views(old(self).tokens@) + scan_from(
                old(self).source_chars@,
                old(self).current as int,
            )).push(TokenView::Eof).reverse(),
            final(self).has_errors == (old(self).has_errors || faulty_from(
                old(self).source_chars@,
                old(self).current as int,
            )),
    {
        let ghost cs = self.source_chars@;
        let ghost from = self.current as int;
        let ghost before = views(self.tokens@);
        self.start = self.current;
        while !self.is_at_end()
            invariant
                self.well_formed(),
                self.source_chars@ == cs,
                self.source_string == old(self).source_string,
                self.start == self.current,
                views(self.tokens@) + scan_from(cs, self.current as int) == before + scan_from(
                    cs,
                    from,
                ),
                (self.has_errors || faulty_from(cs, self.current as int)) == (old(self).has_errors
                    || faulty_from(cs, from)),
            decreases self.len - self.current,
        {
            self.scan_token();
            self.start = self.current;
        }
        assert(!faulty_from(cs, self.current as int));
        self.add_token(Token::Eof);
        let ghost all = self.tokens@;
        let mut reversed: Vec<Token> = Vec::new();
        while self.tokens.len() > 0
            invariant
                self.well_formed(),
                self.source_chars@ == cs,
                self.source_string == old(self).source_string,
                self.current == self.len,
                self.has_errors == (old(self).has_errors || faulty_from(cs, from)),
                reversed@.len() + self.tokens@.len() == all.len(),
                self.tokens@ == all.subrange(0, self.tokens@.len() as int),
                reversed@ == all.reverse().subrange(0, reversed@.len() as int),
            decreases self.tokens@.len(),
        {
            match self.tokens.pop() {
                Some(t) => reversed.push(t),
                None => {},
            }
            proof {
                assert(reversed@ =~= all.reverse().subrange(0, reversed@.len() as int));
            }
        }
        self.tokens = reversed;
        proof {
            assert(self.tokens@ =~= all.reverse());
            assert(views(all) =~= (before + scan_from(cs, from)).push(TokenView::Eof));
            assert(views(all.reverse()) =~= views(all).reverse());
        }
    }

    /// Scans the token that starts at `current`.
    fn scan_token(&mut self)
        requires
            old(self).well_formed(),
            old(self).start == old(self).current,
            old(self).current < old(self).len,
        ensures
            final(self).well_formed(),
            final(self).source_chars@ == old(self).source_chars@,
            final(self).source_string == old(self).source_string,
            final(self).current > old(self).current,
            views(final(self).tokens@) + scan_from(
                final(self).source_chars@,
                final(self).current as int,
            ) == views(old(self).tokens@) + scan_from(
                old(self).source_chars@,
                old(self).current as int,
            ),
            (final(self).has_errors || faulty_from(
                final(self).source_chars@,
                final(self).current as int,
            )) == (old(self).has_errors || faulty_from(
                old(self).source_chars@,
                old(self).current as int,
            )),
    {
        let ghost cs = self.source_chars@;
        let ghost i = self.current as int;
        let ghost before = views(self.tokens@);
        let c = self.advance();
        proof {
            lemma_numeral_bound(cs, i);
        }
        if c == '+' {
            self.add_token(Token::Plus);
        } else if c == '-' {
            self.add_token(Token::Minus);
        } else if c == '*' {
            self.add_token(Token::Star);
        } else if c == '/' {
            self.add_token(Token::Slash);
        } else if c == '!' {
            self.add_token(Token::Bang);
        } else if c == ' ' || c == '\t' || c == '\r' {
        } else if is_digit_char(c) {
            self.scan_number();
        } else {
            self.has_errors = true;
        }
        proof {
            assert(views(self.tokens@) =~= before + scan_from(cs, i).subrange(
                0,
                views(self.tokens@).len() - before.len(),
            ));
        }
    }

    /// Reads the rest of a numeral whose first digit was just consumed, and
    /// adds it as a number token.
    fn scan_number(&mut self)
        requires
            old(self).well_formed(),
            old(self).current == old(self).start + 1,
            is_digit(old(self).source_chars@[old(self).start as int]),
        ensures
            final(self).well_formed(),
            final(self).source_chars@ == old(self).source_chars@,
            final(self).source_string == old(self).source_string,
            final(self).has_errors == old(self).has_errors,
            final(self).start == old(self).start,
            final(self).current == old(self).start + numeral_len(
                old(self).source_chars@,
                old(self).start as int,
            ),
            final(self).tokens@ == old(self).tokens@.push(
                Token::Number(final(self).tokens@.last()->0),
            ),
            final(self).tokens@.last()->0@ == old(self).source_chars@.subrange(
                old(self).start as int,
                final(self).current as int,
            ),
    {
        let ghost cs = self.source_chars@;
        let ghost s = self.start as int;
        proof {
            lemma_numeral_bound(cs, s);
        }
        while is_digit_char(self.look_ahead())
            invariant
                self.well_formed(),
                self.source_chars@ == cs,
                self.source_string == old(self).source_string,
                self.start == s,
                self.tokens == old(self).tokens,
                self.has_errors == old(self).has_errors,
                s + 1 <= self.current,
                self.current + digit_run(cs, self.current as int) == s + 1 + digit_run(cs, s + 1),
            decreases self.len - self.current,
        {
            self.advance();
        }
        let ghost j = self.current as int;
        if self.look_ahead() == '.' && is_digit_char(self.look_ahead_twice()) {
            self.advance();
            while is_digit_char(self.look_ahead())
                invariant
                    self.well_formed(),
                    self.source_chars@ == cs,
                    self.source_string == old(self).source_string,
                    self.start == s,
                    self.tokens == old(self).tokens,
                    self.has_errors == old(self).has_errors,
                    j + 1 <= self.current,
                    self.current + digit_run(cs, self.current as int) == j + 1 + digit_run(
                        cs,
                        j + 1,
                    ),
                decreases self.len - self.current,
            {
                self.advance();
            }
        }
        let literal = String::from_str(
            self.source_string.as_str().substring_char(self.start, self.current),
        );
        self.add_token(Token::Number(literal));
    }

    /// Consumes the current character and returns it.
    fn advance(&mut self) -> (c: char)
        requires
            old(self).well_formed(),
            old(self).current < old(self).len,
        ensures
            *final(self) == (Lexer { current: (old(self).current + 1) as usize, ..*old(self) }),
            c == old(self).source_chars@[old(self).current as int],
    {
        self.current += 1;
        self.source_chars[self.current - 1]
    }

    /// The current character, or `'\0'` at the end of the input.
    fn look_ahead(&self) -> (c: char)
        requires
            self.well_formed(),
        ensures
            c == if self.current < self.len {
                self.source_chars@[self.current as int]
            } else {
                '\0'
            },
    {
        if self.is_at_end() {
            return '\0';
        }
        self.source_chars[self.current]
    }

    /// The character after the current one, or `'\0'` past the end of the input.
    fn look_ahead_twice(&self) -> (c: char)
        requires
            self.well_formed(),
        ensures
            c == if self.current + 1 < self.len {
                self.source_chars@[self.current + 1]
            } else {
                '\0'
            },
    {
        if self.current >= self.len || self.current + 1 >= self.len {
            return '\0';
        }
        self.source_chars[self.current + 1]
    }

    /// Removes and returns the next token; `Eof` once none is left.
    pub fn next_token(&mut self) -> (r: Token)
        ensures
            r@ == next_of(views(old(self).tokens@)),
            views(final(self).tokens@) == rest_of(views(old(self).tokens@)),
            final(self).tokens@ == if old(self).tokens@.len() == 0 {
                old(self).tokens@
            } else {
                old(self).tokens@.drop_last()
            },
            *final(self) == (Lexer { tokens: final(self).tokens, ..*old(self) }),
    {
        let r = match self.tokens.pop() {
            Some(t) => t,
            None => Token::Eof,
        };
        proof {
            assert(views(final(self).tokens@) =~= rest_of(views(old(self).tokens@)));
        }
        r
    }

    /// The next token, left in place; `Eof` when none is left.
    pub fn peek(&self) -> (r: Token)
        ensures
            r@ == next_of(views(self.tokens@)),
    {
        let n = self.tokens.len();
        if n == 0 {
            Token::Eof
        } else {
            self.tokens[n - 1].duplicate()
        }
    }

    /// Whether the whole input has been read.
    fn is_at_end(&self) -> (r: bool)
        ensures
            r == (self.current >= self.len),
    {
        self.current >= self.len
    }

    /// Appends a token.
    fn add_token(&mut self, token: Token)
        ensures
            *final(self) == (Lexer { tokens: final(self).tokens, ..*old(self) }),
            final(self).tokens@ == old(self).tokens@.push(token),
    {
        self.tokens.push(token);
    }
}

} // verus!
