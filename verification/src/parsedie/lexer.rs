//! The tokenizer: from characters to tokens, one token per request.

use super::tokens::Token;
use vstd::prelude::*;

verus! {

/// Why a token could not be produced.
#[derive(Debug, PartialEq, Eq, Clone, Copy, Structural)]
pub enum LexerError {
    /// A digit run names a number above `i128::MAX`.
    NumberOverflow,
    /// A character outside the alphabet, or the `(` that directly follows a
    /// digit run.
    InvalidCharacter(char),
}

/// Whether `c` is one of `0` to `9`.
pub open spec fn is_digit(c: char) -> bool {
    '0' <= c <= '9'
}

/// The number that a digit stands for.
pub open spec fn digit_value(c: char) -> int {
    c as int - '0' as int
}

/// The number that a run of digits denotes in base ten.
pub open spec fn decimal_value(digits: Seq<char>) -> int
    decreases digits.len(),
{
    if digits.len() == 0 {
        0
    } else {
        decimal_value(digits.drop_last()) * 10 + digit_value(digits.last())
    }
}

/// The first index at or after `from` that holds no digit.
pub open spec fn digits_end(s: Seq<char>, from: int) -> int
    decreases s.len() - from,
{
    if 0 <= from < s.len() && is_digit(s[from]) {
        digits_end(s, from + 1)
    } else {
        from
    }
}

/// The token that a single character stands for, if it is one of
/// `+ - * / ^ ( ) d`.
pub open spec fn symbol_token(c: char) -> Option<Token> {
    if c == '+' {
        Some(Token::Add)
    } else if c == '-' {
        Some(Token::Subtract)
    } else if c == '*' {
        Some(Token::Multiply)
    } else if c == '/' {
        Some(Token::Divide)
    } else if c == '^' {
        Some(Token::Caret)
    } else if c == '(' {
        Some(Token::LeftParen)
    } else if c == ')' {
        Some(Token::RightParen)
    } else if c == 'd' {
        Some(Token::Die)
    } else {
        None
    }
}

/// The token that starts at `pos` in `s`, and the position just after it.
///
/// At or past the end this is `EOF`, and the position stays. A digit run is
/// taken as long as it goes; a `(` right behind it is an error that takes
/// precedence over the run's size.
pub open spec fn lex_spec(s: Seq<char>, pos: int) -> (Result<Token, LexerError>, int) {
    if !(0 <= pos < s.len()) {
        (Ok(Token::EOF), pos)
    } else if is_digit(s[pos]) {
        let end = digits_end(s, pos + 1);
        if end < s.len() && s[end] == '(' {
            (Err(LexerError::InvalidCharacter('(')), end)
        } else if decimal_value(s.subrange(pos, end)) > i128::MAX {
            (Err(LexerError::NumberOverflow), end)
        } else {
            (Ok(Token::Num(decimal_value(s.subrange(pos, end)) as i128)), end)
        }
    } else {
        match symbol_token(s[pos]) {
            Some(t) => (Ok(t), pos + 1),
            None => (Err(LexerError::InvalidCharacter(s[pos])), pos + 1),
        }
    }
}

/// The run of digits ends inside the text, at or after where it starts.
pub proof fn lemma_digits_end_bounds(s: Seq<char>, from: int)
    requires
        0 <= from <= s.len(),
    ensures
        from <= digits_end(s, from) <= s.len(),
        forall|i: int| from <= i < digits_end(s, from) ==> is_digit(#[trigger] s[i]),
        digits_end(s, from) < s.len() ==> !is_digit(s[digits_end(s, from)]),
    decreases s.len() - from,
{
    if from < s.len() && is_digit(s[from]) {
        lemma_digits_end_bounds(s, from + 1);
    }
}

/// Every token but `EOF` takes at least one character.
pub proof fn lemma_lex_advances(s: Seq<char>, pos: int)
    requires
        0 <= pos <= s.len(),
    ensures
        pos <= lex_spec(s, pos).1 <= s.len(),
        pos < s.len() ==> pos < lex_spec(s, pos).1,
        lex_spec(s, pos).0 == Ok::<Token, LexerError>(Token::EOF) <==> pos == s.len(),
{
    if pos < s.len() {
        lemma_digits_end_bounds(s, pos + 1);
    }
}

/// A tokenizer over one expression at a time.
pub struct Lexer {
    current_expr: Vec<char>,
    position: usize,
}

impl Lexer {
    #[verifier::type_invariant]
    spec fn in_bounds(&self) -> bool {
        self.position <= self.current_expr.len()
    }

    /// The characters of the expression being tokenized.
    pub closed spec fn input(&self) -> Seq<char> {
        self.current_expr@
    }

    /// How many characters have been consumed.
    pub closed spec fn cursor(&self) -> int {
        self.position as int
    }

    /// A tokenizer over the empty expression.
    pub fn new() -> (lexer: Lexer)
        ensures
            lexer.input() == Seq::<char>::empty(),
            lexer.cursor() == 0,
    {
        Lexer { current_expr: Vec::new(), position: 0 }
    }

    /// Whether every character has been consumed.
    pub open spec fn at_end(&self) -> bool {
        self.cursor() >= self.input().len()
    }
}

/// The characters of a string slice, in order.
pub fn chars_of(s: &str) -> (v: Vec<char>)
    ensures
        v@ == s@,
{
    broadcast use vstd::string::group_string_axioms;

    let mut v: Vec<char> = Vec::new();
    for c in it: s.chars()
        invariant
            it.seq() == s@,
            v@ == it.seq().take(it.index() as int),
    {
        v.push(c);
    }
    v
}

fn is_digit_char(c: char) -> (b: bool)
    ensures
        b == is_digit(c),
{
    '0' <= c && c <= '9'
}

fn digit_of(c: char) -> (d: i128)
    requires
        is_digit(c),
    ensures
        d == digit_value(c),
        0 <= d <= 9,
{
    (c as u32 - '0' as u32) as i128
}

fn symbol_of(c: char) -> (t: Option<Token>)
    ensures
        t == symbol_token(c),
{
    if c == '+' {
        Some(Token::Add)
    } else if c == '-' {
        Some(Token::Subtract)
    } else if c == '*' {
        Some(Token::Multiply)
    } else if c == '/' {
        Some(Token::Divide)
    } else if c == '^' {
        Some(Token::Caret)
    } else if c == '(' {
        Some(Token::LeftParen)
    } else if c == ')' {
        Some(Token::RightParen)
    } else if c == 'd' {
        Some(Token::Die)
    } else {
        None
    }
}

/// Appending a digit to a run multiplies its value by ten and adds the digit.
proof fn lemma_decimal_value_step(s: Seq<char>, from: int, to: int)
    requires
        0 <= from <= to < s.len(),
    ensures
        decimal_value(s.subrange(from, to + 1)) == decimal_value(s.subrange(from, to)) * 10
            + digit_value(s[to]),
{
    assert(s.subrange(from, to + 1).drop_last() =~= s.subrange(from, to));
}

impl Lexer {
    /// Replaces the expression and starts again at its first character.
    pub fn set_expression(&mut self, new_expr: &str)
        ensures
            final(self).input() == new_expr@,
            final(self).cursor() == 0,
    {
        self.set_chars(chars_of(new_expr));
    }

    /// Replaces the expression, given as characters, and starts again at the
    /// first of them.
    pub fn set_chars(&mut self, chars: Vec<char>)
        ensures
            final(self).input() == chars@,
            final(self).cursor() == 0,
    {
        self.position = 0;
        self.current_expr = chars;
    }

    /// Produces the next token and moves past it.
    ///
    /// Once the input is exhausted every further request yields `EOF` and
    /// leaves the tokenizer as it is.
    pub fn next(&mut self) -> (res: Result<Token, LexerError>)
        ensures
            final(self).input() == old(self).input(),
            (res, final(self).cursor()) == lex_spec(old(self).input(), old(self).cursor()),
            old(self).at_end() ==> res == Ok::<Token, LexerError>(Token::EOF)
                && final(self).cursor() == old(self).cursor(),
    {
        proof {
            use_type_invariant(&*self);
        }
        if self.position >= self.current_expr.len() {
            return Ok(Token::EOF);
        }
        let ghost s = self.current_expr@;
        let ghost start = self.position as int;
        let c = self.current_expr[self.position];
        self.position += 1;
        if is_digit_char(c) {
            let mut value: i128 = digit_of(c);
            let mut overflow = false;
            proof {
                reveal_with_fuel(decimal_value, 2);
                assert(s.subrange(start, start + 1).drop_last() =~= Seq::<char>::empty());
            }
            while self.position < self.current_expr.len() && is_digit_char(
                self.current_expr[self.position],
            )
                invariant
                    self.current_expr@ == s,
                    0 <= start < self.position <= s.len(),
                    forall|i: int| start <= i < self.position ==> is_digit(#[trigger] s[i]),
                    digits_end(s, start + 1) == digits_end(s, self.position as int),
                    0 <= value,
                    !overflow ==> value == decimal_value(s.subrange(start, self.position as int)),
                    overflow ==> decimal_value(s.subrange(start, self.position as int))
                        > i128::MAX,
                decreases s.len() - self.position,
            {
                let d = digit_of(self.current_expr[self.position]);
                proof {
                    lemma_decimal_value_step(s, start, self.position as int);
                }
                if !overflow {
                    match value.checked_mul(10) {
                        Some(tens) => match tens.checked_add(d) {
                            Some(v) => {
                                value = v;
                            },
                            None => {
                                overflow = true;
                            },
                        },
                        None => {
                            overflow = true;
                        },
                    }
                }
                self.position += 1;
            }
            if self.position < self.current_expr.len() && self.current_expr[self.position] == '(' {
                Err(LexerError::InvalidCharacter('('))
            } else if overflow {
                Err(LexerError::NumberOverflow)
            } else {
                Ok(Token::Num(value))
            }
        } else {
            match symbol_of(c) {
                Some(t) => Ok(t),
                None => Err(LexerError::InvalidCharacter(c)),
            }
        }
    }
}

} // verus!
