//! The parser: precedence climbing over the tokens of one expression.

use super::ast::Node;
use super::lexer::{chars_of, lemma_lex_advances, lex_spec, Lexer, LexerError};
use super::tokens::{OperPrec, Token};
use vstd::prelude::*;
use vstd::string::StringExecFns;

verus! {

/// The operators that work on numbers only.
#[derive(Debug, PartialEq, Eq, Clone, Copy, Structural)]
pub enum Operation {
    Multiply,
    Divide,
    Power,
    Negate,
    DieRoll,
}

/// How an operator was misused.
#[derive(Debug, PartialEq, Eq, Clone, Copy, Structural)]
pub enum OperatorFault {
    /// `expected` had to come next and `found` stood there.
    Expected { expected: Token, found: Token },
    /// The token stands where only a binary operator can continue the
    /// expression.
    NotAnOperator(Token),
    /// The operation was applied to the outcome of a dice roll.
    DiceOperand(Operation),
    /// A power that has no value among the rational numbers: zero to a
    /// negative power, or a fraction as exponent that asks for a root which
    /// is no rational number or for the root of a negative number.
    NoExactPower,
}

/// Why an expression could not be parsed or evaluated.
#[derive(Debug, PartialEq, Eq, Clone, Copy, Structural)]
pub enum ParseError {
    /// The token cannot start an expression.
    UnableToParse(Token),
    /// An operator in the wrong place or on the wrong kind of operand.
    InvalidOperator(OperatorFault),
    /// A number that cannot be held: a literal above `i128::MAX`, or a
    /// result whose numerator or denominator leaves the `i128` range.
    NumberOverflow,
    /// A character that is not part of any token.
    InvalidCharacter(char),
    /// A division by zero.
    DivisionByZero,
}

impl ParseError {
    /// The parse error that a tokenizer error becomes.
    pub open spec fn lexical(error: LexerError) -> ParseError {
        match error {
            LexerError::NumberOverflow => ParseError::NumberOverflow,
            LexerError::InvalidCharacter(c) => ParseError::InvalidCharacter(c),
        }
    }
}

impl From<LexerError> for ParseError {
    fn from(error: LexerError) -> (r: ParseError) {
        match error {
            LexerError::NumberOverflow => ParseError::NumberOverflow,
            LexerError::InvalidCharacter(c) => ParseError::InvalidCharacter(c),
        }
    }
}

impl vstd::std_specs::convert::FromSpecImpl<LexerError> for ParseError {
    open spec fn obeys_from_spec() -> bool {
        true
    }

    open spec fn from_spec(error: LexerError) -> ParseError {
        ParseError::lexical(error)
    }
}

/// Where a parse stands: the token under consideration and the position in
/// the text just after it.
pub struct Cursor {
    pub token: Token,
    pub pos: int,
}

/// A subexpression together with the cursor behind it, or the error that
/// ended the parse.
pub type Parsed = Result<(Node, Cursor), ParseError>;

/// How much is left to parse: the characters after the cursor, and one more
/// while the token under consideration is not `EOF`.
pub open spec fn remaining(s: Seq<char>, c: Cursor) -> nat {
    let rest: nat = if 0 <= c.pos < s.len() {
        (s.len() - c.pos) as nat
    } else {
        0
    };
    if c.token is EOF {
        rest
    } else {
        rest + 1
    }
}

/// The cursor after reading the token that starts at `pos`.
pub open spec fn advance(s: Seq<char>, pos: int) -> Result<Cursor, ParseError> {
    match lex_spec(s, pos).0 {
        Ok(token) => Ok(Cursor { token, pos: lex_spec(s, pos).1 }),
        Err(e) => Err(ParseError::lexical(e)),
    }
}

/// Moving past a token that is not `EOF` leaves less to parse.
pub proof fn lemma_advance_progress(s: Seq<char>, c: Cursor)
    requires
        !(c.token is EOF),
    ensures
        advance(s, c.pos) matches Ok(c1) ==> remaining(s, c1) < remaining(s, c),
{
    if 0 <= c.pos < s.len() {
        lemma_lex_advances(s, c.pos);
    }
}

/// Whether less is left to parse at `after` than at `before`.
///
/// The grammar below asks this before it parses on from a cursor that an
/// earlier step handed back, so that its recursion is well founded. It
/// always holds there: see `lemma_advance_progress`,
/// `lemma_parse_number_progress`, `lemma_group_progress` and
/// `lemma_convert_token_to_node_progress`.
pub open spec fn consumed(s: Seq<char>, before: Cursor, after: Cursor) -> bool {
    remaining(s, after) < remaining(s, before)
}

/// The binary node that an operator token builds.
pub open spec fn binary_node(operator: Token, left: Node, right: Node) -> Node {
    match operator {
        Token::Add => Node::Add(Box::new(left), Box::new(right)),
        Token::Subtract => Node::Subtract(Box::new(left), Box::new(right)),
        Token::Multiply => Node::Multiply(Box::new(left), Box::new(right)),
        Token::Divide => Node::Divide(Box::new(left), Box::new(right)),
        Token::Caret => Node::Caret(Box::new(left), Box::new(right)),
        _ => Node::Die(Box::new(left), Box::new(right)),
    }
}

/// A primary expression at `c`: a number, a negated expression, or a
/// parenthesized expression, which a second parenthesized group directly
/// behind it multiplies.
pub open spec fn parse_number_spec(s: Seq<char>, c: Cursor) -> Parsed
    decreases remaining(s, c), 0int,
{
    match c.token {
        Token::Subtract => match advance(s, c.pos) {
            Err(e) => Err(e),
            Ok(c1) => if consumed(s, c, c1) {
                match generate_ast_spec(s, c1, OperPrec::Negative) {
                    Err(e) => Err(e),
                    Ok((operand, c2)) => Ok((Node::Negative(Box::new(operand)), c2)),
                }
            } else {
                Err(ParseError::UnableToParse(c.token))
            },
        },
        Token::Num(i) => match advance(s, c.pos) {
            Err(e) => Err(e),
            Ok(c1) => Ok((Node::Number(i), c1)),
        },
        Token::LeftParen => match advance(s, c.pos) {
            Err(e) => Err(e),
            Ok(c1) => if consumed(s, c, c1) {
                match generate_ast_spec(s, c1, OperPrec::DefaultZero) {
                    Err(e) => Err(e),
                    Ok((inner, c2)) => match check_paren_spec(s, c2, Token::RightParen) {
                        Err(e) => Err(e),
                        Ok(c3) => if c3.token == Token::LeftParen && consumed(s, c, c3) {
                            match generate_ast_spec(s, c3, OperPrec::MulDiv) {
                                Err(e) => Err(e),
                                Ok((right, c4)) => Ok(
                                    (Node::Multiply(Box::new(inner), Box::new(right)), c4),
                                ),
                            }
                        } else {
                            Ok((inner, c3))
                        },
                    },
                }
            } else {
                Err(ParseError::UnableToParse(c.token))
            },
        },
        _ => Err(ParseError::UnableToParse(c.token)),
    }
}

/// Moves past the token at `c` if it is `expected`, and fails otherwise.
pub open spec fn check_paren_spec(s: Seq<char>, c: Cursor, expected: Token) -> Result<
    Cursor,
    ParseError,
> {
    if c.token == expected {
        advance(s, c.pos)
    } else {
        Err(ParseError::InvalidOperator(OperatorFault::Expected { expected, found: c.token }))
    }
}

/// An expression at `c` whose operators all bind tighter than `prec`: a
/// primary, extended to the right as far as `climb_spec` goes.
pub open spec fn generate_ast_spec(s: Seq<char>, c: Cursor, prec: OperPrec) -> Parsed
    decreases remaining(s, c), 2int,
{
    match parse_number_spec(s, c) {
        Err(e) => Err(e),
        Ok((left, c1)) => if consumed(s, c, c1) {
            climb_spec(s, left, c1, prec)
        } else {
            Err(ParseError::UnableToParse(c.token))
        },
    }
}

/// Extends `left` to the right while the token at `c` binds tighter than
/// `prec` and the input has not ended.
pub open spec fn climb_spec(s: Seq<char>, left: Node, c: Cursor, prec: OperPrec) -> Parsed
    decreases remaining(s, c), 1int,
{
    if prec.level() < c.token.oper_prec().level() && !(c.token is EOF) {
        match convert_token_to_node_spec(s, left, c) {
            Err(e) => Err(e),
            Ok((node, c1)) => if consumed(s, c, c1) {
                climb_spec(s, node, c1, prec)
            } else {
                Err(ParseError::UnableToParse(c.token))
            },
        }
    } else {
        Ok((left, c))
    }
}

/// The node that the operator at `c` builds from `left` and the operand to
/// its right, which is parsed at the operator's own binding power.
pub open spec fn convert_token_to_node_spec(s: Seq<char>, left: Node, c: Cursor) -> Parsed
    decreases remaining(s, c), 0int,
{
    if c.token.is_operator() {
        match advance(s, c.pos) {
            Err(e) => Err(e),
            Ok(c1) => if consumed(s, c, c1) {
                match generate_ast_spec(s, c1, c.token.oper_prec()) {
                    Err(e) => Err(e),
                    Ok((right, c2)) => Ok((binary_node(c.token, left, right), c2)),
                }
            } else {
                Err(ParseError::UnableToParse(c.token))
            },
        }
    } else {
        Err(ParseError::InvalidOperator(OperatorFault::NotAnOperator(c.token)))
    }
}

/// The tree that a whole text parses to.
pub open spec fn parse_spec(s: Seq<char>) -> Result<Node, ParseError> {
    match advance(s, 0) {
        Err(e) => Err(e),
        Ok(c) => match generate_ast_spec(s, c, OperPrec::DefaultZero) {
            Err(e) => Err(e),
            Ok((node, _)) => Ok(node),
        },
    }
}

/// A primary expression takes at least one token.
pub proof fn lemma_parse_number_progress(s: Seq<char>, c: Cursor)
    ensures
        parse_number_spec(s, c) matches Ok((_, c1)) ==> consumed(s, c, c1),
    decreases remaining(s, c), 0int,
{
    if !(c.token is EOF) {
        lemma_advance_progress(s, c);
    }
    match c.token {
        Token::Subtract => {
            if let Ok(c1) = advance(s, c.pos) {
                lemma_generate_ast_progress(s, c1, OperPrec::Negative);
            }
        },
        Token::LeftParen => {
            if let Ok(c1) = advance(s, c.pos) {
                lemma_generate_ast_progress(s, c1, OperPrec::DefaultZero);
                if let Ok((inner, c2)) = generate_ast_spec(s, c1, OperPrec::DefaultZero) {
                    if let Ok(c3) = check_paren_spec(s, c2, Token::RightParen) {
                        lemma_advance_progress(s, c2);
                        if c3.token == Token::LeftParen {
                            lemma_generate_ast_progress(s, c3, OperPrec::MulDiv);
                        }
                    }
                }
            }
        },
        _ => {},
    }
}

/// The cursor behind a parenthesized expression and its closing parenthesis
/// lies behind the opening parenthesis.
pub proof fn lemma_group_progress(s: Seq<char>, c: Cursor)
    requires
        c.token is LeftParen,
    ensures
        advance(s, c.pos) matches Ok(c1) ==> consumed(s, c, c1) && (generate_ast_spec(
            s,
            c1,
            OperPrec::DefaultZero,
        ) matches Ok((_, c2)) ==> (check_paren_spec(s, c2, Token::RightParen) matches Ok(c3)
            ==> consumed(s, c, c3))),
{
    lemma_advance_progress(s, c);
    if let Ok(c1) = advance(s, c.pos) {
        lemma_generate_ast_progress(s, c1, OperPrec::DefaultZero);
        if let Ok((_, c2)) = generate_ast_spec(s, c1, OperPrec::DefaultZero) {
            if c2.token == Token::RightParen {
                lemma_advance_progress(s, c2);
            }
        }
    }
}

/// An expression takes at least one token.
pub proof fn lemma_generate_ast_progress(s: Seq<char>, c: Cursor, prec: OperPrec)
    ensures
        generate_ast_spec(s, c, prec) matches Ok((_, c1)) ==> consumed(s, c, c1),
    decreases remaining(s, c), 2int,
{
    lemma_parse_number_progress(s, c);
    if let Ok((left, c1)) = parse_number_spec(s, c) {
        lemma_climb_progress(s, left, c1, prec);
    }
}

/// Extending an expression to the right never hands back an earlier cursor.
pub proof fn lemma_climb_progress(s: Seq<char>, left: Node, c: Cursor, prec: OperPrec)
    ensures
        climb_spec(s, left, c, prec) matches Ok((_, c1)) ==> remaining(s, c1) <= remaining(s, c),
    decreases remaining(s, c), 1int,
{
    if prec.level() < c.token.oper_prec().level() && !(c.token is EOF) {
        lemma_convert_token_to_node_progress(s, left, c);
        if let Ok((node, c1)) = convert_token_to_node_spec(s, left, c) {
            lemma_climb_progress(s, node, c1, prec);
        }
    }
}

/// An operator with its right operand takes at least two tokens.
pub proof fn lemma_convert_token_to_node_progress(s: Seq<char>, left: Node, c: Cursor)
    ensures
        convert_token_to_node_spec(s, left, c) matches Ok((_, c1)) ==> consumed(s, c, c1),
    decreases remaining(s, c), 0int,
{
    if c.token.is_operator() {
        lemma_advance_progress(s, c);
        if let Ok(c1) = advance(s, c.pos) {
            lemma_generate_ast_progress(s, c1, c.token.oper_prec());
        }
    }
}

/// A parser that can be used for one expression after another.
pub struct Parser {
    lexer: Lexer,
    curr_token: Token,
}

impl Parser {
    /// The characters of the expression being parsed.
    pub closed spec fn input(&self) -> Seq<char> {
        self.lexer.input()
    }

    /// The token under consideration and the position behind it.
    pub closed spec fn cursor(&self) -> Cursor {
        Cursor { token: self.curr_token, pos: self.lexer.cursor() }
    }

    /// Whether a step that started at `before` ended at `self` with `res`,
    /// as `expected` says.
    pub open spec fn follows(
        &self,
        before: &Parser,
        res: Result<Node, ParseError>,
        expected: Parsed,
    ) -> bool {
        &&& self.input() == before.input()
        &&& match expected {
            Ok((node, c)) => res == Ok::<Node, ParseError>(node) && self.cursor() == c,
            Err(e) => res == Err::<Node, ParseError>(e),
        }
    }

    /// Whether a move that started at `before` ended at `self` with `res`,
    /// as `expected` says.
    pub open spec fn moved(
        &self,
        before: &Parser,
        res: Result<(), ParseError>,
        expected: Result<Cursor, ParseError>,
    ) -> bool {
        &&& self.input() == before.input()
        &&& match expected {
            Ok(c) => res is Ok && self.cursor() == c,
            Err(e) => res == Err::<(), ParseError>(e),
        }
    }

    /// A parser over the empty expression, at its end.
    pub fn new() -> (parser: Parser)
        ensures
            parser.input() == Seq::<char>::empty(),
            parser.cursor() == (Cursor { token: Token::EOF, pos: 0 }),
    {
        let lexer = Lexer::new();
        Parser { lexer, curr_token: Token::EOF }
    }

    /// Takes up the expression that `chars` spell, whatever this parser was
    /// used for before, and reads its first token.
    pub fn start(&mut self, chars: Vec<char>) -> (res: Result<(), ParseError>)
        ensures
            final(self).input() == chars@,
            match advance(chars@, 0) {
                Ok(c) => res is Ok && final(self).cursor() == c,
                Err(e) => res == Err::<(), ParseError>(e),
            },
    {
        self.lexer.set_chars(chars);
        self.get_next_token()
    }

    /// Parses `expr`, whatever this parser was used for before.
    pub fn parse(&mut self, expr: &str) -> (res: Result<Node, ParseError>)
        ensures
            res == parse_spec(expr@),
            final(self).input() == expr@,
    {
        self.parse_chars(chars_of(expr))
    }

    /// Parses the expression that `chars` spell, whatever this parser was
    /// used for before.
    pub fn parse_chars(&mut self, chars: Vec<char>) -> (res: Result<Node, ParseError>)
        ensures
            res == parse_spec(chars@),
            final(self).input() == chars@,
    {
        match self.start(chars) {
            Err(e) => Err(e),
            Ok(()) => self.generate_ast(OperPrec::DefaultZero),
        }
    }

    /// Reads the next token and makes it the token under consideration.
    pub fn get_next_token(&mut self) -> (res: Result<(), ParseError>)
        ensures
            final(self).moved(old(self), res, advance(old(self).input(), old(self).cursor().pos)),
            res is Err ==> final(self).cursor() == (Cursor {
                token: old(self).cursor().token,
                pos: lex_spec(old(self).input(), old(self).cursor().pos).1,
            }),
    {
        match self.lexer.next() {
            Ok(token) => {
                self.curr_token = token;
                Ok(())
            },
            Err(e) => Err(ParseError::from(e)),
        }
    }

    /// Moves past the token under consideration if it is `expected`, and
    /// fails otherwise.
    pub fn check_paren(&mut self, expected: Token) -> (res: Result<(), ParseError>)
        ensures
            final(self).moved(
                old(self),
                res,
                check_paren_spec(old(self).input(), old(self).cursor(), expected),
            ),
            expected != old(self).cursor().token ==> final(self).cursor() == old(self).cursor(),
    {
        if expected == self.curr_token {
            self.get_next_token()
        } else {
            Err(
                ParseError::InvalidOperator(
                    OperatorFault::Expected { expected, found: self.curr_token },
                ),
            )
        }
    }

    /// Parses a primary expression: a number, a negated expression, or a
    /// parenthesized expression with a second group behind it, if there is
    /// one.
    pub fn parse_number(&mut self) -> (res: Result<Node, ParseError>)
        ensures
            final(self).follows(
                old(self),
                res,
                parse_number_spec(old(self).input(), old(self).cursor()),
            ),
            !(old(self).cursor().token is Num || old(self).cursor().token is Subtract || old(
                self,
            ).cursor().token is LeftParen) ==> final(self).cursor() == old(self).cursor(),
        decreases remaining(old(self).input(), old(self).cursor()), 0int,
    {
        let ghost s = self.input();
        let ghost c = self.cursor();
        let token = self.curr_token;
        proof {
            if !(c.token is EOF) {
                lemma_advance_progress(s, c);
            }
        }
        match token {
            Token::Subtract => {
                match self.get_next_token() {
                    Err(e) => { return Err(e); },
                    Ok(()) => {},
                }
                match self.generate_ast(OperPrec::Negative) {
                    Err(e) => Err(e),
                    Ok(expr) => Ok(Node::Negative(Box::new(expr))),
                }
            },
            Token::Num(i) => {
                match self.get_next_token() {
                    Err(e) => Err(e),
                    Ok(()) => Ok(Node::Number(i)),
                }
            },
            Token::LeftParen => {
                match self.get_next_token() {
                    Err(e) => { return Err(e); },
                    Ok(()) => {},
                }
                let ghost c1 = self.cursor();
                let expr = match self.generate_ast(OperPrec::DefaultZero) {
                    Err(e) => { return Err(e); },
                    Ok(expr) => expr,
                };
                let ghost c2 = self.cursor();
                proof {
                    lemma_generate_ast_progress(s, c1, OperPrec::DefaultZero);
                    if c2.token == Token::RightParen {
                        lemma_advance_progress(s, c2);
                    }
                }
                match self.check_paren(Token::RightParen) {
                    Err(e) => { return Err(e); },
                    Ok(()) => {},
                }
                if self.curr_token == Token::LeftParen {
                    match self.generate_ast(OperPrec::MulDiv) {
                        Err(e) => Err(e),
                        Ok(right) => Ok(Node::Multiply(Box::new(expr), Box::new(right))),
                    }
                } else {
                    Ok(expr)
                }
            },
            _ => Err(ParseError::UnableToParse(token)),
        }
    }

    /// Parses an expression whose operators all bind tighter than
    /// `oper_prec`.
    pub fn generate_ast(&mut self, oper_prec: OperPrec) -> (res: Result<Node, ParseError>)
        ensures
            final(self).follows(
                old(self),
                res,
                generate_ast_spec(old(self).input(), old(self).cursor(), oper_prec),
            ),
        decreases remaining(old(self).input(), old(self).cursor()), 2int,
    {
        let ghost s = self.input();
        let ghost c0 = self.cursor();
        let mut left_expr = match self.parse_number() {
            Err(e) => { return Err(e); },
            Ok(expr) => expr,
        };
        proof {
            lemma_parse_number_progress(s, c0);
        }
        while oper_prec.weaker_than(&self.curr_token.get_oper_prec()) && self.curr_token
            != Token::EOF
            invariant
                s == old(self).input(),
                c0 == old(self).cursor(),
                self.input() == s,
                remaining(s, self.cursor()) <= remaining(s, c0),
                generate_ast_spec(s, c0, oper_prec) == climb_spec(
                    s,
                    left_expr,
                    self.cursor(),
                    oper_prec,
                ),
            decreases remaining(s, self.cursor()),
        {
            let ghost c = self.cursor();
            let ghost left = left_expr;
            proof {
                lemma_convert_token_to_node_progress(s, left, c);
            }
            left_expr = match self.convert_token_to_node(left_expr) {
                Err(e) => { return Err(e); },
                Ok(expr) => expr,
            };
        }
        Ok(left_expr)
    }

    /// Builds the node of the operator under consideration from `left_expr`
    /// and the operand to the operator's right.
    pub fn convert_token_to_node(&mut self, left_expr: Node) -> (res: Result<Node, ParseError>)
        ensures
            final(self).follows(
                old(self),
                res,
                convert_token_to_node_spec(old(self).input(), left_expr, old(self).cursor()),
            ),
            !old(self).cursor().token.is_operator() ==> final(self).cursor() == old(self).cursor(),
        decreases remaining(old(self).input(), old(self).cursor()), 0int,
    {
        let ghost s = self.input();
        let ghost c = self.cursor();
        let token = self.curr_token;
        proof {
            if !(c.token is EOF) {
                lemma_advance_progress(s, c);
            }
        }
        match token {
            Token::Add => {
                match self.get_next_token() {
                    Err(e) => { return Err(e); },
                    Ok(()) => {},
                }
                match self.generate_ast(OperPrec::AddSub) {
                    Err(e) => Err(e),
                    Ok(right_expr) => Ok(Node::Add(Box::new(left_expr), Box::new(right_expr))),
                }
            },
            Token::Subtract => {
                match self.get_next_token() {
                    Err(e) => { return Err(e); },
                    Ok(()) => {},
                }
                match self.generate_ast(OperPrec::AddSub) {
                    Err(e) => Err(e),
                    Ok(right_expr) => Ok(
                        Node::Subtract(Box::new(left_expr), Box::new(right_expr)),
                    ),
                }
            },
            Token::Multiply => {
                match self.get_next_token() {
                    Err(e) => { return Err(e); },
                    Ok(()) => {},
                }
                match self.generate_ast(OperPrec::MulDiv) {
                    Err(e) => Err(e),
                    Ok(right_expr) => Ok(
                        Node::Multiply(Box::new(left_expr), Box::new(right_expr)),
                    ),
                }
            },
            Token::Divide => {
                match self.get_next_token() {
                    Err(e) => { return Err(e); },
                    Ok(()) => {},
                }
                match self.generate_ast(OperPrec::MulDiv) {
                    Err(e) => Err(e),
                    Ok(right_expr) => Ok(Node::Divide(Box::new(left_expr), Box::new(right_expr))),
                }
            },
            Token::Caret => {
                match self.get_next_token() {
                    Err(e) => { return Err(e); },
                    Ok(()) => {},
                }
                match self.generate_ast(OperPrec::Power) {
                    Err(e) => Err(e),
                    Ok(right_expr) => Ok(Node::Caret(Box::new(left_expr), Box::new(right_expr))),
                }
            },
            Token::Die => {
                match self.get_next_token() {
                    Err(e) => { return Err(e); },
                    Ok(()) => {},
                }
                match self.generate_ast(OperPrec::DieRoll) {
                    Err(e) => Err(e),
                    Ok(right_expr) => Ok(Node::Die(Box::new(left_expr), Box::new(right_expr))),
                }
            },
            _ => Err(ParseError::InvalidOperator(OperatorFault::NotAnOperator(token))),
        }
    }
}

impl Operation {
    /// What the operation does to its operands, as a verb.
    pub open spec fn verb(self) -> Seq<char> {
        match self {
            Operation::Multiply => "multiply"@,
            Operation::Divide => "divide"@,
            Operation::Power => "raise to a power"@,
            Operation::Negate => "negate"@,
            Operation::DieRoll => "roll dice with"@,
        }
    }
}

impl OperatorFault {
    /// The fault in words.
    pub open spec fn message(self) -> Seq<char> {
        match self {
            OperatorFault::Expected { expected, found } => "Expected "@ + expected.name() + ", got "@
                + found.name(),
            OperatorFault::NotAnOperator(token) => "Please, enter a valid operator "@
                + token.name(),
            OperatorFault::DiceOperand(operation) => "Cannot "@ + operation.verb()
                + " dice results directly"@,
            OperatorFault::NoExactPower => "Cannot raise to this power exactly"@,
        }
    }
}

impl ParseError {
    /// The error in words: its class, a colon, and what went wrong.
    pub open spec fn message(self) -> Seq<char> {
        match self {
            ParseError::UnableToParse(token) => "Unable to parse: unexpected "@ + token.name(),
            ParseError::InvalidOperator(fault) => "Invalid operator: "@ + fault.message(),
            ParseError::NumberOverflow => "Number overflow: Number is too large"@,
            ParseError::InvalidCharacter(c) => "Invalid character: "@.push(c),
            ParseError::DivisionByZero => "Division by zero"@,
        }
    }

    /// The error in words.
    pub fn to_string(&self) -> (text: String)
        ensures
            text@ == self.message(),
    {
        let mut text = String::new();
        match self {
            ParseError::UnableToParse(token) => {
                text.append("Unable to parse: unexpected ");
                token.push_name(&mut text);
                assert(text@ =~= self.message());
            },
            ParseError::InvalidOperator(fault) => {
                text.append("Invalid operator: ");
                match fault {
                    OperatorFault::Expected { expected, found } => {
                        text.append("Expected ");
                        expected.push_name(&mut text);
                        text.append(", got ");
                        found.push_name(&mut text);
                    },
                    OperatorFault::NotAnOperator(token) => {
                        text.append("Please, enter a valid operator ");
                        token.push_name(&mut text);
                    },
                    OperatorFault::DiceOperand(operation) => {
                        text.append("Cannot ");
                        match operation {
                            Operation::Multiply => text.append("multiply"),
                            Operation::Divide => text.append("divide"),
                            Operation::Power => text.append("raise to a power"),
                            Operation::Negate => text.append("negate"),
                            Operation::DieRoll => text.append("roll dice with"),
                        }
                        text.append(" dice results directly");
                    },
                    OperatorFault::NoExactPower => {
                        text.append("Cannot raise to this power exactly");
                    },
                }
                assert(text@ =~= self.message());
            },
            ParseError::NumberOverflow => {
                text.append("Number overflow: Number is too large");
                assert(text@ =~= self.message());
            },
            ParseError::InvalidCharacter(c) => {
                text.append("Invalid character: ");
                text.push(*c);
                assert(text@ =~= self.message());
            },
            ParseError::DivisionByZero => {
                text.append("Division by zero");
                assert(text@ =~= self.message());
            },
        }
        text
    }
}

} // verus!
