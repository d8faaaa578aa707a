//! Expressions written back as text, and the proof that the parser reads
//! them as they were.

use super::ast::{size, Node};
use super::lexer::{
    decimal_value, digit_value, digits_end, is_digit, lemma_digits_end_bounds, lex_spec,
    symbol_token, LexerError,
};
use super::parser::{
    advance, binary_node, check_paren_spec, climb_spec, consumed, convert_token_to_node_spec,
    generate_ast_spec, lemma_advance_progress, lemma_convert_token_to_node_progress,
    lemma_parse_number_progress, parse_number_spec, parse_spec, remaining, Cursor, ParseError,
};
use super::render::{decimal_text, digit_char, digits_text, push_decimal};
use super::tokens::{OperPrec, Token};
use vstd::prelude::*;
use vstd::string::StringExecFns;

verus! {

/// Whether `t` stands in `s` from position `p` on.
pub open spec fn occurs_at(s: Seq<char>, p: int, t: Seq<char>) -> bool {
    0 <= p && p + t.len() <= s.len() && s.subrange(p, p + t.len()) == t
}

/// The digits of a number are digits, and denote the number.
pub proof fn lemma_digits_text(n: nat)
    ensures
        digits_text(n).len() >= 1,
        forall|i: int| 0 <= i < digits_text(n).len() ==> is_digit(#[trigger] digits_text(n)[i]),
        decimal_value(digits_text(n)) == n,
    decreases n,
{
    reveal_with_fuel(decimal_value, 2);
    if n < 10 {
        assert(digits_text(n).drop_last() =~= Seq::<char>::empty());
        assert(digit_value(digit_char(n as int)) == n);
    } else {
        lemma_digits_text(n / 10);
        let d = (n % 10) as int;
        assert(digit_value(digit_char(d)) == d);
        assert(is_digit(digit_char(d)));
        assert(digits_text(n).drop_last() =~= digits_text(n / 10));
    }
}

/// A run of digits that ends at `to` ends there for the tokenizer too.
pub proof fn lemma_digits_end_at(s: Seq<char>, from: int, to: int)
    requires
        0 <= from <= to <= s.len(),
        forall|i: int| from <= i < to ==> is_digit(#[trigger] s[i]),
        to == s.len() || !is_digit(s[to]),
    ensures
        digits_end(s, from) == to,
    decreases to - from,
{
    if from < to {
        lemma_digits_end_at(s, from + 1, to);
    }
}

/// The digits of a number that fits, with neither a digit nor an opening
/// parenthesis behind them, are read as that number.
pub proof fn lemma_lex_number(s: Seq<char>, p: int, n: nat)
    requires
        n <= i128::MAX,
        occurs_at(s, p, digits_text(n)),
        p + digits_text(n).len() == s.len() || (!is_digit(s[p + digits_text(n).len()]) && s[p
            + digits_text(n).len()] != '('),
    ensures
        lex_spec(s, p) == (
            Ok::<Token, LexerError>(Token::Num(n as i128)),
            p + digits_text(n).len(),
        ),
{
    lemma_digits_text(n);
    let text = digits_text(n);
    let end = p + text.len();
    assert forall|i: int| p <= i < end implies is_digit(#[trigger] s[i]) by {
        assert(s[i] == s.subrange(p, end)[i - p]);
    }
    lemma_digits_end_at(s, p + 1, end);
}

/// Whether the parser can give this expression: no number in it is
/// negative. (A negative number is written as the negation of a number.)
pub open spec fn writable(expr: Node) -> bool
    decreases expr,
{
    match expr {
        Node::Number(n) => n >= 0,
        Node::Negative(operand) => writable(*operand),
        Node::Add(l, r)
        | Node::Subtract(l, r)
        | Node::Multiply(l, r)
        | Node::Divide(l, r)
        | Node::Caret(l, r)
        | Node::Die(l, r) => writable(*l) && writable(*r),
    }
}

/// The operator of a binary expression with its two operands.
pub open spec fn binary_parts(expr: Node) -> Option<(Token, Node, Node)> {
    match expr {
        Node::Add(l, r) => Some((Token::Add, *l, *r)),
        Node::Subtract(l, r) => Some((Token::Subtract, *l, *r)),
        Node::Multiply(l, r) => Some((Token::Multiply, *l, *r)),
        Node::Divide(l, r) => Some((Token::Divide, *l, *r)),
        Node::Caret(l, r) => Some((Token::Caret, *l, *r)),
        Node::Die(l, r) => Some((Token::Die, *l, *r)),
        _ => None,
    }
}

/// The operator of a binary expression.
pub open spec fn operator_of(expr: Node) -> Token {
    match binary_parts(expr) {
        Some((operator, _, _)) => operator,
        None => Token::EOF,
    }
}

/// The character that an operator is written with.
pub open spec fn symbol(operator: Token) -> char {
    match operator {
        Token::Add => '+',
        Token::Subtract => '-',
        Token::Multiply => '*',
        Token::Divide => '/',
        Token::Caret => '^',
        _ => 'd',
    }
}

/// A text in parentheses.
pub open spec fn group(inner: Seq<char>) -> Seq<char> {
    seq!['('] + inner + seq![')']
}

/// The expression as text, every operand in parentheses: `(2)d(6)` for two
/// dice with six sides, `-((1)+(2))` for a negated sum.
pub open spec fn unparse(expr: Node) -> Seq<char>
    decreases expr,
{
    match expr {
        Node::Number(n) => decimal_text(n as int),
        Node::Negative(operand) => seq!['-'] + group(unparse(*operand)),
        Node::Add(l, r)
        | Node::Subtract(l, r)
        | Node::Multiply(l, r)
        | Node::Divide(l, r)
        | Node::Caret(l, r)
        | Node::Die(l, r) => group(unparse(*l)) + seq![symbol(operator_of(expr))] + group(
            unparse(*r),
        ),
    }
}

/// Appends `expr` in parentheses to `out`.
fn push_group(out: &mut String, expr: &Node)
    ensures
        final(out)@ == old(out)@ + group(unparse(*expr)),
    decreases size(*expr), 1int,
{
    proof {
        reveal_strlit("(");
        reveal_strlit(")");
    }
    out.append("(");
    push_expression(out, expr);
    out.append(")");
    proof {
        assert("("@ =~= seq!['(']);
        assert(")"@ =~= seq![')']);
        assert(out@ =~= old(out)@ + group(unparse(*expr)));
    }
}

/// Appends both operands in parentheses to `out`, with `symbol` between.
fn push_binary(out: &mut String, l: &Node, symbol: &str, r: &Node)
    ensures
        final(out)@ == old(out)@ + (group(unparse(*l)) + symbol@ + group(unparse(*r))),
    decreases size(*l) + size(*r), 2int,
{
    push_group(out, l);
    out.append(symbol);
    push_group(out, r);
    assert(out@ =~= old(out)@ + (group(unparse(*l)) + symbol@ + group(unparse(*r))));
}

/// Appends `expr` to `out`, every operand in parentheses.
pub fn push_expression(out: &mut String, expr: &Node)
    ensures
        final(out)@ == old(out)@ + unparse(*expr),
    decreases size(*expr), 0int,
{
    proof {
        reveal_strlit("+");
        reveal_strlit("-");
        reveal_strlit("*");
        reveal_strlit("/");
        reveal_strlit("^");
        reveal_strlit("d");
        assert("+"@ =~= seq!['+']);
        assert("-"@ =~= seq!['-']);
        assert("*"@ =~= seq!['*']);
        assert("/"@ =~= seq!['/']);
        assert("^"@ =~= seq!['^']);
        assert("d"@ =~= seq!['d']);
    }
    match expr {
        Node::Number(n) => push_decimal(out, *n),
        Node::Negative(operand) => {
            out.append("-");
            push_group(out, &**operand);
            assert(out@ =~= old(out)@ + unparse(*expr));
        },
        Node::Add(l, r) => push_binary(out, &**l, "+", &**r),
        Node::Subtract(l, r) => push_binary(out, &**l, "-", &**r),
        Node::Multiply(l, r) => push_binary(out, &**l, "*", &**r),
        Node::Divide(l, r) => push_binary(out, &**l, "/", &**r),
        Node::Caret(l, r) => push_binary(out, &**l, "^", &**r),
        Node::Die(l, r) => push_binary(out, &**l, "d", &**r),
    }
}

/// The expression as text, every operand in parentheses.
pub fn to_text(expr: &Node) -> (text: String)
    ensures
        text@ == unparse(*expr),
{
    let mut text = String::new();
    push_expression(&mut text, expr);
    text
}

/// Whether something other than an opening parenthesis, a digit or a
/// character outside the alphabet comes at `q`: the end of the text, an
/// operator or a closing parenthesis.
pub open spec fn sequel(s: Seq<char>, q: int) -> bool {
    0 <= q <= s.len() && (q < s.len() ==> (symbol_token(s[q]) matches Some(t) && t
        != Token::LeftParen))
}

/// Whether an expression ends at `q`: with the text, or before a closing
/// parenthesis.
pub open spec fn terminated(s: Seq<char>, q: int) -> bool {
    0 <= q <= s.len() && (q < s.len() ==> s[q] == ')')
}

/// The cursor on the token at `q`, where the text ends or a symbol stands.
pub open spec fn cursor_at(s: Seq<char>, q: int) -> Cursor {
    if q < s.len() {
        Cursor { token: symbol_token(s[q])->0, pos: q + 1 }
    } else {
        Cursor { token: Token::EOF, pos: q }
    }
}

/// Reading on at the end of the text or at a symbol gives the cursor on it.
pub proof fn lemma_advance_at_symbol(s: Seq<char>, q: int)
    requires
        0 <= q <= s.len(),
        q < s.len() ==> symbol_token(s[q]) is Some,
    ensures
        advance(s, q) == Ok::<Cursor, ParseError>(cursor_at(s, q)),
{
}

/// Where a text of two parts stands, its parts stand one after the other.
pub proof fn lemma_occurs_parts(s: Seq<char>, p: int, a: Seq<char>, b: Seq<char>)
    requires
        occurs_at(s, p, a + b),
    ensures
        occurs_at(s, p, a),
        occurs_at(s, p + a.len(), b),
{
    let whole = s.subrange(p, p + (a + b).len());
    assert(s.subrange(p, p + a.len()) =~= whole.subrange(0, a.len() as int));
    assert((a + b).subrange(0, a.len() as int) =~= a);
    assert(s.subrange(p + a.len(), p + a.len() + b.len()) =~= whole.subrange(
        a.len() as int,
        (a + b).len() as int,
    ));
    assert((a + b).subrange(a.len() as int, (a + b).len() as int) =~= b);
}

/// Where a group stands, its parentheses stand around what it holds.
pub proof fn lemma_occurs_group(s: Seq<char>, p: int, inner: Seq<char>)
    requires
        occurs_at(s, p, group(inner)),
    ensures
        s[p] == '(',
        occurs_at(s, p + 1, inner),
        s[p + 1 + inner.len()] == ')',
        group(inner).len() == inner.len() + 2,
{
    lemma_occurs_parts(s, p, seq!['('] + inner, seq![')']);
    lemma_occurs_parts(s, p, seq!['('], inner);
    assert(s[p] == s.subrange(p, p + 1)[0]);
    let q = p + 1 + inner.len();
    assert(s[q] == s.subrange(q, q + 1)[0]);
}

/// Whether the text of `expr` at `p`, ended there, is read back as `expr`.
pub open spec fn read_back(expr: Node, s: Seq<char>, p: int) -> bool {
    advance(s, p) matches Ok(c) && generate_ast_spec(s, c, OperPrec::DefaultZero) == Ok::<
        (Node, Cursor),
        ParseError,
    >((expr, cursor_at(s, p + unparse(expr).len())))
}

/// A number written as text and ended there is read back as it was.
proof fn lemma_parse_number_text(n: i128, s: Seq<char>, p: int)
    requires
        n >= 0,
        occurs_at(s, p, unparse(Node::Number(n))),
        terminated(s, p + unparse(Node::Number(n)).len()),
    ensures
        read_back(Node::Number(n), s, p),
{
    let expr = Node::Number(n);
    let end = p + unparse(expr).len();
    let last = cursor_at(s, end);
    lemma_advance_at_symbol(s, end);
    lemma_digits_text(n as nat);
    lemma_lex_number(s, p, n as nat);
    let c = advance(s, p)->Ok_0;
    lemma_parse_number_progress(s, c);
    assert(parse_number_spec(s, c) == Ok::<(Node, Cursor), ParseError>((expr, last)));
}

/// A negation written as text and ended there is read back as it was.
proof fn lemma_parse_negation(operand: Node, s: Seq<char>, p: int)
    requires
        writable(operand),
        occurs_at(s, p, unparse(Node::Negative(Box::new(operand)))),
        terminated(s, p + unparse(Node::Negative(Box::new(operand))).len()),
    ensures
        read_back(Node::Negative(Box::new(operand)), s, p),
    decreases operand, 3int,
{
    let expr = Node::Negative(Box::new(operand));
    let end = p + unparse(expr).len();
    let last = cursor_at(s, end);
    lemma_advance_at_symbol(s, end);
    let inner = group(unparse(operand));
    lemma_occurs_parts(s, p, seq!['-'], inner);
    assert(s[p] == s.subrange(p, p + 1)[0]);
    let c = advance(s, p)->Ok_0;
    assert(c == Cursor { token: Token::Subtract, pos: p + 1 });
    lemma_parse_group(operand, s, p + 1);
    let c1 = advance(s, p + 1)->Ok_0;
    lemma_advance_progress(s, c);
    lemma_parse_number_progress(s, c1);
    assert(generate_ast_spec(s, c1, OperPrec::Negative) == Ok::<(Node, Cursor), ParseError>(
        (operand, last),
    ));
    lemma_parse_number_progress(s, c);
    assert(parse_number_spec(s, c) == Ok::<(Node, Cursor), ParseError>((expr, last)));
}

/// The right operand of an operator, written in parentheses and ended
/// there, makes the operator's node with the left operand.
proof fn lemma_parse_right_operand(operator: Token, l: Node, r: Node, s: Seq<char>, q: int)
    requires
        operator.is_operator(),
        writable(r),
        0 <= q < s.len(),
        s[q] == symbol(operator),
        occurs_at(s, q + 1, group(unparse(r))),
        terminated(s, q + 1 + group(unparse(r)).len()),
    ensures
        convert_token_to_node_spec(s, l, cursor_at(s, q)) == Ok::<(Node, Cursor), ParseError>(
            (binary_node(operator, l, r), cursor_at(s, q + 1 + group(unparse(r)).len())),
        ),
        cursor_at(s, q) == (Cursor { token: operator, pos: q + 1 }),
    decreases r, 3int,
{
    let last = cursor_at(s, q + 1 + group(unparse(r)).len());
    lemma_advance_at_symbol(s, q + 1 + group(unparse(r)).len());
    let c1 = cursor_at(s, q);
    assert(c1 == Cursor { token: operator, pos: q + 1 });
    lemma_parse_group(r, s, q + 1);
    let c2 = advance(s, q + 1)->Ok_0;
    lemma_advance_progress(s, c1);
    lemma_parse_number_progress(s, c2);
    assert(generate_ast_spec(s, c2, operator.oper_prec()) == Ok::<(Node, Cursor), ParseError>(
        (r, last),
    ));
}

/// A binary expression written as text and ended there is read back as it
/// was.
proof fn lemma_parse_binary(expr: Node, s: Seq<char>, p: int)
    requires
        binary_parts(expr) is Some,
        writable(expr),
        occurs_at(s, p, unparse(expr)),
        terminated(s, p + unparse(expr).len()),
    ensures
        read_back(expr, s, p),
    decreases expr, 0int,
{
    let (operator, l, r) = binary_parts(expr)->0;
    let end = p + unparse(expr).len();
    let last = cursor_at(s, end);
    lemma_advance_at_symbol(s, end);
    let left = group(unparse(l));
    let right = group(unparse(r));
    lemma_occurs_parts(s, p, left + seq![symbol(operator)], right);
    lemma_occurs_parts(s, p, left, seq![symbol(operator)]);
    let q = p + left.len();
    assert(s[q] == s.subrange(q, q + 1)[0]);
    lemma_parse_group(l, s, p);
    let c = advance(s, p)->Ok_0;
    let c1 = cursor_at(s, q);
    lemma_parse_number_progress(s, c);
    lemma_parse_right_operand(operator, l, r, s, q);
    assert(binary_node(operator, l, r) == expr);
    lemma_convert_token_to_node_progress(s, l, c1);
    assert(climb_spec(s, expr, last, OperPrec::DefaultZero) == Ok::<(Node, Cursor), ParseError>(
        (expr, last),
    ));
    assert(climb_spec(s, l, c1, OperPrec::DefaultZero) == Ok::<(Node, Cursor), ParseError>(
        (expr, last),
    ));
}

/// An expression written as text and ended there is read back as it was.
pub proof fn lemma_parse_unparsed(expr: Node, s: Seq<char>, p: int)
    requires
        writable(expr),
        occurs_at(s, p, unparse(expr)),
        terminated(s, p + unparse(expr).len()),
    ensures
        read_back(expr, s, p),
    decreases expr, 1int,
{
    match expr {
        Node::Number(n) => lemma_parse_number_text(n, s, p),
        Node::Negative(operand) => lemma_parse_negation(*operand, s, p),
        _ => lemma_parse_binary(expr, s, p),
    }
}

/// An expression written as text in parentheses, with no further group
/// right behind it, is read back as it was, parentheses apart.
pub proof fn lemma_parse_group(expr: Node, s: Seq<char>, p: int)
    requires
        writable(expr),
        occurs_at(s, p, group(unparse(expr))),
        sequel(s, p + group(unparse(expr)).len()),
    ensures
        advance(s, p) matches Ok(c) && parse_number_spec(s, c) == Ok::<(Node, Cursor), ParseError>(
            (expr, cursor_at(s, p + group(unparse(expr)).len())),
        ),
    decreases expr, 2int,
{
    let inner = unparse(expr);
    lemma_occurs_group(s, p, inner);
    let close = p + 1 + inner.len();
    let c = advance(s, p)->Ok_0;
    assert(c == Cursor { token: Token::LeftParen, pos: p + 1 });
    lemma_parse_unparsed(expr, s, p + 1);
    let c1 = advance(s, p + 1)->Ok_0;
    let c2 = cursor_at(s, close);
    assert(c2 == Cursor { token: Token::RightParen, pos: close + 1 });
    lemma_advance_at_symbol(s, close + 1);
    let c3 = cursor_at(s, close + 1);
    assert(check_paren_spec(s, c2, Token::RightParen) == Ok::<Cursor, ParseError>(c3));
    assert(c3.token != Token::LeftParen);
    lemma_advance_progress(s, c);
}

/// Every expression that the parser can give is the parse of a text: of the
/// expression written with every operand in parentheses.
pub proof fn lemma_parse_inverts_unparse(expr: Node)
    requires
        writable(expr),
    ensures
        parse_spec(unparse(expr)) == Ok::<Node, ParseError>(expr),
{
    let s = unparse(expr);
    assert(s.subrange(0, s.len() as int) =~= s);
    lemma_parse_unparsed(expr, s, 0);
}

/// A run of digits denotes a number that is not negative.
pub proof fn lemma_decimal_value_nonnegative(digits: Seq<char>)
    requires
        forall|i: int| 0 <= i < digits.len() ==> is_digit(#[trigger] digits[i]),
    ensures
        decimal_value(digits) >= 0,
    decreases digits.len(),
{
    if digits.len() > 0 {
        lemma_decimal_value_nonnegative(digits.drop_last());
    }
}

/// Whether the token under consideration, if it is a number, is not
/// negative.
pub open spec fn plain(c: Cursor) -> bool {
    c.token matches Token::Num(i) ==> i >= 0
}

/// The tokenizer gives no negative number.
pub proof fn lemma_advance_plain(s: Seq<char>, pos: int)
    ensures
        advance(s, pos) matches Ok(c) ==> plain(c),
{
    if 0 <= pos < s.len() && is_digit(s[pos]) {
        lemma_digits_end_bounds(s, pos + 1);
        lemma_decimal_value_nonnegative(s.subrange(pos, digits_end(s, pos + 1)));
    }
}

/// A primary expression that the parser gives holds no negative number.
pub proof fn lemma_parse_number_writable(s: Seq<char>, c: Cursor)
    requires
        plain(c),
    ensures
        parse_number_spec(s, c) matches Ok((expr, c1)) ==> writable(expr) && plain(c1),
    decreases remaining(s, c), 0int,
{
    lemma_advance_plain(s, c.pos);
    match c.token {
        Token::Subtract => {
            if let Ok(c1) = advance(s, c.pos) {
                if consumed(s, c, c1) {
                    lemma_generate_ast_writable(s, c1, OperPrec::Negative);
                }
            }
        },
        Token::LeftParen => {
            if let Ok(c1) = advance(s, c.pos) {
                if consumed(s, c, c1) {
                    lemma_generate_ast_writable(s, c1, OperPrec::DefaultZero);
                    if let Ok((_, c2)) = generate_ast_spec(s, c1, OperPrec::DefaultZero) {
                        lemma_advance_plain(s, c2.pos);
                        if let Ok(c3) = check_paren_spec(s, c2, Token::RightParen) {
                            if c3.token == Token::LeftParen && consumed(s, c, c3) {
                                lemma_generate_ast_writable(s, c3, OperPrec::MulDiv);
                            }
                        }
                    }
                }
            }
        },
        _ => {},
    }
}

/// An expression that the parser gives holds no negative number.
pub proof fn lemma_generate_ast_writable(s: Seq<char>, c: Cursor, prec: OperPrec)
    requires
        plain(c),
    ensures
        generate_ast_spec(s, c, prec) matches Ok((expr, c1)) ==> writable(expr) && plain(c1),
    decreases remaining(s, c), 2int,
{
    lemma_parse_number_writable(s, c);
    if let Ok((left, c1)) = parse_number_spec(s, c) {
        if consumed(s, c, c1) {
            lemma_climb_writable(s, left, c1, prec);
        }
    }
}

/// Extending an expression to the right brings in no negative number.
pub proof fn lemma_climb_writable(s: Seq<char>, left: Node, c: Cursor, prec: OperPrec)
    requires
        writable(left),
        plain(c),
    ensures
        climb_spec(s, left, c, prec) matches Ok((expr, c1)) ==> writable(expr) && plain(c1),
    decreases remaining(s, c), 1int,
{
    if prec.level() < c.token.oper_prec().level() && !(c.token is EOF) {
        lemma_convert_token_to_node_writable(s, left, c);
        if let Ok((node, c1)) = convert_token_to_node_spec(s, left, c) {
            if consumed(s, c, c1) {
                lemma_climb_writable(s, node, c1, prec);
            }
        }
    }
}

/// An operator with its right operand brings in no negative number.
pub proof fn lemma_convert_token_to_node_writable(s: Seq<char>, left: Node, c: Cursor)
    requires
        writable(left),
        plain(c),
    ensures
        convert_token_to_node_spec(s, left, c) matches Ok((expr, c1)) ==> writable(expr) && plain(
            c1,
        ),
    decreases remaining(s, c), 0int,
{
    if c.token.is_operator() {
        lemma_advance_plain(s, c.pos);
        if let Ok(c1) = advance(s, c.pos) {
            if consumed(s, c, c1) {
                lemma_generate_ast_writable(s, c1, c.token.oper_prec());
            }
        }
    }
}

/// What the parser gives holds no negative number, so that writing it as
/// text and parsing the text gives it again.
pub proof fn lemma_unparse_inverts_parse(s: Seq<char>)
    ensures
        parse_spec(s) matches Ok(expr) ==> writable(expr) && parse_spec(unparse(expr)) == Ok::<
            Node,
            ParseError,
        >(expr),
{
    lemma_advance_plain(s, 0);
    if let Ok(c) = advance(s, 0) {
        lemma_generate_ast_writable(s, c, OperPrec::DefaultZero);
        if let Ok(expr) = parse_spec(s) {
            lemma_parse_inverts_unparse(expr);
        }
    }
}

} // verus!
