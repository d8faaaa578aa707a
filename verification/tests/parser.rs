use die_sir::parsedie::ast::Node;
use die_sir::parsedie::lexer::LexerError;
use die_sir::parsedie::parser::{OperatorFault, Operation, ParseError, Parser};
use die_sir::parsedie::tokens::{OperPrec, Token};
use die_sir::parsedie::unparse::{push_expression, to_text};

fn parse(text: &str) -> Result<Node, ParseError> {
    Parser::new().parse(text)
}

fn num(n: i128) -> Box<Node> {
    Box::new(Node::Number(n))
}

#[test]
fn a_number_alone() {
    assert_eq!(parse("42"), Ok(Node::Number(42)));
}

#[test]
fn dice_bind_tighter_than_addition() {
    assert_eq!(
        parse("2d6+3"),
        Ok(Node::Add(Box::new(Node::Die(num(2), num(6))), num(3)))
    );
}

#[test]
fn multiplication_binds_tighter_than_addition() {
    assert_eq!(
        parse("1+2*3"),
        Ok(Node::Add(num(1), Box::new(Node::Multiply(num(2), num(3)))))
    );
    assert_eq!(
        parse("1*2+3"),
        Ok(Node::Add(Box::new(Node::Multiply(num(1), num(2))), num(3)))
    );
}

#[test]
fn operators_of_one_class_group_to_the_left() {
    assert_eq!(
        parse("1-2-3"),
        Ok(Node::Subtract(Box::new(Node::Subtract(num(1), num(2))), num(3)))
    );
    assert_eq!(
        parse("8/4/2"),
        Ok(Node::Divide(Box::new(Node::Divide(num(8), num(4))), num(2)))
    );
    assert_eq!(
        parse("2^3^2"),
        Ok(Node::Caret(Box::new(Node::Caret(num(2), num(3))), num(2)))
    );
    assert_eq!(
        parse("1d6d2"),
        Ok(Node::Die(Box::new(Node::Die(num(1), num(6))), num(2)))
    );
}

#[test]
fn mixed_precedence() {
    // 3+2-1*5/4
    assert_eq!(
        parse("3+2-1*5/4"),
        Ok(Node::Subtract(
            Box::new(Node::Add(num(3), num(2))),
            Box::new(Node::Divide(Box::new(Node::Multiply(num(1), num(5))), num(4))),
        ))
    );
    // 2*3^2d4: dice first, then the power, then the product
    assert_eq!(
        parse("2*3^2d4"),
        Ok(Node::Multiply(
            num(2),
            Box::new(Node::Caret(num(3), Box::new(Node::Die(num(2), num(4))))),
        ))
    );
}

#[test]
fn unary_minus_binds_tightest() {
    assert_eq!(parse("-5"), Ok(Node::Negative(num(5))));
    assert_eq!(
        parse("-3+7"),
        Ok(Node::Add(Box::new(Node::Negative(num(3))), num(7)))
    );
    assert_eq!(
        parse("-2d6"),
        Ok(Node::Die(Box::new(Node::Negative(num(2))), num(6)))
    );
    assert_eq!(
        parse("2--3"),
        Ok(Node::Subtract(num(2), Box::new(Node::Negative(num(3)))))
    );
    assert_eq!(parse("--1"), Ok(Node::Negative(Box::new(Node::Negative(num(1))))));
}

#[test]
fn parentheses_group() {
    assert_eq!(
        parse("(1+2)*3"),
        Ok(Node::Multiply(Box::new(Node::Add(num(1), num(2))), num(3)))
    );
    assert_eq!(
        parse("(1+1)d6"),
        Ok(Node::Die(Box::new(Node::Add(num(1), num(1))), num(6)))
    );
    assert_eq!(parse("((7))"), Ok(Node::Number(7)));
}

#[test]
fn adjacent_groups_multiply() {
    assert_eq!(
        parse("(2+3)(4)"),
        Ok(Node::Multiply(Box::new(Node::Add(num(2), num(3))), num(4)))
    );
    assert_eq!(
        parse("(2d6)(3)"),
        Ok(Node::Multiply(Box::new(Node::Die(num(2), num(6))), num(3)))
    );
    // the second group is an operand of its own, whatever stands before the first
    assert_eq!(
        parse("1+(2)(3)"),
        Ok(Node::Add(num(1), Box::new(Node::Multiply(num(2), num(3)))))
    );
    // what follows the second group at a higher binding power belongs to it
    assert_eq!(
        parse("(2)(3)^2"),
        Ok(Node::Multiply(num(2), Box::new(Node::Caret(num(3), num(2)))))
    );
    assert_eq!(
        parse("(2)(3)(4)"),
        Ok(Node::Multiply(num(2), Box::new(Node::Multiply(num(3), num(4)))))
    );
}

#[test]
fn a_number_before_a_group_is_a_lexical_error() {
    assert_eq!(parse("3(4)"), Err(ParseError::InvalidCharacter('(')));
    assert_eq!(parse("(3)+2(4)"), Err(ParseError::InvalidCharacter('(')));
}

#[test]
fn what_cannot_start_an_expression() {
    assert_eq!(parse(""), Err(ParseError::UnableToParse(Token::EOF)));
    assert_eq!(parse("+1"), Err(ParseError::UnableToParse(Token::Add)));
    assert_eq!(parse("1+"), Err(ParseError::UnableToParse(Token::EOF)));
    assert_eq!(parse("1+*2"), Err(ParseError::UnableToParse(Token::Multiply)));
    assert_eq!(parse(")"), Err(ParseError::UnableToParse(Token::RightParen)));
    assert_eq!(parse("d6"), Err(ParseError::UnableToParse(Token::Die)));
    assert_eq!(parse("()"), Err(ParseError::UnableToParse(Token::RightParen)));
}

#[test]
fn unmatched_parenthesis() {
    assert_eq!(
        parse("(1+2"),
        Err(ParseError::InvalidOperator(OperatorFault::Expected {
            expected: Token::RightParen,
            found: Token::EOF,
        }))
    );
    assert_eq!(
        parse("((1)"),
        Err(ParseError::InvalidOperator(OperatorFault::Expected {
            expected: Token::RightParen,
            found: Token::EOF,
        }))
    );
    assert_eq!(
        parse("(1 2)"),
        Err(ParseError::InvalidCharacter(' '))
    );
}

#[test]
fn lexical_errors_pass_through() {
    assert_eq!(parse("2x3"), Err(ParseError::InvalidCharacter('x')));
    assert_eq!(parse("$"), Err(ParseError::InvalidCharacter('$')));
    assert_eq!(
        parse("1+340282366920938463463374607431768211456"),
        Err(ParseError::NumberOverflow)
    );
    assert_eq!(ParseError::from(LexerError::NumberOverflow), ParseError::NumberOverflow);
    assert_eq!(
        ParseError::from(LexerError::InvalidCharacter('?')),
        ParseError::InvalidCharacter('?')
    );
}

#[test]
fn errors_come_in_reading_order() {
    // the character that cannot be read is never reached
    assert_eq!(parse("+$"), Err(ParseError::UnableToParse(Token::Add)));
    // the token after an operand is read before the operand is used
    assert_eq!(parse("1$"), Err(ParseError::InvalidCharacter('$')));
}

#[test]
fn what_follows_a_complete_expression_is_left_alone() {
    assert_eq!(parse("1)"), Ok(Node::Number(1)));
    assert_eq!(parse("(1)2"), Ok(Node::Number(1)));
    assert_eq!(parse("1+2)*3"), Ok(Node::Add(num(1), num(2))));
}

#[test]
fn a_parser_can_be_used_again() {
    let mut parser = Parser::new();
    assert_eq!(parser.parse("(1+"), Err(ParseError::UnableToParse(Token::EOF)));
    assert_eq!(parser.parse("2d6"), Ok(Node::Die(num(2), num(6))));
    assert_eq!(parser.parse_chars(vec!['7', '*', '8']), Ok(Node::Multiply(num(7), num(8))));
    assert_eq!(parser.parse("2d6"), Parser::new().parse("2d6"));
}

#[test]
fn error_messages() {
    assert_eq!(
        ParseError::UnableToParse(Token::RightParen).to_string(),
        "Unable to parse: unexpected RightParen"
    );
    assert_eq!(
        ParseError::InvalidOperator(OperatorFault::Expected {
            expected: Token::RightParen,
            found: Token::Num(-12),
        })
        .to_string(),
        "Invalid operator: Expected RightParen, got Num(-12)"
    );
    assert_eq!(
        ParseError::InvalidOperator(OperatorFault::NotAnOperator(Token::EOF)).to_string(),
        "Invalid operator: Please, enter a valid operator EOF"
    );
    assert_eq!(
        ParseError::InvalidOperator(OperatorFault::DiceOperand(Operation::Multiply)).to_string(),
        "Invalid operator: Cannot multiply dice results directly"
    );
    assert_eq!(
        ParseError::InvalidOperator(OperatorFault::DiceOperand(Operation::DieRoll)).to_string(),
        "Invalid operator: Cannot roll dice with dice results directly"
    );
    assert_eq!(
        ParseError::InvalidOperator(OperatorFault::NoExactPower).to_string(),
        "Invalid operator: Cannot raise to this power exactly"
    );
    assert_eq!(ParseError::NumberOverflow.to_string(), "Number overflow: Number is too large");
    assert_eq!(ParseError::InvalidCharacter('é').to_string(), "Invalid character: é");
    assert_eq!(ParseError::DivisionByZero.to_string(), "Division by zero");
}

#[test]
fn a_parser_can_be_driven_step_by_step() {
    let chars = |text: &str| text.chars().collect::<Vec<char>>();
    let mut parser = Parser::new();
    assert_eq!(parser.start(chars("(1+2)*3)")), Ok(()));
    assert_eq!(
        parser.parse_number(),
        Ok(Node::Add(num(1), num(2)))
    );
    assert_eq!(
        parser.convert_token_to_node(Node::Number(9)),
        Ok(Node::Multiply(num(9), num(3)))
    );
    // a closing parenthesis stands there now, which is no operator
    assert_eq!(
        parser.convert_token_to_node(Node::Number(9)),
        Err(ParseError::InvalidOperator(OperatorFault::NotAnOperator(Token::RightParen)))
    );
    assert_eq!(
        parser.check_paren(Token::LeftParen),
        Err(ParseError::InvalidOperator(OperatorFault::Expected {
            expected: Token::LeftParen,
            found: Token::RightParen,
        }))
    );
    assert_eq!(parser.check_paren(Token::RightParen), Ok(()));
    assert_eq!(parser.get_next_token(), Ok(()));
    assert_eq!(parser.parse_number(), Err(ParseError::UnableToParse(Token::EOF)));
    assert_eq!(parser.start(chars("$")), Err(ParseError::InvalidCharacter('$')));
}

#[test]
fn an_expression_stops_before_a_weaker_operator() {
    let mut parser = Parser::new();
    assert_eq!(parser.start("2*3+4".chars().collect()), Ok(()));
    assert_eq!(parser.generate_ast(OperPrec::AddSub), Ok(Node::Multiply(num(2), num(3))));
    assert_eq!(parser.convert_token_to_node(Node::Number(0)), Ok(Node::Add(num(0), num(4))));
    assert_eq!(parser.start("2*3+4".chars().collect()), Ok(()));
    assert_eq!(parser.generate_ast(OperPrec::MulDiv), Ok(Node::Number(2)));
}

#[test]
fn an_expression_written_as_text_parses_back() {
    let trees = vec![
        Node::Number(0),
        Node::Number(i128::MAX),
        Node::Negative(num(5)),
        Node::Add(Box::new(Node::Die(num(2), num(6))), num(3)),
        Node::Subtract(num(1), Box::new(Node::Subtract(num(2), num(3)))),
        Node::Caret(num(2), Box::new(Node::Caret(num(3), num(2)))),
        Node::Die(num(1), Box::new(Node::Negative(Box::new(Node::Divide(num(7), num(2)))))),
        Node::Multiply(
            Box::new(Node::Negative(Box::new(Node::Negative(num(1))))),
            Box::new(Node::Add(num(4), Box::new(Node::Multiply(num(5), num(6))))),
        ),
    ];
    for tree in trees {
        let text = to_text(&tree);
        assert_eq!(parse(&text), Ok(tree), "{}", text);
    }
}

#[test]
fn text_of_an_expression() {
    assert_eq!(to_text(&Node::Number(12)), "12");
    assert_eq!(to_text(&Node::Die(num(2), num(6))), "(2)d(6)");
    assert_eq!(
        to_text(&Node::Negative(Box::new(Node::Add(num(1), num(2))))),
        "-((1)+(2))"
    );
    assert_eq!(
        to_text(&Node::Caret(Box::new(Node::Divide(num(1), num(2))), Box::new(Node::Multiply(num(3), num(4))))),
        "((1)/(2))^((3)*(4))"
    );
    let mut text = String::from("roll ");
    push_expression(&mut text, &Node::Subtract(num(9), num(1)));
    assert_eq!(text, "roll (9)-(1)");
    // a negative number is written with its sign, and read as a negation
    assert_eq!(to_text(&Node::Number(-5)), "-5");
    assert_eq!(parse("-5"), Ok(Node::Negative(num(5))));
}

#[test]
fn a_step_that_fails_on_its_first_token_reads_nothing() {
    let mut parser = Parser::new();
    assert_eq!(parser.start("+7".chars().collect()), Ok(()));
    // none of these moves past the `+`
    assert_eq!(parser.parse_number(), Err(ParseError::UnableToParse(Token::Add)));
    assert_eq!(
        parser.check_paren(Token::RightParen),
        Err(ParseError::InvalidOperator(OperatorFault::Expected {
            expected: Token::RightParen,
            found: Token::Add,
        }))
    );
    assert_eq!(parser.parse_number(), Err(ParseError::UnableToParse(Token::Add)));
    assert_eq!(parser.convert_token_to_node(Node::Number(1)), Ok(Node::Add(num(1), num(7))));
    // at the end no operator stands, and the cursor stays there
    for _ in 0..2 {
        assert_eq!(
            parser.convert_token_to_node(Node::Number(1)),
            Err(ParseError::InvalidOperator(OperatorFault::NotAnOperator(Token::EOF)))
        );
    }
}
