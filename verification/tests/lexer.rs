use die_sir::parsedie::lexer::{chars_of, Lexer, LexerError};
use die_sir::parsedie::tokens::{OperPrec, Token};

fn tokens(text: &str) -> Vec<Result<Token, LexerError>> {
    let mut lexer = Lexer::new();
    lexer.set_expression(text);
    let mut out = Vec::new();
    loop {
        let next = lexer.next();
        let done = matches!(next, Ok(Token::EOF) | Err(_));
        out.push(next);
        if done {
            return out;
        }
    }
}

#[test]
fn every_symbol_is_one_token() {
    assert_eq!(
        tokens("+-*/^()d"),
        vec![
            Ok(Token::Add),
            Ok(Token::Subtract),
            Ok(Token::Multiply),
            Ok(Token::Divide),
            Ok(Token::Caret),
            Ok(Token::LeftParen),
            Ok(Token::RightParen),
            Ok(Token::Die),
            Ok(Token::EOF),
        ]
    );
}

#[test]
fn digit_runs_are_numbers() {
    assert_eq!(
        tokens("12d6+003"),
        vec![
            Ok(Token::Num(12)),
            Ok(Token::Die),
            Ok(Token::Num(6)),
            Ok(Token::Add),
            Ok(Token::Num(3)),
            Ok(Token::EOF),
        ]
    );
    assert_eq!(tokens("0"), vec![Ok(Token::Num(0)), Ok(Token::EOF)]);
}

#[test]
fn largest_number_fits_and_the_next_overflows() {
    assert_eq!(
        tokens("170141183460469231731687303715884105727"),
        vec![Ok(Token::Num(i128::MAX)), Ok(Token::EOF)]
    );
    assert_eq!(
        tokens("170141183460469231731687303715884105728"),
        vec![Err(LexerError::NumberOverflow)]
    );
    assert_eq!(
        tokens("1+99999999999999999999999999999999999999999999"),
        vec![Ok(Token::Num(1)), Ok(Token::Add), Err(LexerError::NumberOverflow)]
    );
}

#[test]
fn digit_then_open_paren_is_rejected() {
    assert_eq!(tokens("3(4)"), vec![Err(LexerError::InvalidCharacter('('))]);
    assert_eq!(
        tokens("(3)(4)"),
        vec![
            Ok(Token::LeftParen),
            Ok(Token::Num(3)),
            Ok(Token::RightParen),
            Ok(Token::LeftParen),
            Ok(Token::Num(4)),
            Ok(Token::RightParen),
            Ok(Token::EOF),
        ]
    );
    // the parenthesis is reported even where the digits overflow
    assert_eq!(
        tokens("999999999999999999999999999999999999999999("),
        vec![Err(LexerError::InvalidCharacter('('))]
    );
}

#[test]
fn other_characters_are_rejected() {
    assert_eq!(tokens("x"), vec![Err(LexerError::InvalidCharacter('x'))]);
    assert_eq!(tokens("2D6"), vec![Ok(Token::Num(2)), Err(LexerError::InvalidCharacter('D'))]);
    assert_eq!(tokens("1 "), vec![Ok(Token::Num(1)), Err(LexerError::InvalidCharacter(' '))]);
    assert_eq!(tokens("1.5"), vec![Ok(Token::Num(1)), Err(LexerError::InvalidCharacter('.'))]);
    assert_eq!(tokens("é"), vec![Err(LexerError::InvalidCharacter('é'))]);
    assert_eq!(tokens("1٣"), vec![Ok(Token::Num(1)), Err(LexerError::InvalidCharacter('٣'))]);
}

#[test]
fn end_of_input_repeats() {
    let mut lexer = Lexer::new();
    for _ in 0..3 {
        assert_eq!(lexer.next(), Ok(Token::EOF));
    }
    lexer.set_expression("7");
    assert_eq!(lexer.next(), Ok(Token::Num(7)));
    for _ in 0..5 {
        assert_eq!(lexer.next(), Ok(Token::EOF));
    }
}

#[test]
fn a_new_expression_starts_at_its_first_character() {
    let mut lexer = Lexer::new();
    lexer.set_expression("1+2");
    assert_eq!(lexer.next(), Ok(Token::Num(1)));
    lexer.set_expression("d");
    assert_eq!(lexer.next(), Ok(Token::Die));
    assert_eq!(lexer.next(), Ok(Token::EOF));
    lexer.set_chars(vec!['(', '9']);
    assert_eq!(lexer.next(), Ok(Token::LeftParen));
    assert_eq!(lexer.next(), Ok(Token::Num(9)));
    assert_eq!(lexer.next(), Ok(Token::EOF));
}

#[test]
fn characters_of_a_string() {
    assert_eq!(chars_of("2d6é"), vec!['2', 'd', '6', 'é']);
    assert_eq!(chars_of(""), Vec::<char>::new());
}

#[test]
fn binding_power_of_each_token() {
    assert_eq!(Token::Add.get_oper_prec(), OperPrec::AddSub);
    assert_eq!(Token::Subtract.get_oper_prec(), OperPrec::AddSub);
    assert_eq!(Token::Multiply.get_oper_prec(), OperPrec::MulDiv);
    assert_eq!(Token::Divide.get_oper_prec(), OperPrec::MulDiv);
    assert_eq!(Token::Caret.get_oper_prec(), OperPrec::Power);
    assert_eq!(Token::Die.get_oper_prec(), OperPrec::DieRoll);
    for token in [Token::LeftParen, Token::RightParen, Token::Num(5), Token::EOF] {
        assert_eq!(token.get_oper_prec(), OperPrec::DefaultZero);
    }
}

#[test]
fn binding_powers_are_ordered() {
    let order = [
        OperPrec::DefaultZero,
        OperPrec::AddSub,
        OperPrec::MulDiv,
        OperPrec::Power,
        OperPrec::DieRoll,
        OperPrec::Negative,
    ];
    for (i, a) in order.iter().enumerate() {
        assert_eq!(a.rank() as usize, i);
        for (j, b) in order.iter().enumerate() {
            assert_eq!(a.weaker_than(b), i < j);
            assert_eq!(a < b, i < j);
        }
    }
}
