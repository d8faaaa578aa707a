use die_sir::parsedie::dice::{push_rolls, roll_dice, sum_rolls, DiceSource};
use die_sir::parsedie::number::Number;
use die_sir::parsedie::parser::{OperatorFault, Operation};
use die_sir::parsedie::render::{push_decimal, push_number};
use die_sir::{is_whitespace_char, roll, strip_whitespace, DieRoll, DieSir, ParseError};

fn value(n: &Number) -> f64 {
    n.numerator() as f64 / n.denominator() as f64
}

#[test]
fn arithmetic_totals() {
    assert_eq!(value(&roll("1+2-3").unwrap().total), 0.0);
    assert_eq!(value(&roll("3+2-1*5/4").unwrap().total), 3.75);
    assert_eq!(roll("3+2-1*5/4").unwrap().total, Number::new(15, 4).unwrap());
    assert_eq!(roll("2^3^2").unwrap().total, Number::from_int(64));
    assert_eq!(roll("-2^2").unwrap().total, Number::from_int(4));
    assert_eq!(roll("7/2*2").unwrap().total, Number::from_int(7));
}

#[test]
fn adjacent_groups_multiply_when_rolled() {
    let result = roll("(2+3)(4)").unwrap();
    assert_eq!(result.total, Number::from_int(20));
    assert!(result.is_pure_calculation);
    assert_eq!(result.result_expression, "2 + 3 * 4");
}

#[test]
fn division_by_zero_and_zero_sided_dice_are_different_things() {
    assert_eq!(roll("10/0"), Err(ParseError::DivisionByZero));
    let result = roll("1d0").unwrap();
    assert_eq!(result.total, Number::from_int(0));
    assert!(result.rolls.is_empty());
    assert!(!result.is_pure_calculation);
}

#[test]
fn white_space_is_ignored() {
    let spaced = roll(" 2 d 6\t+\n3 ").unwrap();
    assert_eq!(spaced.rolls.len(), 2);
    assert!(spaced.rolls.iter().all(|r| r.sides == 6));
    assert_eq!(roll("1 0 + 1").unwrap().total, Number::from_int(11));
    assert_eq!(roll("\u{2003}4\u{00A0}*\u{3000}5").unwrap().total, Number::from_int(20));
    assert_eq!(strip_whitespace(" a\tb \u{2028}c"), vec!['a', 'b', 'c']);
}

#[test]
fn white_space_is_what_the_standard_library_calls_so() {
    for code in 0..=0x10FFFFu32 {
        if let Some(c) = char::from_u32(code) {
            assert_eq!(is_whitespace_char(c), c.is_whitespace(), "U+{:04X}", code);
        }
    }
}

#[test]
fn dice_rolls_through_the_entry_point() {
    let result = roll("3d6 + 2").unwrap();
    assert_eq!(result.rolls.len(), 3);
    for r in &result.rolls {
        assert_eq!(r.sides, 6);
        assert!(1 <= r.value && r.value <= 6);
    }
    let sum: i128 = result.rolls.iter().map(|r| r.value).sum();
    assert_eq!(result.total, Number::from_int(sum + 2));
    assert!(!result.is_pure_calculation);
    let values: Vec<String> = result.rolls.iter().map(|r| r.value.to_string()).collect();
    assert_eq!(result.to_string(), format!("3d6 [{}] + 2", values.join(", ")));
}

#[test]
fn dice_in_a_product_are_rejected() {
    assert_eq!(
        roll("2d6*2"),
        Err(ParseError::InvalidOperator(OperatorFault::DiceOperand(Operation::Multiply)))
    );
    assert_eq!(
        roll("(2d8 + 1d6 + 4) * 2"),
        Err(ParseError::InvalidOperator(OperatorFault::DiceOperand(Operation::Multiply)))
    );
    assert_eq!(
        roll("-(1d4)"),
        Err(ParseError::InvalidOperator(OperatorFault::DiceOperand(Operation::Negate)))
    );
    assert_eq!(
        roll("2^(1d4)"),
        Err(ParseError::InvalidOperator(OperatorFault::DiceOperand(Operation::Power)))
    );
    assert_eq!(
        roll("10/(1d4)"),
        Err(ParseError::InvalidOperator(OperatorFault::DiceOperand(Operation::Divide)))
    );
}

#[test]
fn a_roller_and_the_one_shot_function_agree() {
    let mut dice = DieSir::new();
    for text in ["1+2-3", "3+2-1*5/4", "(2+3)(4)", "10/0", "2*", "3(4)", "1d0", "2^(1/2)", ""] {
        assert_eq!(dice.roll(text), roll(text), "{}", text);
    }
    // with dice: the same dice, whatever they show
    let a = dice.roll("2d6 + 1d20 + 3").unwrap();
    let b = roll("2d6 + 1d20 + 3").unwrap();
    assert_eq!(a.rolls.len(), b.rolls.len());
    for (x, y) in a.rolls.iter().zip(b.rolls.iter()) {
        assert_eq!(x.sides, y.sides);
    }
    assert_eq!(a.is_pure_calculation, b.is_pure_calculation);
    // an earlier failure leaves nothing behind
    assert!(dice.roll("(1+").is_err());
    assert_eq!(dice.roll("4*5").unwrap().total, Number::from_int(20));
    assert_eq!(DieSir::default().roll("4*5"), roll("4*5"));
}

#[test]
fn parse_errors_through_the_entry_point() {
    assert_eq!(roll("2 $ 3"), Err(ParseError::InvalidCharacter('$')));
    assert_eq!(roll("3 (4)"), Err(ParseError::InvalidCharacter('(')));
    assert_eq!(
        roll("999999999999999999999999999999999999999999"),
        Err(ParseError::NumberOverflow)
    );
    assert!(matches!(roll("*"), Err(ParseError::UnableToParse(_))));
    assert!(matches!(roll("(1"), Err(ParseError::InvalidOperator(_))));
}

#[test]
fn rolled_dice_have_the_sides_asked_for() {
    let mut dice = DiceSource::random();
    let rolls = roll_dice(&mut dice, 50, 4);
    assert_eq!(rolls.len(), 50);
    assert!(rolls.iter().all(|r| r.sides == 4 && 1 <= r.value && r.value <= 4));
    assert!(rolls.iter().any(|r| r.value != 4));
    assert!(roll_dice(&mut dice, 0, 4).is_empty());
    assert!(roll_dice(&mut dice, -2, 4).is_empty());
    assert!(roll_dice(&mut dice, 3, 1).iter().all(|r| r.value == 1));
    let roll = dice.draw(20);
    assert!(roll.sides == 20 && 1 <= roll.value && roll.value <= 20);
}

#[test]
fn a_script_hands_out_its_numbers_in_turn() {
    let mut dice = DiceSource::scripted(vec![4, 1, 6]).unwrap();
    let values: Vec<i128> = roll_dice(&mut dice, 7, 6).iter().map(|r| r.value).collect();
    assert_eq!(values, vec![4, 1, 6, 4, 1, 6, 4]);
    // the script goes on where it stood
    assert_eq!(dice.draw(6), DieRoll { sides: 6, value: 1 });
    assert_eq!(dice.draw(6), DieRoll { sides: 6, value: 6 });
    assert_eq!(dice.draw(6), DieRoll { sides: 6, value: 4 });
}

#[test]
fn a_script_number_beyond_the_die_goes_around() {
    let mut dice = DiceSource::scripted(vec![6, 7, 12, 13, 1, i128::MAX]).unwrap();
    let values: Vec<i128> = roll_dice(&mut dice, 6, 6).iter().map(|r| r.value).collect();
    assert_eq!(values, vec![6, 1, 6, 1, 1, (i128::MAX - 1) % 6 + 1]);
    let mut dice = DiceSource::scripted(vec![5]).unwrap();
    assert_eq!(dice.draw(1).value, 1);
    assert_eq!(dice.draw(i128::MAX).value, 5);
}

#[test]
fn a_script_must_hold_numbers_from_one_up() {
    assert!(DiceSource::scripted(vec![]).is_none());
    assert!(DiceSource::scripted(vec![3, 0]).is_none());
    assert!(DiceSource::scripted(vec![-1]).is_none());
    assert!(DiceSource::scripted(vec![1]).is_some());
}

#[test]
fn a_roller_with_a_script_repeats_itself() {
    let mut roller = DieSir::with_dice(DiceSource::scripted(vec![4, 1, 6, 13]).unwrap());
    let result = roller.roll("3d6 + 2").unwrap();
    assert_eq!(
        result.rolls,
        vec![
            DieRoll { sides: 6, value: 4 },
            DieRoll { sides: 6, value: 1 },
            DieRoll { sides: 6, value: 6 },
        ]
    );
    assert_eq!(result.total, Number::from_int(13));
    assert_eq!(result.result_expression, "3d6 [4, 1, 6] + 2");
    assert_eq!(result.format_dice_rolls(), "3d6 [4, 1, 6]");
    assert!(!result.is_pure_calculation);
    // the next roll goes on in the script
    let result = roller.roll("1d20 - 2d4").unwrap();
    assert_eq!(
        result.rolls,
        vec![
            DieRoll { sides: 20, value: 13 },
            DieRoll { sides: 4, value: 4 },
            DieRoll { sides: 4, value: 1 },
        ]
    );
    assert_eq!(result.total, Number::from_int(8));
    assert_eq!(result.result_expression, "1d20 [13] - 2d4 [4, 1]");
    assert_eq!(result.format_dice_rolls(), "1d20 [13] + 2d4 [4, 1]");
}

#[test]
fn sums_of_rolls() {
    let roll = |sides, value| DieRoll { sides, value };
    assert_eq!(sum_rolls(&vec![roll(6, 4), roll(6, 1), roll(8, 6)]), Some(11));
    assert_eq!(sum_rolls(&vec![]), Some(0));
    assert_eq!(sum_rolls(&vec![roll(i128::MAX, i128::MAX), roll(6, 1)]), None);
    assert_eq!(sum_rolls(&vec![roll(i128::MAX, i128::MAX - 1), roll(6, 1)]), Some(i128::MAX));
}

#[test]
fn rolls_as_text() {
    let roll = |sides, value| DieRoll { sides, value };
    let mut text = String::from("=> ");
    push_rolls(&mut text, &vec![roll(6, 4), roll(6, 1), roll(6, 6)]);
    assert_eq!(text, "=> 3d6 [4, 1, 6]");
    let mut text = String::new();
    push_rolls(&mut text, &vec![]);
    assert_eq!(text, "");
    let mut text = String::new();
    push_rolls(&mut text, &vec![roll(4, 2), roll(6, 5), roll(4, 3)]);
    assert_eq!(text, "2d4 [2, 3] + 1d6 [5]");
}

#[test]
fn numbers_as_text() {
    let mut text = String::new();
    push_decimal(&mut text, 0);
    text.push(' ');
    push_decimal(&mut text, -907);
    text.push(' ');
    push_decimal(&mut text, i128::MIN);
    text.push(' ');
    push_decimal(&mut text, i128::MAX);
    assert_eq!(text, format!("0 -907 {} {}", i128::MIN, i128::MAX));
    let mut text = String::new();
    push_number(&mut text, &Number::new(-10, 4).unwrap());
    text.push(' ');
    push_number(&mut text, &Number::from_int(12));
    assert_eq!(text, "-5/2 12");
}
