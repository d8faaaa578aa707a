use die_sir::parsedie::ast::{eval, eval_with, DieRoll, Node, RollResult};
use die_sir::parsedie::dice::DiceSource;
use die_sir::parsedie::number::Number;
use die_sir::parsedie::parser::{OperatorFault, Operation, ParseError};

// Helper function to create a number node
fn num(n: i128) -> Node {
    Node::Number(n)
}

fn value(n: &Number) -> f64 {
    n.numerator() as f64 / n.denominator() as f64
}

fn die(count: i128, sides: i128) -> Node {
    Node::Die(Box::new(num(count)), Box::new(num(sides)))
}

#[test]
fn test_basic_arithmetic() {
    // Test addition
    let add = Node::Add(Box::new(num(1)), Box::new(num(2)));
    assert_eq!(value(&eval(add).unwrap().total), 3.0);

    // Test subtraction
    let sub = Node::Subtract(Box::new(num(5)), Box::new(num(3)));
    assert_eq!(value(&eval(sub).unwrap().total), 2.0);

    // Test multiplication
    let mul = Node::Multiply(Box::new(num(4)), Box::new(num(2)));
    assert_eq!(value(&eval(mul).unwrap().total), 8.0);

    // Test division
    let div = Node::Divide(Box::new(num(10)), Box::new(num(2)));
    assert_eq!(value(&eval(div).unwrap().total), 5.0);
}

#[test]
fn test_complex_expressions() {
    // Test (1 + 2) * 3
    let expr = Node::Multiply(
        Box::new(Node::Add(Box::new(num(1)), Box::new(num(2)))),
        Box::new(num(3)),
    );
    assert_eq!(value(&eval(expr).unwrap().total), 9.0);

    // Test 10 - (3 * 2)
    let expr = Node::Subtract(
        Box::new(num(10)),
        Box::new(Node::Multiply(Box::new(num(3)), Box::new(num(2)))),
    );
    assert_eq!(value(&eval(expr).unwrap().total), 4.0);
}

#[test]
fn test_negative_numbers() {
    // Test -5
    let neg = Node::Negative(Box::new(num(5)));
    assert_eq!(value(&eval(neg).unwrap().total), -5.0);

    // Test -3 + 7
    let expr = Node::Add(Box::new(Node::Negative(Box::new(num(3)))), Box::new(num(7)));
    assert_eq!(value(&eval(expr).unwrap().total), 4.0);
}

#[test]
fn test_power_operation() {
    // Test 2^3
    let pow = Node::Caret(Box::new(num(2)), Box::new(num(3)));
    assert_eq!(value(&eval(pow).unwrap().total), 8.0);

    // Test 3^2
    let pow = Node::Caret(Box::new(num(3)), Box::new(num(2)));
    assert_eq!(value(&eval(pow).unwrap().total), 9.0);
}

#[test]
fn test_die_rolls() {
    // Test single die (1d6)
    let result = eval(die(1, 6)).unwrap();
    assert!(value(&result.total) >= 1.0 && value(&result.total) <= 6.0);
    assert_eq!(result.rolls.len(), 1);
    assert_eq!(result.rolls[0].sides, 6);
    assert_eq!(result.rolls[0].value as f64, value(&result.total));

    // Test multiple dice (3d6)
    let result = eval(die(3, 6)).unwrap();
    assert_eq!(result.rolls.len(), 3);
    for roll in &result.rolls {
        assert!(roll.value >= 1 && roll.value <= 6);
    }

    // Test 0 dice
    let result = eval(die(0, 6)).unwrap();
    assert_eq!(value(&result.total), 0.0);
    assert!(result.rolls.is_empty());
}

#[test]
fn test_error_conditions() {
    // Test division by zero
    let div_zero = Node::Divide(Box::new(num(10)), Box::new(num(0)));
    assert!(eval(div_zero).is_err());

    // Test invalid die sides
    let result = eval(die(1, 0)).unwrap();
    assert_eq!(value(&result.total), 0.0);
    assert!(result.rolls.is_empty());

    // Test negative dice count
    let neg_dice = Node::Die(Box::new(Node::Negative(Box::new(num(1)))), Box::new(num(6)));
    let result = eval(neg_dice).unwrap();
    assert_eq!(value(&result.total), 0.0);
    assert!(result.rolls.is_empty());
}

#[test]
fn literal_is_pure_with_its_own_text() {
    let result = eval(num(-42)).unwrap();
    assert_eq!(result.total, Number::from_int(-42));
    assert!(result.is_pure_calculation);
    assert!(result.rolls.is_empty());
    assert_eq!(result.modifier, Number::from_int(0));
    assert_eq!(result.result_expression, "-42");
    assert_eq!(result.to_string(), "-42");
}

#[test]
fn totals_are_exact_fractions() {
    // 3 + 2 - 1 * 5 / 4
    let expr = Node::Subtract(
        Box::new(Node::Add(Box::new(num(3)), Box::new(num(2)))),
        Box::new(Node::Divide(
            Box::new(Node::Multiply(Box::new(num(1)), Box::new(num(5)))),
            Box::new(num(4)),
        )),
    );
    let result = eval(expr).unwrap();
    assert_eq!(result.total, Number::new(15, 4).unwrap());
    assert_eq!(value(&result.total), 3.75);
    assert_eq!(result.result_expression, "3 + 2 - 1 * 5 / 4");
    assert_eq!(result.format_dice_rolls(), "15/4");
}

#[test]
fn one_third_three_times_is_one() {
    let third = || Node::Divide(Box::new(num(1)), Box::new(num(3)));
    let expr = Node::Add(
        Box::new(Node::Add(Box::new(third()), Box::new(third()))),
        Box::new(third()),
    );
    assert_eq!(eval(expr).unwrap().total, Number::from_int(1));
}

#[test]
fn dice_with_modifier_keep_every_roll() {
    let expr = Node::Add(Box::new(die(3, 6)), Box::new(num(2)));
    let result = eval(expr).unwrap();
    assert!(!result.is_pure_calculation);
    assert_eq!(result.rolls.len(), 3);
    let sum: i128 = result.rolls.iter().map(|r| r.value).sum();
    assert_eq!(result.total, Number::from_int(sum + 2));
    let values: Vec<String> = result.rolls.iter().map(|r| r.value.to_string()).collect();
    assert_eq!(result.result_expression, format!("3d6 [{}] + 2", values.join(", ")));
}

#[test]
fn sum_of_two_kinds_of_dice_concatenates_rolls() {
    let expr = Node::Subtract(Box::new(die(2, 8)), Box::new(die(3, 4)));
    let result = eval(expr).unwrap();
    assert_eq!(result.rolls.len(), 5);
    assert!(result.rolls[..2].iter().all(|r| r.sides == 8 && 1 <= r.value && r.value <= 8));
    assert!(result.rolls[2..].iter().all(|r| r.sides == 4 && 1 <= r.value && r.value <= 4));
    let left: i128 = result.rolls[..2].iter().map(|r| r.value).sum();
    let right: i128 = result.rolls[2..].iter().map(|r| r.value).sum();
    assert_eq!(result.total, Number::from_int(left - right));
}

#[test]
fn many_dice_total_is_sum_and_values_vary() {
    let result = eval(die(200, 1000)).unwrap();
    assert_eq!(result.rolls.len(), 200);
    assert!(result.rolls.iter().all(|r| r.sides == 1000 && 1 <= r.value && r.value <= 1000));
    let sum: i128 = result.rolls.iter().map(|r| r.value).sum();
    assert_eq!(result.total, Number::from_int(sum));
    // A source that handed its argument back would show 1000 on every die.
    assert!(result.rolls.iter().any(|r| r.value != 1000));
    assert!(result.rolls.iter().any(|r| r.value != result.rolls[0].value));
}

#[test]
fn degenerate_dice_are_an_empty_roll_not_an_error() {
    for (count, sides) in [(0, 6), (1, 0), (-3, 6), (2, -1), (0, 0)] {
        let result = eval(die(count, sides)).unwrap();
        assert_eq!(result.total, Number::from_int(0));
        assert!(result.rolls.is_empty());
        assert!(!result.is_pure_calculation);
        assert_eq!(result.result_expression, "0");
    }
}

#[test]
fn dice_count_and_sides_are_truncated() {
    // (7/2)d(5/2) rolls three dice with two sides
    let expr = Node::Die(
        Box::new(Node::Divide(Box::new(num(7)), Box::new(num(2)))),
        Box::new(Node::Divide(Box::new(num(5)), Box::new(num(2)))),
    );
    let result = eval(expr).unwrap();
    assert_eq!(result.rolls.len(), 3);
    assert!(result.rolls.iter().all(|r| r.sides == 2));
    // (-1/2)d6 truncates to no dice at all
    let expr = Node::Die(
        Box::new(Node::Divide(Box::new(num(-1)), Box::new(num(2)))),
        Box::new(num(6)),
    );
    assert!(eval(expr).unwrap().rolls.is_empty());
}

#[test]
fn operators_on_numbers_reject_dice() {
    let fault = |op| Err::<RollResult, _>(ParseError::InvalidOperator(OperatorFault::DiceOperand(op)));
    let mul = Node::Multiply(Box::new(die(2, 6)), Box::new(num(2)));
    assert_eq!(eval(mul), fault(Operation::Multiply));
    let mul = Node::Multiply(Box::new(num(2)), Box::new(die(2, 6)));
    assert_eq!(eval(mul), fault(Operation::Multiply));
    let div = Node::Divide(Box::new(die(2, 6)), Box::new(num(2)));
    assert_eq!(eval(div), fault(Operation::Divide));
    let pow = Node::Caret(Box::new(num(2)), Box::new(die(1, 0)));
    assert_eq!(eval(pow), fault(Operation::Power));
    let neg = Node::Negative(Box::new(die(1, 6)));
    assert_eq!(eval(neg), fault(Operation::Negate));
    let nested = Node::Die(Box::new(die(1, 6)), Box::new(num(6)));
    assert_eq!(eval(nested), fault(Operation::DieRoll));
    // a sum that holds dice is no number either
    let sum = Node::Add(Box::new(die(1, 6)), Box::new(num(1)));
    let mul = Node::Multiply(Box::new(sum), Box::new(num(2)));
    assert_eq!(eval(mul), fault(Operation::Multiply));
}

#[test]
fn division_by_zero_comes_after_the_dice_check() {
    let div = Node::Divide(Box::new(num(10)), Box::new(num(0)));
    assert_eq!(eval(div), Err(ParseError::DivisionByZero));
    let div = Node::Divide(Box::new(die(1, 6)), Box::new(num(0)));
    assert_eq!(
        eval(div),
        Err(ParseError::InvalidOperator(OperatorFault::DiceOperand(Operation::Divide)))
    );
    // the left operand's failure comes first
    let left = Node::Divide(Box::new(num(1)), Box::new(num(0)));
    let right = Node::Negative(Box::new(die(1, 6)));
    assert_eq!(eval(Node::Add(Box::new(left), Box::new(right))), Err(ParseError::DivisionByZero));
}

#[test]
fn powers() {
    let pow = |b, e| eval(Node::Caret(Box::new(b), Box::new(e)));
    assert_eq!(pow(num(2), num(10)).unwrap().total, Number::from_int(1024));
    assert_eq!(pow(num(2), num(-2)).unwrap().total, Number::new(1, 4).unwrap());
    assert_eq!(pow(num(-2), num(3)).unwrap().total, Number::from_int(-8));
    assert_eq!(pow(num(0), num(0)).unwrap().total, Number::from_int(1));
    assert_eq!(pow(num(-1), num(i128::MAX)).unwrap().total, Number::from_int(-1));
    assert_eq!(pow(num(7), num(0)).unwrap().total, Number::from_int(1));
    assert_eq!(
        pow(num(0), num(-1)),
        Err(ParseError::InvalidOperator(OperatorFault::NoExactPower))
    );
    assert_eq!(pow(num(2), num(127)), Err(ParseError::NumberOverflow));
    assert_eq!(pow(num(-2), num(127)).unwrap().total, Number::from_int(i128::MIN));
    assert_eq!(pow(num(2), num(3)).unwrap().result_expression, "2^3");
}

#[test]
fn arithmetic_that_leaves_the_range_is_an_overflow() {
    let add = Node::Add(Box::new(num(i128::MAX)), Box::new(num(1)));
    assert_eq!(eval(add), Err(ParseError::NumberOverflow));
    let neg = Node::Negative(Box::new(num(i128::MIN)));
    assert_eq!(eval(neg), Err(ParseError::NumberOverflow));
    let mul = Node::Multiply(Box::new(num(i128::MAX)), Box::new(num(2)));
    assert_eq!(eval(mul), Err(ParseError::NumberOverflow));
    let sub = Node::Subtract(Box::new(num(i128::MIN)), Box::new(num(1)));
    assert_eq!(eval(sub), Err(ParseError::NumberOverflow));
}

#[test]
fn format_groups_rolls_by_kind_in_order_of_first_appearance() {
    let roll = |sides, value| DieRoll { sides, value };
    let result = RollResult {
        rolls: vec![roll(6, 4), roll(8, 7), roll(6, 1), roll(6, 6), roll(20, 13), roll(8, 2)],
        total: Number::from_int(35),
        modifier: Number::from_int(2),
        is_pure_calculation: false,
        result_expression: String::new(),
    };
    assert_eq!(result.format_dice_rolls(), "3d6 [4, 1, 6] + 2d8 [7, 2] + 1d20 [13] + 2");
    let plain = RollResult { modifier: Number::from_int(0), ..result.clone() };
    assert_eq!(plain.format_dice_rolls(), "3d6 [4, 1, 6] + 2d8 [7, 2] + 1d20 [13]");
    let pure = RollResult { is_pure_calculation: true, total: Number::new(-7, 2).unwrap(), ..result };
    assert_eq!(pure.format_dice_rolls(), "-7/2");
}

#[test]
fn clone_of_a_tree_is_the_same_tree() {
    let expr = Node::Add(Box::new(die(2, 6)), Box::new(Node::Negative(Box::new(num(3)))));
    assert_eq!(expr.clone(), expr);
}

#[test]
fn scripted_dice_make_the_evaluation_repeatable() {
    let mut dice = DiceSource::scripted(vec![4, 1, 6]).unwrap();
    let result = eval_with(die(3, 6), &mut dice).unwrap();
    let roll = |value| DieRoll { sides: 6, value };
    assert_eq!(result.rolls, vec![roll(4), roll(1), roll(6)]);
    assert_eq!(result.total, Number::from_int(11));
    assert_eq!(result.modifier, Number::from_int(0));
    assert!(!result.is_pure_calculation);
    assert_eq!(result.result_expression, "3d6 [4, 1, 6]");
    // the same script from its start gives the same result
    let mut again = DiceSource::scripted(vec![4, 1, 6]).unwrap();
    assert_eq!(eval_with(die(3, 6), &mut again), Ok(result));
}

#[test]
fn scripted_dice_are_handed_out_from_left_to_right() {
    let mut dice = DiceSource::scripted(vec![1, 2, 3, 4, 5]).unwrap();
    let expr = Node::Add(
        Box::new(Node::Subtract(Box::new(die(2, 8)), Box::new(num(10)))),
        Box::new(die(3, 4)),
    );
    let result = eval_with(expr, &mut dice).unwrap();
    let values: Vec<(i128, i128)> = result.rolls.iter().map(|r| (r.sides, r.value)).collect();
    assert_eq!(values, vec![(8, 1), (8, 2), (4, 3), (4, 4), (4, 1)]);
    assert_eq!(result.total, Number::from_int(1 + 2 - 10 + 3 + 4 + 1));
    assert_eq!(result.result_expression, "2d8 [1, 2] - 10 + 3d4 [3, 4, 1]");
}

#[test]
fn dice_that_leave_the_range_overflow_after_every_other_failure() {
    let huge = || die(2, i128::MAX);
    let mut dice = DiceSource::scripted(vec![i128::MAX]).unwrap();
    assert_eq!(eval_with(huge(), &mut dice), Err(ParseError::NumberOverflow));
    let mut dice = DiceSource::scripted(vec![i128::MAX, 1]).unwrap();
    assert_eq!(eval_with(huge(), &mut dice), Err(ParseError::NumberOverflow));
    let mut dice = DiceSource::scripted(vec![i128::MAX - 1, 1]).unwrap();
    assert_eq!(eval_with(huge(), &mut dice).unwrap().total, Number::from_int(i128::MAX));
    // a failure that no die can change is reported first
    let mut dice = DiceSource::scripted(vec![i128::MAX]).unwrap();
    let zero = Node::Divide(Box::new(num(1)), Box::new(num(0)));
    let expr = Node::Add(Box::new(huge()), Box::new(zero));
    assert_eq!(eval_with(expr, &mut dice), Err(ParseError::DivisionByZero));
    // sums of dice results may leave the range too
    let mut dice = DiceSource::scripted(vec![i128::MAX]).unwrap();
    let expr = Node::Add(Box::new(die(1, i128::MAX)), Box::new(num(1)));
    assert_eq!(eval_with(expr, &mut dice), Err(ParseError::NumberOverflow));
}

#[test]
fn numbers_take_no_dice_from_the_script() {
    let mut dice = DiceSource::scripted(vec![2, 5]).unwrap();
    let expr = Node::Multiply(Box::new(num(6)), Box::new(num(7)));
    assert_eq!(eval_with(expr, &mut dice).unwrap().total, Number::from_int(42));
    assert!(eval_with(die(0, 6), &mut dice).unwrap().rolls.is_empty());
    assert_eq!(dice.draw(6).value, 2);
}

#[test]
fn fractional_powers_are_taken_where_they_are_exact() {
    let frac = |p, q| Node::Divide(Box::new(num(p)), Box::new(num(q)));
    let pow = |b, e| eval(Node::Caret(Box::new(b), Box::new(e)));
    let inexact = Err(ParseError::InvalidOperator(OperatorFault::NoExactPower));
    assert_eq!(pow(num(4), frac(1, 2)).unwrap().total, Number::from_int(2));
    assert_eq!(pow(num(8), frac(2, 3)).unwrap().total, Number::from_int(4));
    assert_eq!(pow(num(27), frac(1, 3)).unwrap().total, Number::from_int(3));
    assert_eq!(pow(frac(1, 4), frac(1, 2)).unwrap().total, Number::new(1, 2).unwrap());
    assert_eq!(pow(frac(9, 4), frac(3, 2)).unwrap().total, Number::new(27, 8).unwrap());
    assert_eq!(pow(num(4), frac(-1, 2)).unwrap().total, Number::new(1, 2).unwrap());
    assert_eq!(pow(frac(8, 27), frac(-2, 3)).unwrap().total, Number::new(9, 4).unwrap());
    assert_eq!(pow(num(0), frac(1, 2)).unwrap().total, Number::from_int(0));
    assert_eq!(pow(num(1), frac(5, 7)).unwrap().total, Number::from_int(1));
    assert_eq!(pow(num(1 << 126), frac(1, 2)).unwrap().total, Number::from_int(1 << 63));
    // a fraction that is a whole number is a whole exponent
    assert_eq!(pow(num(-2), frac(6, 2)).unwrap().total, Number::from_int(-8));
    // no rational root
    assert_eq!(pow(num(2), frac(1, 2)), inexact);
    assert_eq!(pow(num(8), frac(1, 2)), inexact);
    assert_eq!(pow(frac(4, 3), frac(1, 2)), inexact);
    assert_eq!(pow(num(i128::MAX), frac(1, 2)), inexact);
    assert_eq!(pow(num(4), frac(1, i128::MAX)), inexact);
    // no root of a negative number
    assert_eq!(pow(num(-8), frac(1, 3)), inexact);
    assert_eq!(pow(num(-4), frac(1, 2)), inexact);
    // zero to a negative power
    assert_eq!(pow(num(0), frac(-1, 2)), inexact);
    // the root is exact, its power too large
    assert_eq!(pow(num(4), frac(255, 2)), Err(ParseError::NumberOverflow));
    assert_eq!(pow(num(4), frac(1, 2)).unwrap().result_expression, "4^1 / 2");
}
