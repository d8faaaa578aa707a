//! The expression tree and its evaluation.

pub use super::dice::DieRoll;
use super::dice::{
    all_wf, lemma_sum_of_at_least_len, lemma_sum_of_at_most, push_rolls, roll_dice, rolls_text,
    sum_of, sum_rolls, DiceSource,
};
use super::number::{
    fits, gcd, lemma_multiple_has_no_remainder, magnitude, real_power, Number,
};
use super::parser::{OperatorFault, Operation, ParseError};
use super::powers::{
    is_fraction, is_power, is_whole, lemma_power_of_reciprocal, lemma_power_unique,
    lemma_real_power_sign, lemma_whole_power_of_power, real_to_power, whole_power,
};
use super::render::{decimal_text, number_text, push_decimal, push_number};
use vstd::prelude::*;
use vstd::string::StringExecFns;

verus! {

/// A dice expression. Every node owns its operands.
#[derive(Debug, PartialEq, Eq)]
pub enum Node {
    Add(Box<Node>, Box<Node>),
    Subtract(Box<Node>, Box<Node>),
    Multiply(Box<Node>, Box<Node>),
    Divide(Box<Node>, Box<Node>),
    Caret(Box<Node>, Box<Node>),
    Negative(Box<Node>),
    Die(Box<Node>, Box<Node>),
    Number(i128),
}

impl Clone for Node {
    fn clone(&self) -> (res: Node)
        ensures
            res == *self,
        decreases self,
    {
        match self {
            Node::Add(l, r) => Node::Add(Box::new((&**l).clone()), Box::new((&**r).clone())),
            Node::Subtract(l, r) => Node::Subtract(
                Box::new((&**l).clone()),
                Box::new((&**r).clone()),
            ),
            Node::Multiply(l, r) => Node::Multiply(
                Box::new((&**l).clone()),
                Box::new((&**r).clone()),
            ),
            Node::Divide(l, r) => Node::Divide(
                Box::new((&**l).clone()),
                Box::new((&**r).clone()),
            ),
            Node::Caret(l, r) => Node::Caret(Box::new((&**l).clone()), Box::new((&**r).clone())),
            Node::Negative(operand) => Node::Negative(Box::new((&**operand).clone())),
            Node::Die(l, r) => Node::Die(Box::new((&**l).clone()), Box::new((&**r).clone())),
            Node::Number(n) => Node::Number(*n),
        }
    }
}

/// What evaluating an expression came to.
#[derive(Clone, Debug, PartialEq, Eq)]
pub struct RollResult {
    /// Every die rolled, in the order of rolling.
    pub rolls: Vec<DieRoll>,
    /// The value of the whole expression.
    pub total: Number,
    /// A constant to show behind the dice when the result is formatted.
    pub modifier: Number,
    /// Whether no dice were involved.
    pub is_pure_calculation: bool,
    /// The expression with every dice roll replaced by what was rolled.
    pub result_expression: String,
}

/// What `eval` gives where it succeeds.
pub type EvalResult = RollResult;

/// A `RollResult` as plain values.
pub struct Outcome {
    pub rolls: Seq<DieRoll>,
    pub total: Number,
    pub modifier: Number,
    pub is_pure_calculation: bool,
    pub result_expression: Seq<char>,
}

impl View for RollResult {
    type V = Outcome;

    open spec fn view(&self) -> Outcome {
        Outcome {
            rolls: self.rolls@,
            total: self.total,
            modifier: self.modifier,
            is_pure_calculation: self.is_pure_calculation,
            result_expression: self.result_expression@,
        }
    }
}

/// The part of an evaluation that no die can change: `Ok(Some(v))` for an
/// expression without dice whose value is `v`, `Ok(None)` for one that rolls
/// dice, and `Err(e)` for one whose evaluation fails with `e`.
///
/// Operands are looked at from left to right, and an operand's failure comes
/// before a failure of the operation itself. An operation on numbers fails
/// where an operand rolls dice, and a division where the divisor is zero;
/// beyond that a step fails only where its exact result cannot be held
/// (`NumberOverflow`) or does not exist (`NoExactPower`).
pub open spec fn fixed_value(expr: Node) -> Result<Option<Number>, ParseError>
    decreases expr,
{
    match expr {
        Node::Number(n) => Ok(Some(Number::whole(n as int))),
        Node::Negative(operand) => match fixed_value(*operand) {
            Err(e) => Err(e),
            Ok(None) => Err(dice_operand(Operation::Negate)),
            Ok(Some(v)) => computed(Number::negation(v)),
        },
        Node::Add(l, r) => match operands(fixed_value(*l), fixed_value(*r)) {
            Err(e) => Err(e),
            Ok(None) => Ok(None),
            Ok(Some((a, b))) => computed(Number::sum(a, b)),
        },
        Node::Subtract(l, r) => match operands(fixed_value(*l), fixed_value(*r)) {
            Err(e) => Err(e),
            Ok(None) => Ok(None),
            Ok(Some((a, b))) => computed(Number::difference(a, b)),
        },
        Node::Multiply(l, r) => match operands(fixed_value(*l), fixed_value(*r)) {
            Err(e) => Err(e),
            Ok(None) => Err(dice_operand(Operation::Multiply)),
            Ok(Some((a, b))) => computed(Number::product(a, b)),
        },
        Node::Divide(l, r) => match operands(fixed_value(*l), fixed_value(*r)) {
            Err(e) => Err(e),
            Ok(None) => Err(dice_operand(Operation::Divide)),
            Ok(Some((a, b))) => if b.numer() == 0 {
                Err(ParseError::DivisionByZero)
            } else {
                computed(Number::quotient(a, b))
            },
        },
        Node::Caret(l, r) => match operands(fixed_value(*l), fixed_value(*r)) {
            Err(e) => Err(e),
            Ok(None) => Err(dice_operand(Operation::Power)),
            Ok(Some((a, b))) => raised_to(a, b),
        },
        Node::Die(l, r) => match operands(fixed_value(*l), fixed_value(*r)) {
            Err(e) => Err(e),
            Ok(None) => Err(dice_operand(Operation::DieRoll)),
            Ok(Some(_)) => Ok(None),
        },
    }
}

/// `a` to the power `b`, where `b` is `p / q` in lowest terms: the root of
/// `a` for the exponent `q`, raised to the power `p`.
///
/// There is no exact power where zero is raised to a negative power, and
/// where a fraction as exponent asks for a root that is no rational number
/// or for the root of a negative number.
pub open spec fn raised_to(a: Number, b: Number) -> Result<Option<Number>, ParseError> {
    if a.numer() == 0 && b.numer() < 0 {
        Err(ParseError::InvalidOperator(OperatorFault::NoExactPower))
    } else if b.denom() == 1 {
        computed(Number::power(a, b.numer()))
    } else {
        match Number::root_of(a, b.denom()) {
            None => Err(ParseError::InvalidOperator(OperatorFault::NoExactPower)),
            Some(root) => computed(Number::power(root, b.numer())),
        }
    }
}

/// The error for an operation that was handed the outcome of a dice roll.
pub open spec fn dice_operand(operation: Operation) -> ParseError {
    ParseError::InvalidOperator(OperatorFault::DiceOperand(operation))
}

/// Two operands together: the first failure if there is one, both values if
/// both are free of dice, and `None` if either rolls dice.
pub open spec fn operands(
    left: Result<Option<Number>, ParseError>,
    right: Result<Option<Number>, ParseError>,
) -> Result<Option<(Number, Number)>, ParseError> {
    match left {
        Err(e) => Err(e),
        Ok(a) => match right {
            Err(e) => Err(e),
            Ok(b) => match (a, b) {
                (Some(x), Some(y)) => Ok(Some((x, y))),
                _ => Ok(None),
            },
        },
    }
}

/// The result of an arithmetic step on numbers: the number, or an overflow.
pub open spec fn computed(result: Option<Number>) -> Result<Option<Number>, ParseError> {
    match result {
        Some(v) => Ok(Some(v)),
        None => Err(ParseError::NumberOverflow),
    }
}

/// How many dice a roll of `count` dice with `sides` sides takes: none if
/// either number is zero or less.
pub open spec fn dice_taken(count: int, sides: int) -> nat {
    if count <= 0 || sides <= 0 {
        0
    } else {
        count as nat
    }
}

/// The dice that evaluating `expr` rolls, each given by its number of sides,
/// in the order of rolling.
pub open spec fn dice_sides(expr: Node) -> Seq<i128>
    decreases expr,
{
    match expr {
        Node::Add(l, r) | Node::Subtract(l, r) => dice_sides(*l) + dice_sides(*r),
        Node::Die(l, r) => match operands(fixed_value(*l), fixed_value(*r)) {
            Ok(Some((a, b))) => Seq::new(
                dice_taken(a.trunc_spec(), b.trunc_spec()),
                |i: int| b.trunc_spec() as i128,
            ),
            _ => Seq::empty(),
        },
        _ => Seq::empty(),
    }
}

/// Whether `rolls` can be what evaluating `expr` rolled: one record for each
/// die, with that die's sides and a value that it can show.
pub open spec fn rolled_by(expr: Node, rolls: Seq<DieRoll>) -> bool {
    &&& rolls.len() == dice_sides(expr).len()
    &&& forall|i: int|
        0 <= i < rolls.len() ==> (#[trigger] rolls[i]).sides == dice_sides(expr)[i] && rolls[i].wf()
}

/// The total of `expr` when its dice fell as `rolls` say, or `None` where
/// that total, or a sum or difference on the way to it, cannot be held.
pub open spec fn total_with(expr: Node, rolls: Seq<DieRoll>) -> Option<Number>
    decreases expr,
{
    match expr {
        Node::Add(l, r) => {
            let k = dice_sides(*l).len() as int;
            match (total_with(*l, rolls.take(k)), total_with(*r, rolls.skip(k))) {
                (Some(a), Some(b)) => Number::sum(a, b),
                _ => None,
            }
        },
        Node::Subtract(l, r) => {
            let k = dice_sides(*l).len() as int;
            match (total_with(*l, rolls.take(k)), total_with(*r, rolls.skip(k))) {
                (Some(a), Some(b)) => Number::difference(a, b),
                _ => None,
            }
        },
        Node::Die(_, _) => if fits(sum_of(rolls)) {
            Some(Number::whole(sum_of(rolls)))
        } else {
            None
        },
        _ => match fixed_value(expr) {
            Ok(Some(v)) => Some(v),
            _ => None,
        },
    }
}

/// Two operands as text with the operator's symbol between them.
pub open spec fn binary_text(left: Seq<char>, symbol: Seq<char>, right: Seq<char>) -> Seq<char> {
    left + symbol + right
}

/// What a roll of dice reads as: `0` where no die was rolled, and else the
/// rolls grouped by kind of dice.
pub open spec fn dice_text(rolls: Seq<DieRoll>) -> Seq<char> {
    if rolls.len() == 0 {
        seq!['0']
    } else {
        rolls_text(rolls)
    }
}

/// The expression as text when its dice fell as `rolls` say: numbers in
/// decimal, operators as they are written, every dice roll by what was
/// rolled.
pub open spec fn text_with(expr: Node, rolls: Seq<DieRoll>) -> Seq<char>
    decreases expr,
{
    match expr {
        Node::Number(n) => decimal_text(n as int),
        Node::Negative(operand) => seq!['-'] + text_with(*operand, rolls),
        Node::Die(_, _) => dice_text(rolls),
        Node::Add(l, r) => {
            let k = dice_sides(*l).len() as int;
            binary_text(
                text_with(*l, rolls.take(k)),
                seq![' ', '+', ' '],
                text_with(*r, rolls.skip(k)),
            )
        },
        Node::Subtract(l, r) => {
            let k = dice_sides(*l).len() as int;
            binary_text(
                text_with(*l, rolls.take(k)),
                seq![' ', '-', ' '],
                text_with(*r, rolls.skip(k)),
            )
        },
        Node::Multiply(l, r) => {
            let k = dice_sides(*l).len() as int;
            binary_text(
                text_with(*l, rolls.take(k)),
                seq![' ', '*', ' '],
                text_with(*r, rolls.skip(k)),
            )
        },
        Node::Divide(l, r) => {
            let k = dice_sides(*l).len() as int;
            binary_text(
                text_with(*l, rolls.take(k)),
                seq![' ', '/', ' '],
                text_with(*r, rolls.skip(k)),
            )
        },
        Node::Caret(l, r) => {
            let k = dice_sides(*l).len() as int;
            binary_text(text_with(*l, rolls.take(k)), seq!['^'], text_with(*r, rolls.skip(k)))
        },
    }
}

/// An expression without dice rolls none, and its total is its value
/// whatever rolls it is given.
pub proof fn lemma_fixed_total(expr: Node, rolls: Seq<DieRoll>)
    ensures
        fixed_value(expr) matches Ok(Some(v)) ==> dice_sides(expr).len() == 0 && total_with(
            expr,
            rolls,
        ) == Some(v),
    decreases expr,
{
    match expr {
        Node::Add(l, r) | Node::Subtract(l, r) => {
            let k = dice_sides(*l).len() as int;
            lemma_fixed_total(*l, rolls.take(k));
            lemma_fixed_total(*r, rolls.skip(k));
        },
        _ => {},
    }
}

impl RollResult {
    /// Whether `self` is what evaluating `expr` comes to when its dice fall
    /// as `self.rolls` say.
    pub open spec fn describes(&self, expr: Node) -> bool {
        &&& rolled_by(expr, self.rolls@)
        &&& total_with(expr, self.rolls@) == Some(self.total)
        &&& self.modifier == Number::whole(0)
        &&& self.is_pure_calculation == (fixed_value(expr) matches Ok(Some(_)))
        &&& self.result_expression@ == text_with(expr, self.rolls@)
    }
}

/// Whether the dice of `expr` can fall so that its total, or a sum or
/// difference on the way to it, leaves the range of numbers.
pub open spec fn can_overflow(expr: Node) -> bool {
    exists|rolls: Seq<DieRoll>| #[trigger] rolled_by(expr, rolls) && total_with(expr, rolls) is None
}

/// Whether `res` can be what evaluating `expr` gives.
///
/// An expression that fails whatever its dice show gives the error that
/// `fixed_value` names. Any other expression gives a result that
/// `describes` it; only where its dice can fall so that a total leaves the
/// range of numbers may it give `NumberOverflow` instead.
///
/// Two of the errors are limits of exact arithmetic and no fault of the
/// expression: `NumberOverflow`, where a numerator or denominator leaves the
/// range of `i128`, and `NoExactPower`, where a power has no value that is
/// a rational number. Every other failure breaks a rule: see
/// `lemma_failure_breaks_rule` and `lemma_broken_rule_fails`.
pub open spec fn evaluated(expr: Node, res: Result<RollResult, ParseError>) -> bool {
    match fixed_value(expr) {
        Err(e) => res matches Err(found) && found == e,
        Ok(_) => match res {
            Ok(result) => result.describes(expr),
            Err(e) => e == ParseError::NumberOverflow && can_overflow(expr),
        },
    }
}

/// An evaluation on its way: as a `RollResult`, but with a total that may
/// have left the range of numbers.
struct Partial {
    rolls: Vec<DieRoll>,
    total: Option<Number>,
    is_pure: bool,
    text: String,
}

impl Partial {
    spec fn tallies(&self, expr: Node) -> bool {
        &&& rolled_by(expr, self.rolls@)
        &&& self.total == total_with(expr, self.rolls@)
        &&& self.is_pure == (fixed_value(expr) matches Ok(Some(_)))
        &&& self.text@ == text_with(expr, self.rolls@)
    }

    /// Whether `res` is what evaluating `expr` must give with dice from a
    /// source that was `before` and is `after`.
    spec fn expected(
        res: Result<Partial, ParseError>,
        expr: Node,
        before: &DiceSource,
        after: &DiceSource,
    ) -> bool {
        &&& after.script() == before.script()
        &&& match fixed_value(expr) {
            Err(e) => res matches Err(found) && found == e,
            Ok(_) => res matches Ok(partial) && partial.tallies(expr) && after.served(
                before,
                partial.rolls@,
            ),
        }
    }
}

/// What the rolls of one dice expression come to.
fn dice_partial(rolls: Vec<DieRoll>) -> (partial: Partial)
    requires
        all_wf(rolls@),
    ensures
        partial.rolls@ == rolls@,
        partial.total == if fits(sum_of(rolls@)) {
            Some(Number::whole(sum_of(rolls@)))
        } else {
            None
        },
        !partial.is_pure,
        partial.text@ == dice_text(rolls@),
{
    let total = match sum_rolls(&rolls) {
        None => None,
        Some(sum) => Some(Number::from_int(sum)),
    };
    let mut text = String::new();
    if rolls.len() == 0 {
        proof {
            reveal_strlit("0");
        }
        text.append("0");
        assert(text@ =~= seq!['0']);
    } else {
        push_rolls(&mut text, &rolls);
        assert(text@ =~= rolls_text(rolls@));
    }
    Partial { rolls, total, is_pure: false, text }
}

/// Both operands of a binary operation, evaluated from left to right and
/// put together: the rolls of both, and the text with `symbol` between.
fn join(lhs: Partial, rhs: Partial, symbol: &str, total: Option<Number>, is_pure: bool) -> (joined:
    Partial)
    ensures
        joined.rolls@ == lhs.rolls@ + rhs.rolls@,
        joined.total == total,
        joined.is_pure == is_pure,
        joined.text@ == binary_text(lhs.text@, symbol@, rhs.text@),
{
    let mut rolls = lhs.rolls;
    let mut more = rhs.rolls;
    rolls.append(&mut more);
    let mut text = lhs.text;
    text.append(symbol);
    text.append(rhs.text.as_str());
    Partial { rolls, total, is_pure, text }
}

/// The rolls of two operands, one after the other, are rolls of the
/// operation, and split again where the left operand's end.
proof fn lemma_joined_rolls(l: Node, r: Node, left: Seq<DieRoll>, right: Seq<DieRoll>)
    requires
        rolled_by(l, left),
        rolled_by(r, right),
    ensures
        (left + right).take(dice_sides(l).len() as int) == left,
        (left + right).skip(dice_sides(l).len() as int) == right,
        (left + right).len() == dice_sides(l).len() + dice_sides(r).len(),
        forall|i: int|
            0 <= i < (left + right).len() ==> (#[trigger] (left + right)[i]).sides == (dice_sides(l)
                + dice_sides(r))[i] && (left + right)[i].wf(),
{
    let k = dice_sides(l).len() as int;
    assert((left + right).take(k) =~= left);
    assert((left + right).skip(k) =~= right);
    assert forall|i: int| 0 <= i < (left + right).len() implies (#[trigger] (left + right)[i]).sides
        == (dice_sides(l) + dice_sides(r))[i] && (left + right)[i].wf() by {
        if i < k {
            assert((left + right)[i] == left[i]);
        } else {
            assert((left + right)[i] == right[i - k]);
        }
    }
}

/// The number of nodes of an expression.
pub open spec fn size(expr: Node) -> nat
    decreases expr,
{
    match expr {
        Node::Number(_) => 1,
        Node::Negative(operand) => 1 + size(*operand),
        Node::Add(l, r)
        | Node::Subtract(l, r)
        | Node::Multiply(l, r)
        | Node::Divide(l, r)
        | Node::Caret(l, r)
        | Node::Die(l, r) => 1 + size(*l) + size(*r),
    }
}

/// Evaluates both operands, the left one first.
fn eval_operands(l: Node, r: Node, dice: &mut DiceSource) -> (res: Result<
    (Partial, Partial),
    ParseError,
>)
    ensures
        final(dice).script() == old(dice).script(),
        match operands(fixed_value(l), fixed_value(r)) {
            Err(e) => res matches Err(found) && found == e,
            Ok(_) => res matches Ok((lhs, rhs)) && lhs.tallies(l) && rhs.tallies(r)
                && final(dice).served(old(dice), lhs.rolls@ + rhs.rolls@),
        },
    decreases size(l) + size(r), 0int,
{
    let lhs = match eval_node(l, dice) {
        Err(e) => { return Err(e); },
        Ok(partial) => partial,
    };
    let ghost between = *dice;
    let rhs = match eval_node(r, dice) {
        Err(e) => { return Err(e); },
        Ok(partial) => partial,
    };
    proof {
        dice.lemma_served_in_turn(old(dice), &between, lhs.rolls@, rhs.rolls@);
    }
    Ok((lhs, rhs))
}

fn eval_number(i: i128, dice: &DiceSource) -> (res: Result<Partial, ParseError>)
    ensures
        Partial::expected(res, Node::Number(i), dice, dice),
{
    proof {
        use_type_invariant(dice);
        dice.lemma_served_nothing();
    }
    let mut text = String::new();
    push_decimal(&mut text, i);
    assert(text@ =~= decimal_text(i as int));
    Ok(Partial { rolls: Vec::new(), total: Some(Number::from_int(i)), is_pure: true, text })
}

fn eval_add(l: Node, r: Node, dice: &mut DiceSource) -> (res: Result<Partial, ParseError>)
    ensures
        Partial::expected(
            res,
            Node::Add(Box::new(l), Box::new(r)),
            old(dice),
            final(dice),
        ),
    decreases size(l) + size(r), 1int,
{
    let (lhs, rhs) = match eval_operands(l, r, dice) {
        Err(e) => { return Err(e); },
        Ok(pair) => pair,
    };
    let total = match (lhs.total, rhs.total) {
        (Some(a), Some(b)) => a.add(&b),
        _ => None,
    };
    let is_pure = lhs.is_pure && rhs.is_pure;
    proof {
        reveal_strlit(" + ");
        assert(" + "@ =~= seq![' ', '+', ' ']);
        lemma_joined_rolls(l, r, lhs.rolls@, rhs.rolls@);
        lemma_fixed_total(l, lhs.rolls@);
        lemma_fixed_total(r, rhs.rolls@);
    }
    if is_pure && total.is_none() {
        return Err(ParseError::NumberOverflow);
    }
    Ok(join(lhs, rhs, " + ", total, is_pure))
}

fn eval_subtract(l: Node, r: Node, dice: &mut DiceSource) -> (res: Result<Partial, ParseError>)
    ensures
        Partial::expected(
            res,
            Node::Subtract(Box::new(l), Box::new(r)),
            old(dice),
            final(dice),
        ),
    decreases size(l) + size(r), 1int,
{
    let (lhs, rhs) = match eval_operands(l, r, dice) {
        Err(e) => { return Err(e); },
        Ok(pair) => pair,
    };
    let total = match (lhs.total, rhs.total) {
        (Some(a), Some(b)) => a.sub(&b),
        _ => None,
    };
    let is_pure = lhs.is_pure && rhs.is_pure;
    proof {
        reveal_strlit(" - ");
        assert(" - "@ =~= seq![' ', '-', ' ']);
        lemma_joined_rolls(l, r, lhs.rolls@, rhs.rolls@);
        lemma_fixed_total(l, lhs.rolls@);
        lemma_fixed_total(r, rhs.rolls@);
    }
    if is_pure && total.is_none() {
        return Err(ParseError::NumberOverflow);
    }
    Ok(join(lhs, rhs, " - ", total, is_pure))
}

fn eval_multiply(l: Node, r: Node, dice: &mut DiceSource) -> (res: Result<Partial, ParseError>)
    ensures
        Partial::expected(
            res,
            Node::Multiply(Box::new(l), Box::new(r)),
            old(dice),
            final(dice),
        ),
    decreases size(l) + size(r), 1int,
{
    let (lhs, rhs) = match eval_operands(l, r, dice) {
        Err(e) => { return Err(e); },
        Ok(pair) => pair,
    };
    if !lhs.is_pure || !rhs.is_pure {
        return Err(ParseError::InvalidOperator(OperatorFault::DiceOperand(Operation::Multiply)));
    }
    proof {
        reveal_strlit(" * ");
        assert(" * "@ =~= seq![' ', '*', ' ']);
        lemma_joined_rolls(l, r, lhs.rolls@, rhs.rolls@);
        lemma_fixed_total(l, lhs.rolls@);
        lemma_fixed_total(r, rhs.rolls@);
    }
    match lhs.total.unwrap().mul(&rhs.total.unwrap()) {
        None => Err(ParseError::NumberOverflow),
        Some(total) => Ok(join(lhs, rhs, " * ", Some(total), true)),
    }
}

fn eval_divide(l: Node, r: Node, dice: &mut DiceSource) -> (res: Result<Partial, ParseError>)
    ensures
        Partial::expected(
            res,
            Node::Divide(Box::new(l), Box::new(r)),
            old(dice),
            final(dice),
        ),
    decreases size(l) + size(r), 1int,
{
    let (lhs, rhs) = match eval_operands(l, r, dice) {
        Err(e) => { return Err(e); },
        Ok(pair) => pair,
    };
    if !lhs.is_pure || !rhs.is_pure {
        return Err(ParseError::InvalidOperator(OperatorFault::DiceOperand(Operation::Divide)));
    }
    proof {
        reveal_strlit(" / ");
        assert(" / "@ =~= seq![' ', '/', ' ']);
        lemma_joined_rolls(l, r, lhs.rolls@, rhs.rolls@);
        lemma_fixed_total(l, lhs.rolls@);
        lemma_fixed_total(r, rhs.rolls@);
    }
    let divisor = rhs.total.unwrap();
    if divisor.is_zero() {
        return Err(ParseError::DivisionByZero);
    }
    match lhs.total.unwrap().div(&divisor) {
        None => Err(ParseError::NumberOverflow),
        Some(total) => Ok(join(lhs, rhs, " / ", Some(total), true)),
    }
}

fn eval_negative(operand: Node, dice: &mut DiceSource) -> (res: Result<Partial, ParseError>)
    ensures
        Partial::expected(res, Node::Negative(Box::new(operand)), old(dice), final(dice)),
    decreases size(operand), 2int,
{
    let value = match eval_node(operand, dice) {
        Err(e) => { return Err(e); },
        Ok(partial) => partial,
    };
    if !value.is_pure {
        return Err(ParseError::InvalidOperator(OperatorFault::DiceOperand(Operation::Negate)));
    }
    proof {
        reveal_strlit("-");
        lemma_fixed_total(operand, value.rolls@);
    }
    match value.total.unwrap().neg() {
        None => Err(ParseError::NumberOverflow),
        Some(total) => {
            let mut text = String::new();
            text.append("-");
            text.append(value.text.as_str());
            assert(text@ =~= seq!['-'] + value.text@);
            Ok(Partial { rolls: value.rolls, total: Some(total), is_pure: true, text })
        },
    }
}

fn eval_caret(l: Node, r: Node, dice: &mut DiceSource) -> (res: Result<Partial, ParseError>)
    ensures
        Partial::expected(
            res,
            Node::Caret(Box::new(l), Box::new(r)),
            old(dice),
            final(dice),
        ),
    decreases size(l) + size(r), 1int,
{
    let (lhs, rhs) = match eval_operands(l, r, dice) {
        Err(e) => { return Err(e); },
        Ok(pair) => pair,
    };
    if !lhs.is_pure || !rhs.is_pure {
        return Err(ParseError::InvalidOperator(OperatorFault::DiceOperand(Operation::Power)));
    }
    proof {
        reveal_strlit("^");
        assert("^"@ =~= seq!['^']);
        lemma_joined_rolls(l, r, lhs.rolls@, rhs.rolls@);
        lemma_fixed_total(l, lhs.rolls@);
        lemma_fixed_total(r, rhs.rolls@);
    }
    let base = lhs.total.unwrap();
    let exponent = rhs.total.unwrap();
    if base.is_zero() && exponent.numerator() < 0 {
        return Err(ParseError::InvalidOperator(OperatorFault::NoExactPower));
    }
    let root = if exponent.is_integer() {
        base
    } else {
        match base.root(exponent.denominator()) {
            None => {
                return Err(ParseError::InvalidOperator(OperatorFault::NoExactPower));
            },
            Some(root) => root,
        }
    };
    match root.pow(exponent.numerator()) {
        None => Err(ParseError::NumberOverflow),
        Some(total) => Ok(join(lhs, rhs, "^", Some(total), true)),
    }
}

fn eval_die(l: Node, r: Node, dice: &mut DiceSource) -> (res: Result<Partial, ParseError>)
    ensures
        Partial::expected(
            res,
            Node::Die(Box::new(l), Box::new(r)),
            old(dice),
            final(dice),
        ),
    decreases size(l) + size(r), 1int,
{
    let (num_rolls, num_sides) = match eval_operands(l, r, dice) {
        Err(e) => { return Err(e); },
        Ok(pair) => pair,
    };
    if !num_rolls.is_pure || !num_sides.is_pure {
        return Err(ParseError::InvalidOperator(OperatorFault::DiceOperand(Operation::DieRoll)));
    }
    proof {
        lemma_fixed_total(l, num_rolls.rolls@);
        lemma_fixed_total(r, num_sides.rolls@);
    }
    let rolls_count = num_rolls.total.unwrap().trunc();
    let sides = num_sides.total.unwrap().trunc();
    let ghost between = *dice;
    let rolls = if rolls_count <= 0 || sides <= 0 {
        proof {
            use_type_invariant(&*dice);
            dice.lemma_served_nothing();
        }
        Vec::new()
    } else {
        roll_dice(dice, rolls_count, sides)
    };
    proof {
        dice.lemma_served_in_turn(
            old(dice),
            &between,
            num_rolls.rolls@ + num_sides.rolls@,
            rolls@,
        );
        assert(num_rolls.rolls@ + num_sides.rolls@ + rolls@ =~= rolls@);
    }
    Ok(dice_partial(rolls))
}

/// Evaluates `expr`, children before parents. Dice are rolled as their
/// nodes are reached.
fn eval_node(expr: Node, dice: &mut DiceSource) -> (res: Result<Partial, ParseError>)
    ensures
        Partial::expected(res, expr, old(dice), final(dice)),
    decreases size(expr), 0int,
{
    match expr {
        Node::Number(i) => eval_number(i, dice),
        Node::Add(expr1, expr2) => eval_add(*expr1, *expr2, dice),
        Node::Subtract(expr1, expr2) => eval_subtract(*expr1, *expr2, dice),
        Node::Multiply(expr1, expr2) => eval_multiply(*expr1, *expr2, dice),
        Node::Divide(expr1, expr2) => eval_divide(*expr1, *expr2, dice),
        Node::Negative(expr1) => eval_negative(*expr1, dice),
        Node::Caret(expr1, expr2) => eval_caret(*expr1, *expr2, dice),
        Node::Die(expr1, expr2) => eval_die(*expr1, *expr2, dice),
    }
}

/// Whether `res` is what evaluating `expr` gives with dice from a source
/// with a script that was `before`: the result that `describes` it with the
/// rolls that the script hands out, or `NumberOverflow` where these make a
/// total leave the range of numbers.
pub open spec fn replayed(
    expr: Node,
    before: &DiceSource,
    res: Result<RollResult, ParseError>,
) -> bool {
    let rolls = before.scripted_rolls(dice_sides(expr));
    match total_with(expr, rolls) {
        Some(_) => res matches Ok(result) && result.rolls@ == rolls,
        None => res matches Err(e) && e == ParseError::NumberOverflow,
    }
}

/// Evaluates an expression, children before parents, and rolls its dice
/// with values from `dice`.
///
/// With a source that has a script the result is a function of expression
/// and script.
pub fn eval_with(expr: Node, dice: &mut DiceSource) -> (res: Result<RollResult, ParseError>)
    ensures
        evaluated(expr, res),
        final(dice).script() == old(dice).script(),
        res matches Ok(result) ==> final(dice).served(old(dice), result.rolls@),
        !old(dice).is_random() && fixed_value(expr) is Ok ==> replayed(expr, old(dice), res),
{
    match eval_node(expr, dice) {
        Err(e) => Err(e),
        Ok(partial) => {
            proof {
                if partial.total is None {
                    assert(rolled_by(expr, partial.rolls@));
                }
                if !old(dice).is_random() {
                    assert(partial.rolls@ =~= old(dice).scripted_rolls(dice_sides(expr)));
                }
            }
            match partial.total {
                None => Err(ParseError::NumberOverflow),
                Some(total) => Ok(
                    RollResult {
                        rolls: partial.rolls,
                        total,
                        modifier: Number::from_int(0),
                        is_pure_calculation: partial.is_pure,
                        result_expression: partial.text,
                    },
                ),
            }
        },
    }
}

/// Evaluates an expression, children before parents, and rolls its dice
/// with values from the operating system's random source.
pub fn eval(expr: Node) -> (res: Result<RollResult, ParseError>)
    ensures
        evaluated(expr, res),
{
    let mut dice = DiceSource::random();
    eval_with(expr, &mut dice)
}

impl Outcome {
    /// The result for display: the total where no dice were involved, and
    /// else the rolls grouped by kind of dice, with the modifier behind them
    /// where it is not zero.
    pub open spec fn formatted(self) -> Seq<char> {
        if self.is_pure_calculation {
            number_text(self.total)
        } else if self.modifier.numer() != 0 {
            rolls_text(self.rolls) + seq![' ', '+', ' '] + number_text(self.modifier)
        } else {
            rolls_text(self.rolls)
        }
    }
}

impl RollResult {
    /// The result for display, as in `3d6 [4, 1, 6] + 2`: the rolls grouped
    /// by kind of dice, and the modifier where there is one. A result
    /// without dice shows its total.
    pub fn format_dice_rolls(&self) -> (text: String)
        ensures
            text@ == self@.formatted(),
    {
        let mut text = String::new();
        if self.is_pure_calculation {
            push_number(&mut text, &self.total);
            assert(text@ =~= self@.formatted());
        } else {
            push_rolls(&mut text, &self.rolls);
            if !self.modifier.is_zero() {
                proof {
                    reveal_strlit(" + ");
                }
                text.append(" + ");
                push_number(&mut text, &self.modifier);
                assert(" + "@ =~= seq![' ', '+', ' ']);
            }
            assert(text@ =~= self@.formatted());
        }
        text
    }

    /// The expression as it was evaluated: `self.result_expression`.
    pub fn to_string(&self) -> (text: String)
        ensures
            text@ == self.result_expression@,
    {
        self.result_expression.clone()
    }
}

/// The value of an expression without dice as a real number: what its
/// arithmetic means, with no regard to how numbers are held.
pub open spec fn real_value(expr: Node) -> real
    decreases expr,
{
    match expr {
        Node::Number(n) => n as real,
        Node::Negative(operand) => -real_value(*operand),
        Node::Add(l, r) => real_value(*l) + real_value(*r),
        Node::Subtract(l, r) => real_value(*l) - real_value(*r),
        Node::Multiply(l, r) => real_value(*l) * real_value(*r),
        Node::Divide(l, r) => real_value(*l) / real_value(*r),
        Node::Caret(l, r) => real_to_power(real_value(*l), real_value(*r)),
        Node::Die(_, _) => 0real,
    }
}

/// A number in lowest terms with a denominator above 1 is no whole number.
pub proof fn lemma_fraction_is_not_whole(b: Number)
    requires
        b.wf(),
        b.denom() != 1,
    ensures
        !is_whole(b@),
{
    let (p, q) = (b.numer(), b.denom());
    if is_whole(b@) {
        let k = b@.floor();
        assert(p == q * k) by (nonlinear_arith)
            requires
                q > 0,
                p as real / q as real == k as real,
        ;
        let m = magnitude(p);
        let km = if k < 0 {
            -k
        } else {
            k
        };
        assert(m == q * km) by (nonlinear_arith)
            requires
                p == q * k,
                q > 0,
                m == if p < 0 {
                    -p
                } else {
                    p
                },
                km == if k < 0 {
                    -k
                } else {
                    k
                },
        ;
        lemma_multiple_has_no_remainder(q, km);
        assert(m % (q as nat) == 0);
        assert(gcd(m, q as nat) == gcd(q as nat, m % (q as nat)));
        assert(gcd(q as nat, 0) == q);
    }
}

/// A power that is computed is exact: as a real number it is the power of
/// the base to the exponent.
pub proof fn lemma_raised_to_is_exact(a: Number, b: Number)
    requires
        a.wf(),
        b.wf(),
    ensures
        raised_to(a, b) matches Ok(Some(v)) ==> v.wf() && v@ == real_to_power(a@, b@),
{
    let (p, q) = (b.numer(), b.denom());
    Number::lemma_power(a, p);
    if let Ok(Some(v)) = raised_to(a, b) {
        if q == 1 {
            assert((p as real / 1int as real).floor() == p && p as real / 1int as real == p as real)
                by (nonlinear_arith);
            if p < 0 {
                lemma_power_of_reciprocal(a@, (-p) as nat);
            }
        } else {
            lemma_fraction_is_not_whole(b);
            Number::lemma_root(a, q);
            let root = Number::root_of(a, q)->0;
            let x = root@;
            Number::lemma_power(root, p);
            lemma_real_power_sign(x, q as nat);
            assert(a@ >= 0real) by (nonlinear_arith)
                requires
                    a.numer() >= 0,
                    a.denom() > 0,
                    a@ == a.numer() as real / a.denom() as real,
            ;
            if p < 0 {
                lemma_power_of_reciprocal(x, (-p) as nat);
                lemma_real_power_sign(x, (-p) as nat);
                let low = real_power(x, (-p) as nat);
                assert(1real / low >= 0real) by (nonlinear_arith)
                    requires
                        low > 0real,
                ;
            } else {
                lemma_real_power_sign(x, p as nat);
            }
            assert(v@ == whole_power(x, p));
            // (x^p)^q == x^(p*q) == x^(q*p) == (x^q)^p == a^p
            lemma_whole_power_of_power(x, p, q);
            lemma_whole_power_of_power(x, q, p);
            assert(p * q == q * p) by (nonlinear_arith);
            assert(real_power(v@, q as nat) == whole_power(a@, p));
            assert(is_fraction(b@, p, q));
            assert(is_power(a@, b@, v@));
            if p == 0 {
                Number::lemma_zero(b);
            }
            assert(b@ > 0real || a@ > 0real) by (nonlinear_arith)
                requires
                    q > 0,
                    a.denom() > 0,
                    a.numer() >= 0,
                    a.numer() != 0 || p > 0,
                    b@ == p as real / q as real,
                    a@ == a.numer() as real / a.denom() as real,
            ;
            let chosen = choose|y: real| is_power(a@, b@, y);
            lemma_power_unique(a@, b@, v@, chosen);
        }
    }
}

/// The value of an expression without dice is exact: as a real number it is
/// what the arithmetic of the expression means.
pub proof fn lemma_value_is_exact(expr: Node)
    ensures
        fixed_value(expr) matches Ok(Some(v)) ==> v.wf() && v@ == real_value(expr),
    decreases expr,
{
    match expr {
        Node::Number(n) => {
            Number::lemma_whole(n as int);
        },
        Node::Negative(operand) => {
            lemma_value_is_exact(*operand);
            if let Ok(Some(v)) = fixed_value(*operand) {
                Number::lemma_negation(v);
            }
        },
        Node::Add(l, r) => {
            lemma_value_is_exact(*l);
            lemma_value_is_exact(*r);
            if let Ok(Some((a, b))) = operands(fixed_value(*l), fixed_value(*r)) {
                Number::lemma_sum(a, b);
            }
        },
        Node::Subtract(l, r) => {
            lemma_value_is_exact(*l);
            lemma_value_is_exact(*r);
            if let Ok(Some((a, b))) = operands(fixed_value(*l), fixed_value(*r)) {
                Number::lemma_difference(a, b);
            }
        },
        Node::Multiply(l, r) => {
            lemma_value_is_exact(*l);
            lemma_value_is_exact(*r);
            if let Ok(Some((a, b))) = operands(fixed_value(*l), fixed_value(*r)) {
                Number::lemma_product(a, b);
            }
        },
        Node::Divide(l, r) => {
            lemma_value_is_exact(*l);
            lemma_value_is_exact(*r);
            if let Ok(Some((a, b))) = operands(fixed_value(*l), fixed_value(*r)) {
                Number::lemma_quotient(a, b);
            }
        },
        Node::Caret(l, r) => {
            lemma_value_is_exact(*l);
            lemma_value_is_exact(*r);
            if let Ok(Some((a, b))) = operands(fixed_value(*l), fixed_value(*r)) {
                lemma_raised_to_is_exact(a, b);
            }
        },
        Node::Die(_, _) => {},
    }
}

/// An expression without dice always evaluates, or always fails, and where
/// it evaluates its total is exact: as a real number it is what the
/// arithmetic of the expression means.
pub proof fn lemma_total_is_exact(expr: Node, res: Result<RollResult, ParseError>)
    requires
        evaluated(expr, res),
        fixed_value(expr) matches Ok(Some(_)),
    ensures
        res matches Ok(result) && result.is_pure_calculation && result.rolls@.len() == 0
            && result.total@ == real_value(expr),
{
    lemma_value_is_exact(expr);
    if let Ok(result) = res {
        lemma_fixed_total(expr, result.rolls@);
    } else {
        let rolls = choose|rolls: Seq<DieRoll>| #[trigger]
            rolled_by(expr, rolls) && total_with(expr, rolls) is None;
        lemma_fixed_total(expr, rolls);
    }
}

/// Rolling `count` dice with `sides` sides, both positive, records `count`
/// rolls, each with `sides` sides and a value from 1 to `sides`, and totals
/// the sum of the values, which lies between `count` and `count * sides`.
pub proof fn lemma_dice_are_recorded(count: i128, sides: i128, result: RollResult)
    requires
        count > 0,
        sides > 0,
        result.describes(Node::Die(Box::new(Node::Number(count)), Box::new(Node::Number(sides)))),
    ensures
        result.rolls@.len() == count,
        forall|i: int|
            0 <= i < count ==> (#[trigger] result.rolls@[i]).sides == sides && 1
                <= result.rolls@[i].value <= sides,
        result.total@ == sum_of(result.rolls@) as real,
        count <= sum_of(result.rolls@) <= count * sides,
        !result.is_pure_calculation,
{
    Number::lemma_whole(count as int);
    Number::lemma_whole(sides as int);
    Number::lemma_whole(sum_of(result.rolls@));
    lemma_sum_of_at_least_len(result.rolls@);
    lemma_sum_of_at_most(result.rolls@, sides as int);
}

/// Rolling `count` dice with `sides` sides succeeds where the largest total
/// that they can show, `count * sides`, is a number that can be held.
pub proof fn lemma_dice_that_fit_succeed(
    count: i128,
    sides: i128,
    res: Result<RollResult, ParseError>,
)
    requires
        count > 0,
        sides > 0,
        count * sides <= i128::MAX,
        evaluated(Node::Die(Box::new(Node::Number(count)), Box::new(Node::Number(sides))), res),
    ensures
        res is Ok,
{
    let expr = Node::Die(Box::new(Node::Number(count)), Box::new(Node::Number(sides)));
    Number::lemma_whole(count as int);
    Number::lemma_whole(sides as int);
    assert forall|rolls: Seq<DieRoll>| #[trigger] rolled_by(expr, rolls) implies total_with(
        expr,
        rolls,
    ) is Some by {
        lemma_sum_of_at_least_len(rolls);
        lemma_sum_of_at_most(rolls, sides as int);
    }
}

/// Rolling dice whose count or number of sides is zero or less is no error:
/// it records no rolls, totals zero and still counts as a roll of dice.
pub proof fn lemma_no_dice_no_error(count: i128, sides: i128, res: Result<RollResult, ParseError>)
    requires
        count <= 0 || sides <= 0,
        evaluated(Node::Die(Box::new(Node::Number(count)), Box::new(Node::Number(sides))), res),
    ensures
        res matches Ok(result) && result.rolls@.len() == 0 && result.total == Number::whole(0)
            && result.total@ == 0real && !result.is_pure_calculation,
{
    let expr = Node::Die(Box::new(Node::Number(count)), Box::new(Node::Number(sides)));
    Number::lemma_whole(count as int);
    Number::lemma_whole(sides as int);
    Number::lemma_whole(0);
    assert(dice_sides(expr).len() == 0);
    assert forall|rolls: Seq<DieRoll>| #[trigger] rolled_by(expr, rolls) implies total_with(
        expr,
        rolls,
    ) == Some(Number::whole(0)) by {
        assert(rolls.len() == 0);
    }
}

/// Multiplying, dividing or raising to a power fails with the operation's
/// own error as soon as both operands can be evaluated and one of them
/// rolls dice.
pub proof fn lemma_dice_operands_rejected(
    l: Node,
    r: Node,
    product: Result<RollResult, ParseError>,
    quotient: Result<RollResult, ParseError>,
    power: Result<RollResult, ParseError>,
)
    requires
        fixed_value(l) is Ok,
        fixed_value(r) is Ok,
        dice_in(l) || dice_in(r),
        evaluated(Node::Multiply(Box::new(l), Box::new(r)), product),
        evaluated(Node::Divide(Box::new(l), Box::new(r)), quotient),
        evaluated(Node::Caret(Box::new(l), Box::new(r)), power),
    ensures
        product == Err::<RollResult, ParseError>(dice_operand(Operation::Multiply)),
        quotient == Err::<RollResult, ParseError>(dice_operand(Operation::Divide)),
        power == Err::<RollResult, ParseError>(dice_operand(Operation::Power)),
{
    lemma_dice_are_no_number(l);
    lemma_dice_are_no_number(r);
}

/// Negating fails with its own error as soon as the operand can be
/// evaluated and rolls dice.
pub proof fn lemma_dice_operand_rejected(operand: Node, res: Result<RollResult, ParseError>)
    requires
        fixed_value(operand) is Ok,
        dice_in(operand),
        evaluated(Node::Negative(Box::new(operand)), res),
    ensures
        res == Err::<RollResult, ParseError>(dice_operand(Operation::Negate)),
{
    lemma_dice_are_no_number(operand);
}

/// An expression that can be evaluated is free of dice exactly if no dice
/// roll stands anywhere in it.
pub proof fn lemma_dice_are_no_number(expr: Node)
    ensures
        fixed_value(expr) matches Ok(None) <==> fixed_value(expr) is Ok && dice_in(expr),
    decreases expr,
{
    match expr {
        Node::Add(l, r) | Node::Subtract(l, r) => {
            lemma_dice_are_no_number(*l);
            lemma_dice_are_no_number(*r);
        },
        Node::Multiply(l, r) | Node::Divide(l, r) | Node::Caret(l, r) | Node::Die(l, r) => {
            lemma_dice_are_no_number(*l);
            lemma_dice_are_no_number(*r);
        },
        Node::Negative(operand) => {
            lemma_dice_are_no_number(*operand);
        },
        Node::Number(_) => {},
    }
}

/// Whether the expression holds a dice roll anywhere.
pub open spec fn dice_in(expr: Node) -> bool
    decreases expr,
{
    match expr {
        Node::Number(_) => false,
        Node::Negative(operand) => dice_in(*operand),
        Node::Die(_, _) => true,
        Node::Add(l, r)
        | Node::Subtract(l, r)
        | Node::Multiply(l, r)
        | Node::Divide(l, r)
        | Node::Caret(l, r) => dice_in(*l) || dice_in(*r),
    }
}

/// Whether the error is a limit of exact arithmetic: a number that cannot
/// be held, or a power that is no rational number.
pub open spec fn is_limit(e: ParseError) -> bool {
    e == ParseError::NumberOverflow || e == ParseError::InvalidOperator(
        OperatorFault::NoExactPower,
    )
}

/// Whether the expression breaks a rule of evaluation somewhere: an operand
/// of a product, quotient, power, negation or dice roll holds dice, or the
/// divisor of a quotient is zero.
pub open spec fn breaks_rule(expr: Node) -> bool
    decreases expr,
{
    match expr {
        Node::Number(_) => false,
        Node::Negative(operand) => breaks_rule(*operand) || dice_in(*operand),
        Node::Add(l, r) | Node::Subtract(l, r) => breaks_rule(*l) || breaks_rule(*r),
        Node::Multiply(l, r) | Node::Caret(l, r) | Node::Die(l, r) => breaks_rule(*l)
            || breaks_rule(*r) || dice_in(*l) || dice_in(*r),
        Node::Divide(l, r) => breaks_rule(*l) || breaks_rule(*r) || dice_in(*l) || dice_in(*r)
            || (fixed_value(*r) matches Ok(Some(v)) && v.numer() == 0),
    }
}

/// An expression that breaks a rule fails, whatever its dice show.
pub proof fn lemma_broken_rule_fails(expr: Node)
    requires
        breaks_rule(expr),
    ensures
        fixed_value(expr) is Err,
    decreases expr,
{
    match expr {
        Node::Number(_) => {},
        Node::Negative(operand) => {
            lemma_dice_are_no_number(*operand);
            if breaks_rule(*operand) {
                lemma_broken_rule_fails(*operand);
            }
        },
        Node::Add(l, r)
        | Node::Subtract(l, r)
        | Node::Multiply(l, r)
        | Node::Divide(l, r)
        | Node::Caret(l, r)
        | Node::Die(l, r) => {
            lemma_dice_are_no_number(*l);
            lemma_dice_are_no_number(*r);
            if breaks_rule(*l) {
                lemma_broken_rule_fails(*l);
            }
            if breaks_rule(*r) {
                lemma_broken_rule_fails(*r);
            }
        },
    }
}

/// A failure that is no limit of exact arithmetic breaks a rule: it is the
/// error of an operation that was handed dice, or a division by zero, and
/// the expression holds what brings it about.
pub proof fn lemma_failure_breaks_rule(expr: Node)
    ensures
        fixed_value(expr) matches Err(e) ==> is_limit(e) || (breaks_rule(expr) && (e
            == ParseError::DivisionByZero || exists|operation: Operation|
            e == dice_operand(operation))),
    decreases expr,
{
    match expr {
        Node::Number(_) => {},
        Node::Negative(operand) => {
            lemma_dice_are_no_number(*operand);
            lemma_failure_breaks_rule(*operand);
            assert(dice_operand(Operation::Negate) == dice_operand(Operation::Negate));
        },
        Node::Add(l, r)
        | Node::Subtract(l, r)
        | Node::Multiply(l, r)
        | Node::Divide(l, r)
        | Node::Caret(l, r)
        | Node::Die(l, r) => {
            lemma_dice_are_no_number(*l);
            lemma_dice_are_no_number(*r);
            lemma_failure_breaks_rule(*l);
            lemma_failure_breaks_rule(*r);
            assert(dice_operand(Operation::Multiply) == dice_operand(Operation::Multiply));
            assert(dice_operand(Operation::Divide) == dice_operand(Operation::Divide));
            assert(dice_operand(Operation::Power) == dice_operand(Operation::Power));
            assert(dice_operand(Operation::DieRoll) == dice_operand(Operation::DieRoll));
        },
    }
}

/// An expression without dice and without a zero divisor evaluates to the
/// value that its arithmetic means, exactly, unless it comes to a limit of
/// exact arithmetic on the way.
pub proof fn lemma_arithmetic_is_exact(expr: Node, res: Result<RollResult, ParseError>)
    requires
        evaluated(expr, res),
        !dice_in(expr),
        !breaks_rule(expr),
    ensures
        match res {
            Ok(result) => result.total@ == real_value(expr) && result.is_pure_calculation
                && result.rolls@.len() == 0,
            Err(e) => is_limit(e),
        },
{
    lemma_failure_breaks_rule(expr);
    lemma_dice_are_no_number(expr);
    if fixed_value(expr) is Ok {
        lemma_total_is_exact(expr, res);
    }
}

} // verus!
