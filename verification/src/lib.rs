//! Dice arithmetic for tabletop games: text such as `2d6 + 3` is tokenized,
//! parsed into an expression tree and evaluated into a total together with
//! the individual die rolls that produced it.
//!
//! Totals are exact rational numbers, so arithmetic never rounds. What
//! exact arithmetic cannot give is reported as an error instead: a number
//! whose numerator or denominator leaves the range of `i128`
//! (`NumberOverflow`), and a power that is no rational number
//! (`NoExactPower`).

pub mod parsedie;

pub use parsedie::ast::{DieRoll, RollResult};
pub use parsedie::dice::DiceSource;
pub use parsedie::parser::ParseError;

use parsedie::ast::{
    can_overflow, eval_with, evaluated, fixed_value, lemma_total_is_exact, replayed,
};
use parsedie::parser::{parse_spec, Parser};
use vstd::prelude::*;

verus! {

/// Whether `c` is white space: a character with the Unicode property
/// `White_Space`.
pub open spec fn is_whitespace(c: char) -> bool {
    ||| '\u{0009}' <= c <= '\u{000D}'
    ||| c == '\u{0020}'
    ||| c == '\u{0085}'
    ||| c == '\u{00A0}'
    ||| c == '\u{1680}'
    ||| '\u{2000}' <= c <= '\u{200A}'
    ||| c == '\u{2028}'
    ||| c == '\u{2029}'
    ||| c == '\u{202F}'
    ||| c == '\u{205F}'
    ||| c == '\u{3000}'
}

/// The text without its white space.
pub open spec fn without_whitespace(text: Seq<char>) -> Seq<char> {
    text.filter(|c: char| !is_whitespace(c))
}

/// Whether `res` can be what rolling the expression `text` gives: the error
/// of the parser where the text, white space apart, does not parse, and else
/// what evaluating the parsed expression gives.
pub open spec fn rolled(text: Seq<char>, res: Result<RollResult, ParseError>) -> bool {
    match parse_spec(without_whitespace(text)) {
        Err(e) => res matches Err(found) && found == e,
        Ok(expr) => evaluated(expr, res),
    }
}

/// Whether `res` is what rolling the expression `text` gives with dice from
/// a source with a script that was `before`: wherever the outcome is up to
/// the dice, what `replayed` says.
pub open spec fn rolled_from_script(
    text: Seq<char>,
    before: &DiceSource,
    res: Result<RollResult, ParseError>,
) -> bool {
    match parse_spec(without_whitespace(text)) {
        Err(_) => true,
        Ok(expr) => fixed_value(expr) is Ok ==> replayed(expr, before, res),
    }
}

/// Whether `c` is white space.
pub fn is_whitespace_char(c: char) -> (b: bool)
    ensures
        b == is_whitespace(c),
{
    ('\u{0009}' <= c && c <= '\u{000D}') || c == '\u{0020}' || c == '\u{0085}' || c == '\u{00A0}'
        || c == '\u{1680}' || ('\u{2000}' <= c && c <= '\u{200A}') || c == '\u{2028}' || c
        == '\u{2029}' || c == '\u{202F}' || c == '\u{205F}' || c == '\u{3000}'
}

/// The characters of `text` that are not white space, in order.
pub fn strip_whitespace(text: &str) -> (kept: Vec<char>)
    ensures
        kept@ == without_whitespace(text@),
{
    broadcast use vstd::string::group_string_axioms;

    let mut kept: Vec<char> = Vec::new();
    proof {
        reveal(Seq::filter);
        assert(text@.take(0).filter(|c: char| !is_whitespace(c)) =~= Seq::<char>::empty());
    }
    for c in it: text.chars()
        invariant
            it.seq() == text@,
            kept@ == without_whitespace(it.seq().take(it.index() as int)),
    {
        proof {
            reveal(Seq::filter);
            let i = it.index() as int;
            assert(text@.take(i + 1).drop_last() =~= text@.take(i));
        }
        if !is_whitespace_char(c) {
            kept.push(c);
        }
    }
    proof {
        assert(text@.take(text@.len() as int) =~= text@);
    }
    kept
}

/// A dice roller that can be used for one expression after another.
pub struct DieSir {
    parser: Parser,
    dice: DiceSource,
}

impl DieSir {
    /// Where this roller's dice get their values from.
    pub closed spec fn dice(&self) -> DiceSource {
        self.dice
    }

    /// A roller whose dice fall by the operating system's random source.
    pub fn new() -> (roller: DieSir)
        ensures
            roller.dice().is_random(),
    {
        DieSir { parser: Parser::new(), dice: DiceSource::random() }
    }

    /// A roller whose dice get their values from `dice`.
    pub fn with_dice(dice: DiceSource) -> (roller: DieSir)
        ensures
            roller.dice() == dice,
    {
        DieSir { parser: Parser::new(), dice }
    }

    /// Parses and evaluates `expression`, white space apart. Of what came
    /// before on this roller, only how far its dice have come in their
    /// script, if they have one, has a part in the result.
    pub fn roll(&mut self, expression: &str) -> (res: Result<RollResult, ParseError>)
        ensures
            rolled(expression@, res),
            final(self).dice().script() == old(self).dice().script(),
            res matches Ok(result) ==> final(self).dice().served(&old(self).dice(), result.rolls@),
            !old(self).dice().is_random() ==> rolled_from_script(
                expression@,
                &old(self).dice(),
                res,
            ),
    {
        let expr = strip_whitespace(expression);
        match self.parser.parse_chars(expr) {
            Err(e) => Err(e),
            Ok(ast) => eval_with(ast, &mut self.dice),
        }
    }
}

impl Default for DieSir {
    fn default() -> (roller: DieSir)
        ensures
            roller.dice().is_random(),
    {
        DieSir::new()
    }
}

/// Parses and evaluates `expression`, white space apart.
pub fn roll(expression: &str) -> (res: Result<RollResult, ParseError>)
    ensures
        rolled(expression@, res),
{
    let mut dice = DieSir::new();
    dice.roll(expression)
}

/// Two rolls of one text, on whatever rollers, differ in nothing but how
/// the dice fell: they fail alike where the text does not parse or fails
/// whatever the dice show, they roll the same dice, and where the text holds
/// no dice they are the same result. Both succeed unless the dice can fall
/// so that a total leaves the range of numbers.
pub proof fn lemma_rolls_agree(
    text: Seq<char>,
    first: Result<RollResult, ParseError>,
    second: Result<RollResult, ParseError>,
)
    requires
        rolled(text, first),
        rolled(text, second),
    ensures
        match parse_spec(without_whitespace(text)) {
            Err(e) => first == Err::<RollResult, ParseError>(e) && second == first,
            Ok(expr) => match fixed_value(expr) {
                Err(e) => first == Err::<RollResult, ParseError>(e) && second == first,
                Ok(Some(_)) => first is Ok && second is Ok && first->Ok_0@ == second->Ok_0@,
                Ok(None) => !can_overflow(expr) ==> first is Ok && second is Ok,
            },
        },
        first matches Ok(a) ==> (second matches Ok(b) ==> {
            &&& a.is_pure_calculation == b.is_pure_calculation
            &&& a.modifier == b.modifier
            &&& a.rolls@.len() == b.rolls@.len()
            &&& forall|i: int|
                0 <= i < a.rolls@.len() ==> (#[trigger] a.rolls@[i]).sides == b.rolls@[i].sides
        }),
        first matches Err(e) ==> (second matches Err(f) ==> e == f),
{
    if let Ok(expr) = parse_spec(without_whitespace(text)) {
        if let Ok(Some(_)) = fixed_value(expr) {
            lemma_total_is_exact(expr, first);
            lemma_total_is_exact(expr, second);
            let a = first->Ok_0;
            let b = second->Ok_0;
            assert(a.rolls@ =~= b.rolls@);
        }
    }
}

/// Two rolls of one text with dice from one script, taken up at one place,
/// are the same: the same error, or results that agree in everything.
pub proof fn lemma_script_repeats(
    text: Seq<char>,
    dice: DiceSource,
    first: Result<RollResult, ParseError>,
    second: Result<RollResult, ParseError>,
)
    requires
        !dice.is_random(),
        rolled(text, first),
        rolled(text, second),
        rolled_from_script(text, &dice, first),
        rolled_from_script(text, &dice, second),
    ensures
        match first {
            Ok(a) => second matches Ok(b) && a@ == b@,
            Err(e) => second matches Err(f) && e == f,
        },
{
}

} // verus!
