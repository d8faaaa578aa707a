//! Dice: rolling them, adding them up and writing them down.

use super::number::fits;
use super::render::{decimal_text, push_decimal};
use rand::rngs::OsRng;
use rand::Rng;
use vstd::arithmetic::div_mod::{
    lemma_add_mod_noop, lemma_mod_bound, lemma_mod_self_0, lemma_mod_twice, lemma_small_mod,
};
use vstd::prelude::*;
use vstd::string::StringExecFns;

verus! {

/// One die as it fell.
#[derive(Clone, Copy, Debug, PartialEq, Eq, Structural)]
pub struct DieRoll {
    /// Number of sides on the die.
    pub sides: i128,
    /// The value rolled.
    pub value: i128,
}

impl DieRoll {
    /// The value is one that a die with that many sides can show.
    pub open spec fn wf(&self) -> bool {
        1 <= self.value <= self.sides
    }
}

/// Whether every record holds a value that its die can show.
pub open spec fn all_wf(rolls: Seq<DieRoll>) -> bool {
    forall|i: int| 0 <= i < rolls.len() ==> (#[trigger] rolls[i]).wf()
}

/// The sum of the values rolled.
pub open spec fn sum_of(rolls: Seq<DieRoll>) -> int
    decreases rolls.len(),
{
    if rolls.len() == 0 {
        0
    } else {
        sum_of(rolls.drop_last()) + rolls.last().value
    }
}

/// Rolls that dice can show add up to at least their number, and no prefix
/// adds up to more than the whole.
pub proof fn lemma_sum_of_grows(rolls: Seq<DieRoll>, n: int)
    requires
        all_wf(rolls),
        0 <= n <= rolls.len(),
    ensures
        n <= sum_of(rolls.take(n)) <= sum_of(rolls),
    decreases rolls.len() - n,
{
    if n == rolls.len() {
        assert(rolls.take(n) =~= rolls);
        lemma_sum_of_at_least_len(rolls);
    } else {
        lemma_sum_of_grows(rolls, n + 1);
        assert(rolls.take(n + 1).drop_last() =~= rolls.take(n));
        assert(rolls.take(n + 1).last() == rolls[n]);
        lemma_sum_of_at_least_len(rolls.take(n));
    }
}

/// Rolls that dice can show add up to at least their number.
pub proof fn lemma_sum_of_at_least_len(rolls: Seq<DieRoll>)
    requires
        all_wf(rolls),
    ensures
        sum_of(rolls) >= rolls.len(),
    decreases rolls.len(),
{
    if rolls.len() > 0 {
        lemma_sum_of_at_least_len(rolls.drop_last());
    }
}

/// Rolls of dice with `sides` sides add up to no more than their number
/// times `sides`.
pub proof fn lemma_sum_of_at_most(rolls: Seq<DieRoll>, sides: int)
    requires
        all_wf(rolls),
        forall|i: int| 0 <= i < rolls.len() ==> (#[trigger] rolls[i]).sides == sides,
    ensures
        sum_of(rolls) <= rolls.len() * sides,
    decreases rolls.len(),
{
    if rolls.len() > 0 {
        lemma_sum_of_at_most(rolls.drop_last(), sides);
        let n = rolls.len() as int;
        assert(rolls.last().wf());
        assert((n - 1) * sides + sides == n * sides) by (nonlinear_arith);
    } else {
        assert(rolls.len() * sides == 0) by (nonlinear_arith)
            requires
                rolls.len() == 0,
        ;
    }
}

/// Draws one value for a die with `sides` sides from the operating system's
/// random source, by `rand::Rng::gen_range` on `rand::rngs::OsRng` with the
/// range `1..=sides`.
///
/// The contract claims what `gen_range` documents for a range that is not
/// empty: the value lies in the range. Nothing is claimed about which value
/// comes. The call panics if the operating system cannot supply randomness.
#[verifier::external_body]
fn roll_die(sides: i128) -> (value: i128)
    requires
        sides >= 1,
    ensures
        1 <= value <= sides,
{
    OsRng.gen_range(1..=sides)
}

/// What a die with `sides` sides shows for the number `raw` of a script:
/// the number itself from 1 to `sides`, and beyond that around again.
pub open spec fn face(raw: int, sides: int) -> int {
    (raw - 1) % sides + 1
}

/// Where dice get their values from: the operating system's random source,
/// or a script of numbers that are handed out in turn, the first again after
/// the last, so that a roll can be repeated.
pub struct DiceSource {
    script: Vec<i128>,
    next: usize,
}

impl DiceSource {
    /// The next number is one of the script, and every number of the script
    /// is 1 or more.
    #[verifier::type_invariant]
    pub closed spec fn wf(&self) -> bool {
        &&& self.next < self.script@.len() || (self.next == 0 && self.script@.len() == 0)
        &&& forall|i: int| 0 <= i < self.script@.len() ==> #[trigger] self.script@[i] >= 1
    }

    /// The numbers of the script; none for the random source.
    pub closed spec fn script(&self) -> Seq<i128> {
        self.script@
    }

    /// The place in the script of the number that comes next.
    pub closed spec fn position(&self) -> int {
        self.next as int
    }

    /// Whether the values come from the operating system's random source.
    pub open spec fn is_random(&self) -> bool {
        self.script().len() == 0
    }

    /// What the draw after `ahead` more draws shows on a die with `sides`
    /// sides, for a source with a script.
    pub open spec fn upcoming(&self, ahead: int, sides: int) -> int {
        face(self.script()[(self.position() + ahead) % (self.script().len() as int)] as int, sides)
    }

    /// Whether a source that was `before` can have handed out `rolls` and
    /// be `self` now. The script stays; a source with a script has handed
    /// out its numbers in turn and has moved on by as many.
    pub open spec fn served(&self, before: &DiceSource, rolls: Seq<DieRoll>) -> bool {
        &&& self.script() == before.script()
        &&& !before.is_random() ==> {
            &&& self.position() == (before.position() + rolls.len()) % (before.script().len() as int)
            &&& forall|i: int|
                0 <= i < rolls.len() ==> (#[trigger] rolls[i]).value == before.upcoming(
                    i,
                    rolls[i].sides as int,
                )
        }
    }

    /// A source that has handed out nothing is as it was.
    pub proof fn lemma_served_nothing(&self)
        requires
            self.wf(),
        ensures
            self.served(self, Seq::empty()),
    {
        if !self.is_random() {
            lemma_small_mod(self.position() as nat, self.script().len());
        }
    }

    /// What a source hands out in two goes, it hands out in one.
    pub proof fn lemma_served_in_turn(
        &self,
        before: &DiceSource,
        between: &DiceSource,
        first: Seq<DieRoll>,
        second: Seq<DieRoll>,
    )
        requires
            between.served(before, first),
            self.served(between, second),
        ensures
            self.served(before, first + second),
    {
        if !before.is_random() {
            let n = before.script().len() as int;
            let p = before.position();
            let k = first.len() as int;
            assert forall|i: int| 0 <= i < (first + second).len() implies (#[trigger] (first
                + second)[i]).value == before.upcoming(i, (first + second)[i].sides as int) by {
                if i >= k {
                    assert((first + second)[i] == second[i - k]);
                    lemma_add_mod_noop(p + k, i - k, n);
                    lemma_mod_twice(p + k, n);
                    lemma_small_mod(((i - k) % n) as nat, n as nat);
                    lemma_mod_bound(i - k, n);
                    lemma_add_mod_noop((p + k) % n, i - k, n);
                } else {
                    assert((first + second)[i] == first[i]);
                }
            }
            lemma_add_mod_noop(p + k, second.len() as int, n);
            lemma_mod_twice(p + k, n);
            lemma_add_mod_noop((p + k) % n, second.len() as int, n);
        }
    }

    /// The rolls that a source with a script hands out next for dice with
    /// the given numbers of sides.
    pub open spec fn scripted_rolls(&self, sides: Seq<i128>) -> Seq<DieRoll> {
        Seq::new(
            sides.len(),
            |i: int| DieRoll { sides: sides[i], value: self.upcoming(i, sides[i] as int) as i128 },
        )
    }

    /// The operating system's random source.
    pub fn random() -> (dice: DiceSource)
        ensures
            dice.is_random(),
    {
        DiceSource { script: Vec::new(), next: 0 }
    }

    /// A source that hands out the numbers of `script` in turn, starting
    /// with the first; `None` where the script is empty or holds a number
    /// below 1.
    pub fn scripted(script: Vec<i128>) -> (dice: Option<DiceSource>)
        ensures
            dice is Some <==> script@.len() > 0 && forall|i: int|
                0 <= i < script@.len() ==> #[trigger] script@[i] >= 1,
            dice matches Some(source) ==> source.script() == script@ && source.position() == 0,
    {
        if script.len() == 0 {
            return None;
        }
        let mut i: usize = 0;
        while i < script.len()
            invariant
                0 <= i <= script@.len(),
                forall|j: int| 0 <= j < i ==> #[trigger] script@[j] >= 1,
            decreases script@.len() - i,
        {
            if script[i] < 1 {
                return None;
            }
            i += 1;
        }
        Some(DiceSource { script, next: 0 })
    }

    /// The value of one die with `sides` sides.
    pub fn draw(&mut self, sides: i128) -> (roll: DieRoll)
        requires
            sides >= 1,
        ensures
            roll.sides == sides,
            roll.wf(),
            final(self).served(old(self), seq![roll]),
    {
        proof {
            use_type_invariant(&*self);
        }
        if self.script.len() == 0 {
            return DieRoll { sides, value: roll_die(sides) };
        }
        let raw = self.script[self.next];
        let value = (raw - 1) % sides + 1;
        let ghost n = self.script@.len() as int;
        let ghost p = self.next as int;
        proof {
            lemma_mod_bound(raw - 1, sides as int);
            lemma_small_mod(p as nat, n as nat);
            if p + 1 == n {
                lemma_mod_self_0(n);
            } else {
                lemma_small_mod((p + 1) as nat, n as nat);
            }
        }
        self.next = if self.next + 1 == self.script.len() {
            0
        } else {
            self.next + 1
        };
        DieRoll { sides, value }
    }
}

/// Rolls `count` dice with `sides` sides each.
pub fn roll_dice(dice: &mut DiceSource, count: i128, sides: i128) -> (rolls: Vec<DieRoll>)
    requires
        sides >= 1,
    ensures
        rolls@.len() == if count <= 0 {
            0
        } else {
            count as int
        },
        forall|i: int| 0 <= i < rolls@.len() ==> (#[trigger] rolls@[i]).sides == sides,
        all_wf(rolls@),
        final(dice).served(old(dice), rolls@),
{
    let mut rolls: Vec<DieRoll> = Vec::new();
    let mut i: i128 = 0;
    proof {
        use_type_invariant(&*dice);
        dice.lemma_served_nothing();
    }
    while i < count
        invariant
            sides >= 1,
            0 <= i,
            i <= count || i == 0,
            rolls@.len() == i,
            forall|j: int| 0 <= j < rolls@.len() ==> (#[trigger] rolls@[j]).sides == sides,
            all_wf(rolls@),
            dice.served(old(dice), rolls@),
        decreases count - i,
    {
        let ghost between = *dice;
        let ghost so_far = rolls@;
        let roll = dice.draw(sides);
        rolls.push(roll);
        proof {
            dice.lemma_served_in_turn(old(dice), &between, so_far, seq![roll]);
            assert(rolls@ =~= so_far + seq![roll]);
        }
        i += 1;
    }
    rolls
}

/// Adds up the values rolled; `None` where the sum is above `i128::MAX`.
pub fn sum_rolls(rolls: &Vec<DieRoll>) -> (total: Option<i128>)
    requires
        all_wf(rolls@),
    ensures
        total == if fits(sum_of(rolls@)) {
            Some(sum_of(rolls@) as i128)
        } else {
            None
        },
{
    let mut total: i128 = 0;
    let mut i: usize = 0;
    while i < rolls.len()
        invariant
            all_wf(rolls@),
            0 <= i <= rolls@.len(),
            total == sum_of(rolls@.take(i as int)),
            0 <= total,
        decreases rolls@.len() - i,
    {
        proof {
            assert(rolls@.take(i + 1).drop_last() =~= rolls@.take(i as int));
            assert(rolls@[i as int].wf());
            lemma_sum_of_grows(rolls@, i + 1);
        }
        match total.checked_add(rolls[i].value) {
            None => {
                return None;
            },
            Some(t) => {
                total = t;
            },
        }
        i += 1;
    }
    proof {
        assert(rolls@.take(i as int) =~= rolls@);
    }
    Some(total)
}

/// The kinds of dice among `rolls`, each given by its number of sides, in the
/// order in which each kind first occurs.
pub open spec fn kinds(rolls: Seq<DieRoll>) -> Seq<i128>
    decreases rolls.len(),
{
    if rolls.len() == 0 {
        Seq::empty()
    } else {
        let earlier = kinds(rolls.drop_last());
        if earlier.contains(rolls.last().sides) {
            earlier
        } else {
            earlier.push(rolls.last().sides)
        }
    }
}

/// The values that the dice with `sides` sides showed, in the order of
/// rolling.
pub open spec fn values_of(rolls: Seq<DieRoll>, sides: i128) -> Seq<i128>
    decreases rolls.len(),
{
    if rolls.len() == 0 {
        Seq::empty()
    } else if rolls.last().sides == sides {
        values_of(rolls.drop_last(), sides).push(rolls.last().value)
    } else {
        values_of(rolls.drop_last(), sides)
    }
}

/// Values in decimal, separated by a comma and a space.
pub open spec fn list_text(values: Seq<i128>) -> Seq<char>
    decreases values.len(),
{
    if values.len() == 0 {
        Seq::empty()
    } else if values.len() == 1 {
        decimal_text(values[0] as int)
    } else {
        list_text(values.drop_last()) + seq![',', ' '] + decimal_text(values.last() as int)
    }
}

/// One kind of dice as text: how many there were, `d`, the number of sides,
/// and the values in square brackets, as in `3d6 [4, 1, 6]`.
pub open spec fn group_text(rolls: Seq<DieRoll>, sides: i128) -> Seq<char> {
    let values = values_of(rolls, sides);
    decimal_text(values.len() as int) + seq!['d'] + decimal_text(sides as int) + seq![' ', '[']
        + list_text(values) + seq![']']
}

/// The groups of the given kinds, separated by ` + `.
pub open spec fn groups_text(rolls: Seq<DieRoll>, kinds: Seq<i128>) -> Seq<char>
    decreases kinds.len(),
{
    if kinds.len() == 0 {
        Seq::empty()
    } else if kinds.len() == 1 {
        group_text(rolls, kinds[0])
    } else {
        groups_text(rolls, kinds.drop_last()) + seq![' ', '+', ' '] + group_text(
            rolls,
            kinds.last(),
        )
    }
}

/// All the rolls as text, one group for each kind of dice.
pub open spec fn rolls_text(rolls: Seq<DieRoll>) -> Seq<char> {
    groups_text(rolls, kinds(rolls))
}

/// The kinds are the numbers of sides that occur among the rolls, each of
/// them once.
pub proof fn lemma_kinds(rolls: Seq<DieRoll>)
    ensures
        kinds(rolls).no_duplicates(),
        forall|i: int| 0 <= i < rolls.len() ==> kinds(rolls).contains((#[trigger] rolls[i]).sides),
        forall|k: int|
            0 <= k < kinds(rolls).len() ==> values_of(rolls, #[trigger] kinds(rolls)[k]).len() > 0,
    decreases rolls.len(),
{
    if rolls.len() > 0 {
        let earlier = rolls.drop_last();
        let last = rolls.last();
        lemma_kinds(earlier);
        let before = kinds(earlier);
        let now = kinds(rolls);
        assert forall|i: int| 0 <= i < rolls.len() implies now.contains(
            (#[trigger] rolls[i]).sides,
        ) by {
            if i < rolls.len() - 1 {
                assert(rolls[i] == earlier[i]);
                let at = choose|j: int| 0 <= j < before.len() && before[j] == earlier[i].sides;
                assert(now[at] == earlier[i].sides);
            } else if before.contains(last.sides) {
            } else {
                assert(now[now.len() - 1] == last.sides);
            }
        }
        assert forall|k: int| 0 <= k < now.len() implies values_of(rolls, #[trigger] now[k]).len()
            > 0 by {
            if k < before.len() {
                assert(now[k] == before[k]);
            }
        }
    }
}

/// There are no more values of one kind than there are rolls.
pub proof fn lemma_values_of_len(rolls: Seq<DieRoll>, sides: i128)
    ensures
        values_of(rolls, sides).len() <= rolls.len(),
    decreases rolls.len(),
{
    if rolls.len() > 0 {
        lemma_values_of_len(rolls.drop_last(), sides);
    }
}

fn contains_sides(kinds: &Vec<i128>, sides: i128) -> (found: bool)
    ensures
        found == kinds@.contains(sides),
{
    let mut i: usize = 0;
    while i < kinds.len()
        invariant
            0 <= i <= kinds@.len(),
            forall|j: int| 0 <= j < i ==> kinds@[j] != sides,
        decreases kinds@.len() - i,
    {
        if kinds[i] == sides {
            return true;
        }
        i += 1;
    }
    false
}

fn kinds_of(rolls: &Vec<DieRoll>) -> (found: Vec<i128>)
    ensures
        found@ == kinds(rolls@),
{
    let mut found: Vec<i128> = Vec::new();
    let mut i: usize = 0;
    while i < rolls.len()
        invariant
            0 <= i <= rolls@.len(),
            found@ == kinds(rolls@.take(i as int)),
        decreases rolls@.len() - i,
    {
        proof {
            assert(rolls@.take(i + 1).drop_last() =~= rolls@.take(i as int));
        }
        let sides = rolls[i].sides;
        if !contains_sides(&found, sides) {
            found.push(sides);
        }
        i += 1;
    }
    proof {
        assert(rolls@.take(i as int) =~= rolls@);
    }
    found
}

fn count_of(rolls: &Vec<DieRoll>, sides: i128) -> (n: usize)
    ensures
        n == values_of(rolls@, sides).len(),
{
    let mut n: usize = 0;
    let mut i: usize = 0;
    while i < rolls.len()
        invariant
            0 <= i <= rolls@.len(),
            n == values_of(rolls@.take(i as int), sides).len(),
            n <= i,
        decreases rolls@.len() - i,
    {
        proof {
            assert(rolls@.take(i + 1).drop_last() =~= rolls@.take(i as int));
        }
        if rolls[i].sides == sides {
            n += 1;
        }
        i += 1;
    }
    proof {
        assert(rolls@.take(i as int) =~= rolls@);
    }
    n
}

fn push_values(out: &mut String, rolls: &Vec<DieRoll>, sides: i128)
    ensures
        final(out)@ == old(out)@ + list_text(values_of(rolls@, sides)),
{
    let mut any = false;
    let mut i: usize = 0;
    proof {
        assert(out@ =~= old(out)@ + list_text(values_of(rolls@.take(0), sides)));
    }
    while i < rolls.len()
        invariant
            0 <= i <= rolls@.len(),
            any == (values_of(rolls@.take(i as int), sides).len() > 0),
            out@ == old(out)@ + list_text(values_of(rolls@.take(i as int), sides)),
        decreases rolls@.len() - i,
    {
        let ghost before = values_of(rolls@.take(i as int), sides);
        proof {
            assert(rolls@.take(i + 1).drop_last() =~= rolls@.take(i as int));
        }
        if rolls[i].sides == sides {
            proof {
                assert(before.push(rolls@[i as int].value).drop_last() =~= before);
            }
            if any {
                out.append(", ");
            }
            push_decimal(out, rolls[i].value);
            any = true;
            proof {
                let after = before.push(rolls@[i as int].value);
                reveal_strlit(", ");
                assert(", "@ =~= seq![',', ' ']);
                assert(out@ =~= old(out)@ + list_text(after));
            }
        }
        i += 1;
    }
    proof {
        assert(rolls@.take(i as int) =~= rolls@);
    }
}

fn push_group(out: &mut String, rolls: &Vec<DieRoll>, sides: i128)
    ensures
        final(out)@ == old(out)@ + group_text(rolls@, sides),
{
    proof {
        reveal_strlit("d");
        reveal_strlit(" [");
        reveal_strlit("]");
        lemma_values_of_len(rolls@, sides);
    }
    let n = count_of(rolls, sides);
    push_decimal(out, n as i128);
    out.append("d");
    push_decimal(out, sides);
    out.append(" [");
    push_values(out, rolls, sides);
    out.append("]");
    proof {
        assert("d"@ =~= seq!['d']);
        assert(" ["@ =~= seq![' ', '[']);
        assert("]"@ =~= seq![']']);
        assert(out@ =~= old(out)@ + group_text(rolls@, sides));
    }
}

/// Appends all the rolls to `out`, grouped by kind of dice: the kinds in the
/// order in which they first occur, the values of each kind in the order of
/// rolling.
pub fn push_rolls(out: &mut String, rolls: &Vec<DieRoll>)
    ensures
        final(out)@ == old(out)@ + rolls_text(rolls@),
{
    let found = kinds_of(rolls);
    let mut i: usize = 0;
    proof {
        assert(out@ =~= old(out)@ + groups_text(rolls@, found@.take(0)));
    }
    while i < found.len()
        invariant
            0 <= i <= found@.len(),
            out@ == old(out)@ + groups_text(rolls@, found@.take(i as int)),
        decreases found@.len() - i,
    {
        proof {
            assert(found@.take(i + 1).drop_last() =~= found@.take(i as int));
        }
        if i > 0 {
            out.append(" + ");
        }
        push_group(out, rolls, found[i]);
        proof {
            reveal_strlit(" + ");
            assert(" + "@ =~= seq![' ', '+', ' ']);
            assert(out@ =~= old(out)@ + groups_text(rolls@, found@.take(i + 1)));
        }
        i += 1;
    }
    proof {
        assert(found@.take(i as int) =~= found@);
    }
}

} // verus!
