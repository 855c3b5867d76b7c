//! The random roll generator.
//!
//! Each requested repetition becomes one [`RollSet`] of freshly rolled dice.
//! Every die value is drawn from the inclusive range `[1, sides]` by the
//! `rand` crate, and every die gets a fresh identifier from the `uuid` crate;
//! both calls stand behind trusted wrappers, and everything the rest of the
//! library proves holds for every value they may return.

use vstd::prelude::*;
use crate::dice::{dice_view, set_wf, DieRoll, RollSet, RollSetV};
use crate::{MAX_COUNT, MAX_DICE, MAX_SIDES};

verus! {

/// Declares rand::rngs::ThreadRng, the handle to the thread-local random
/// generator, so it can flow through verified code as an opaque value.
#[verifier::external_type_specification]
#[verifier::external_body]
pub struct ExThreadRng(rand::rngs::ThreadRng);

/// Relies on rand::thread_rng: a handle to the thread-local random generator.
#[verifier::external_body]
fn new_rng() -> rand::rngs::ThreadRng {
    rand::thread_rng()
}

/// Relies on rand's Rng::gen_range over the inclusive range 1..=sides: the
/// drawn value lies inside that range.  The range is nonempty because
/// `sides >= 1`, so the call cannot panic.  Nothing more is assumed of a
/// random value.
#[verifier::external_body]
fn gen_die(rng: &mut rand::rngs::ThreadRng, sides: u32) -> (r: u32)
    requires
        1 <= sides,
    ensures
        1 <= r <= sides,
{
    rand::Rng::gen_range(rng, 1..=sides)
}

/// Relies on uuid::Uuid::new_v4 and its hyphenated textual form: a fresh
/// identifier of 36 characters (32 hexadecimal digits and 4 hyphens).
/// Nothing more is assumed of a random identifier.
#[verifier::external_body]
fn fresh_uuid() -> (r: String)
    ensures
        r@.len() == 36,
{
    uuid::Uuid::new_v4().to_hyphenated().to_string()
}

/// What every set straight out of the generator looks like: exactly `rolls`
/// dice with values in `[1, sides]`, every die kept, a total of 0, and the
/// given source text.
pub open spec fn generated_set(sv: RollSetV, rolls: int, sides: int, rstr: Seq<char>) -> bool {
    &&& sv.dice.len() == rolls
    &&& forall|i: int| 0 <= i < sv.dice.len() ==> 1 <= #[trigger] sv.dice[i].value <= sides
    &&& forall|i: int| 0 <= i < sv.dice.len() ==> #[trigger] sv.dice[i].keep == true
    &&& sv.total == 0
    &&& sv.roll_string == rstr
}

/// Rolls `count` independent sets of `rolls` dice with `sides` sides each.
pub fn roll(count: u32, rolls: u32, sides: u32, roll_string: String) -> (r: Vec<RollSet>)
    requires
        count <= MAX_COUNT,
        rolls <= MAX_DICE,
        1 <= sides <= MAX_SIDES,
    ensures
        r@.len() == count as int,
        forall|s: int|
            0 <= s < r@.len() ==> generated_set(
                #[trigger] r@[s]@,
                rolls as int,
                sides as int,
                roll_string@,
            ),
        forall|s: int| 0 <= s < r@.len() ==> set_wf(#[trigger] r@[s]@),
{
    let mut rng = new_rng();
    let mut results: Vec<RollSet> = Vec::new();
    let mut c: u32 = 0;
    while c < count
        invariant
            c <= count,
            count <= MAX_COUNT,
            rolls <= MAX_DICE,
            1 <= sides <= MAX_SIDES,
            results@.len() == c as int,
            forall|s: int|
                0 <= s < results@.len() ==> generated_set(
                    #[trigger] results@[s]@,
                    rolls as int,
                    sides as int,
                    roll_string@,
                ),
            forall|s: int| 0 <= s < results@.len() ==> set_wf(#[trigger] results@[s]@),
        decreases count - c,
    {
        let mut set: Vec<DieRoll> = Vec::new();
        let mut d: u32 = 0;
        while d < rolls
            invariant
                d <= rolls,
                1 <= sides <= MAX_SIDES,
                set@.len() == d as int,
                forall|i: int|
                    0 <= i < set@.len() ==> 1 <= #[trigger] set@[i].value <= sides,
                forall|i: int| 0 <= i < set@.len() ==> #[trigger] set@[i].keep == true,
            decreases rolls - d,
        {
            let u = fresh_uuid();
            let value = gen_die(&mut rng, sides);
            set.push(DieRoll::new(value, true, u));
            d = d + 1;
        }
        let rs = RollSet::new(set, roll_string.clone());
        assert(generated_set(rs@, rolls as int, sides as int, roll_string@));
        results.push(rs);
        c = c + 1;
    }
    results
}

} // verus!
