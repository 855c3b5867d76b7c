//! The roll session orchestrator: parse the expression, roll the dice, and —
//! only if a keep/drop token was present — resolve every set.  Without such a
//! token every die stays kept and every total stays 0; a caller wanting an
//! unconditional sum computes it itself.

use vstd::prelude::*;
use vstd::string::*;
use crate::dice::{set_wf, RollSet, RollSetV};
use crate::parse::{
    body_of, chars_of, expr_matches, parse_at, spec_in_bounds, KeepDrop, RollError, RollSpecV,
};
use crate::resolve::{die_values, is_kept, kept_total, resolve, resolved, lemma_kept_sum_bound};
use crate::roll::{generated_set, roll};

verus! {

/// Everything a single returned roll set satisfies, given the parsed fields
/// `v` and the body text `rstr`: well-bounded dice, `v.dice_count` of them,
/// each value in `[1, v.sides]`; and keep flags and total exactly as the
/// keep/drop policy (or its absence) dictates.
pub open spec fn outcome_set(sv: RollSetV, v: RollSpecV, rstr: Seq<char>) -> bool {
    &&& set_wf(sv)
    &&& sv.dice.len() == v.dice_count
    &&& forall|i: int| 0 <= i < sv.dice.len() ==> 1 <= #[trigger] sv.dice[i].value <= v.sides
    &&& sv.roll_string == rstr
    &&& match v.keep_drop_op {
        None => sv.total == 0 && forall|i: int|
            0 <= i < sv.dice.len() ==> #[trigger] sv.dice[i].keep == true,
        Some(op) => sv.total == kept_total(die_values(sv.dice), op, v.keep_drop_count) && forall|
            i: int,
        |
            0 <= i < sv.dice.len() ==> #[trigger] sv.dice[i].keep == is_kept(
                die_values(sv.dice),
                op,
                v.keep_drop_count,
                i,
            ),
    }
}

/// Parses a dice-notation expression, rolls the requested dice, and applies
/// the keep/drop policy if one was asked for.
///
/// Fails with `ParseError` exactly when the expression does not match the
/// grammar, and with `ValidationError` exactly when it matches but a
/// parameter is out of bounds; on every in-bounds expression it succeeds with
/// one roll set per requested repetition.
pub fn parse_and_roll(expression: &str) -> (r: Result<Vec<RollSet>, RollError>)
    ensures
        (match r {
            Ok(sets) => exists|v: RollSpecV|
                #[trigger] expr_matches(expression@, v) && spec_in_bounds(v) && sets@.len()
                    == v.count && (forall|s: int|
                    0 <= s < sets@.len() ==> outcome_set(
                        #[trigger] sets@[s]@,
                        v,
                        body_of(expression@),
                    )),
            Err(RollError::ParseError) => forall|v: RollSpecV| !expr_matches(expression@, v),
            Err(RollError::ValidationError) => exists|v: RollSpecV|
                expr_matches(expression@, v) && !spec_in_bounds(v),
        }),
        (exists|v: RollSpecV| expr_matches(expression@, v) && spec_in_bounds(v)) ==> r is Ok,
{
    let cs = chars_of(expression);
    match parse_at(&cs) {
        Err(e) => Err(e),
        Ok(parsed) => {
            let spec = parsed.0;
            let b = parsed.1;
            let ghost v = spec@;
            let n = expression.unicode_len();
            let body = expression.substring_char(b, n).to_owned();
            assert(body@ == body_of(expression@));
            let sets = roll(spec.count, spec.dice_count, spec.sides, body);
            match spec.keep_drop_op {
                None => {
                    assert(forall|s: int|
                        0 <= s < sets@.len() ==> outcome_set(
                            #[trigger] sets@[s]@,
                            v,
                            body_of(expression@),
                        ));
                    Ok(sets)
                },
                Some(op) => {
                    let kd_n = spec.keep_drop_count;
                    let mut rest = sets;
                    let mut out: Vec<RollSet> = Vec::new();
                    let ghost total_len = rest@.len();
                    while rest.len() > 0
                        invariant
                            out@.len() + rest@.len() == total_len,
                            v.keep_drop_op == Some(op),
                            kd_n as int == v.keep_drop_count,
                            spec_in_bounds(v),
                            forall|s: int|
                                0 <= s < rest@.len() ==> generated_set(
                                    #[trigger] rest@[s]@,
                                    v.dice_count,
                                    v.sides,
                                    body_of(expression@),
                                ),
                            forall|s: int| 0 <= s < rest@.len() ==> set_wf(#[trigger] rest@[s]@),
                            forall|s: int|
                                0 <= s < out@.len() ==> outcome_set(
                                    #[trigger] out@[s]@,
                                    v,
                                    body_of(expression@),
                                ),
                        decreases rest@.len(),
                    {
                        let mut one = rest.remove(0);
                        let ghost before = one@;
                        resolve(&mut one, op, kd_n);
                        proof {
                            assert(one@ == resolved(before, op, kd_n as int));
                            assert(die_values(one@.dice) =~= die_values(before.dice));
                            lemma_kept_sum_bound(
                                die_values(before.dice),
                                op,
                                kd_n as int,
                                die_values(before.dice).len() as int,
                            );
                            assert(outcome_set(one@, v, body_of(expression@)));
                        }
                        out.push(one);
                    }
                    Ok(out)
                },
            }
        },
    }
}

} // verus!
