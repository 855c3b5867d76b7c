//! End-to-end tests of the dice engine: grammar extraction, generation
//! bounds, keep/drop resolution, and the orchestrated pipeline.

use dice_engine::dice::{DieRoll, RollSet};
use dice_engine::parse::{parse, ArithOp, KeepDrop, RollError};
use dice_engine::resolve::resolve;
use dice_engine::roll::roll;
use dice_engine::session::parse_and_roll;

fn set_of(values: &[u32]) -> RollSet {
    let dice: Vec<DieRoll> = values
        .iter()
        .enumerate()
        .map(|(i, &v)| DieRoll::new(v, true, format!("die-{}", i)))
        .collect();
    RollSet::new(dice, "test".to_string())
}

fn keep_flags(set: &RollSet) -> Vec<bool> {
    set.dice.iter().map(|d| d.keep).collect()
}

// ---------------------------------------------------------------------------
// Parser
// ---------------------------------------------------------------------------

#[test]
fn parse_full_expression() {
    let spec = parse("3@2d6kh1").unwrap();
    assert_eq!(spec.count, 3);
    assert_eq!(spec.dice_count, 2);
    assert_eq!(spec.sides, 6);
    assert_eq!(spec.keep_drop_op, Some(KeepDrop::KeepHigh));
    assert_eq!(spec.keep_drop_count, 1);
    assert_eq!(spec.arith_op, None);
    assert_eq!(spec.arith_value, 0);
}

#[test]
fn parse_defaults() {
    let spec = parse("d20").unwrap();
    assert_eq!(spec.count, 1);
    assert_eq!(spec.dice_count, 1);
    assert_eq!(spec.sides, 20);
    assert_eq!(spec.keep_drop_op, None);
    assert_eq!(spec.keep_drop_count, 1);
    assert_eq!(spec.arith_op, None);
    assert_eq!(spec.arith_value, 0);
}

#[test]
fn parse_keep_drop_default_count() {
    let spec = parse("4d6kh").unwrap();
    assert_eq!(spec.dice_count, 4);
    assert_eq!(spec.sides, 6);
    assert_eq!(spec.keep_drop_op, Some(KeepDrop::KeepHigh));
    assert_eq!(spec.keep_drop_count, 1);
}

#[test]
fn parse_all_keep_drop_ops() {
    assert_eq!(parse("4d6kh2").unwrap().keep_drop_op, Some(KeepDrop::KeepHigh));
    assert_eq!(parse("4d6kl2").unwrap().keep_drop_op, Some(KeepDrop::KeepLow));
    assert_eq!(parse("4d6dh2").unwrap().keep_drop_op, Some(KeepDrop::DropHigh));
    assert_eq!(parse("4d6dl2").unwrap().keep_drop_op, Some(KeepDrop::DropLow));
}

#[test]
fn parse_arithmetic_token() {
    let spec = parse("2d6+3").unwrap();
    assert_eq!(spec.arith_op, Some(ArithOp::Add));
    assert_eq!(spec.arith_value, 3);
    assert_eq!(parse("2d6-1").unwrap().arith_op, Some(ArithOp::Sub));
    assert_eq!(parse("2d6*2").unwrap().arith_op, Some(ArithOp::Mul));
    assert_eq!(parse("2d6/2").unwrap().arith_op, Some(ArithOp::Div));
}

#[test]
fn parse_combined_tokens() {
    let spec = parse("2@4d6kl3-2").unwrap();
    assert_eq!(spec.count, 2);
    assert_eq!(spec.dice_count, 4);
    assert_eq!(spec.sides, 6);
    assert_eq!(spec.keep_drop_op, Some(KeepDrop::KeepLow));
    assert_eq!(spec.keep_drop_count, 3);
    assert_eq!(spec.arith_op, Some(ArithOp::Sub));
    assert_eq!(spec.arith_value, 2);
}

#[test]
fn parse_leading_zeros() {
    let spec = parse("007d008").unwrap();
    assert_eq!(spec.dice_count, 7);
    assert_eq!(spec.sides, 8);
}

#[test]
fn parse_rejects_garbage() {
    assert_eq!(parse("banana"), Err(RollError::ParseError));
    assert_eq!(parse(""), Err(RollError::ParseError));
    assert_eq!(parse("2d"), Err(RollError::ParseError));
    assert_eq!(parse("d6x"), Err(RollError::ParseError));
    assert_eq!(parse("1d6k"), Err(RollError::ParseError));
    assert_eq!(parse("4d6kh2+"), Err(RollError::ParseError));
    assert_eq!(parse("2@"), Err(RollError::ParseError));
    assert_eq!(parse("@d6"), Err(RollError::ParseError));
    assert_eq!(parse("2 d6"), Err(RollError::ParseError));
    assert_eq!(parse("2D6"), Err(RollError::ParseError));
}

#[test]
fn parse_rejects_out_of_bounds() {
    assert_eq!(parse("1d0"), Err(RollError::ValidationError));
    assert_eq!(parse("101@1d6"), Err(RollError::ValidationError));
    assert_eq!(parse("1001d6"), Err(RollError::ValidationError));
    assert_eq!(parse("1d1000001"), Err(RollError::ValidationError));
    assert_eq!(parse("1d99999999999999999999"), Err(RollError::ValidationError));
}

#[test]
fn parse_accepts_exact_bounds() {
    let spec = parse("100@1000d1000000").unwrap();
    assert_eq!(spec.count, 100);
    assert_eq!(spec.dice_count, 1000);
    assert_eq!(spec.sides, 1000000);
}

// ---------------------------------------------------------------------------
// Generator
// ---------------------------------------------------------------------------

#[test]
fn roll_shape_and_ranges() {
    let sets = roll(3, 4, 6, "4d6".to_string());
    assert_eq!(sets.len(), 3);
    for set in &sets {
        assert_eq!(set.dice.len(), 4);
        assert_eq!(set.total, 0);
        assert_eq!(set.roll_string, "4d6");
        for d in &set.dice {
            assert!(1 <= d.value && d.value <= 6);
            assert!(d.keep);
        }
    }
}

#[test]
fn roll_one_sided_dice_are_ones() {
    let sets = roll(2, 5, 1, "5d1".to_string());
    for set in &sets {
        for d in &set.dice {
            assert_eq!(d.value, 1);
        }
    }
}

#[test]
fn roll_assigns_fresh_identifiers() {
    let sets = roll(1, 3, 6, "3d6".to_string());
    let dice = &sets[0].dice;
    for d in dice {
        assert_eq!(d.uuid.len(), 36);
    }
    assert_ne!(dice[0].uuid, dice[1].uuid);
    assert_ne!(dice[1].uuid, dice[2].uuid);
    assert_ne!(dice[0].uuid, dice[2].uuid);
}

// ---------------------------------------------------------------------------
// Resolver
// ---------------------------------------------------------------------------

#[test]
fn resolve_keep_high() {
    let mut set = set_of(&[3, 5, 3, 1]);
    resolve(&mut set, KeepDrop::KeepHigh, 2);
    // Descending order with position tie-break: 5(#1), 3(#0), 3(#2), 1(#3).
    assert_eq!(keep_flags(&set), vec![true, true, false, false]);
    assert_eq!(set.total, 8);
}

#[test]
fn resolve_keep_low() {
    let mut set = set_of(&[3, 5, 3, 1]);
    resolve(&mut set, KeepDrop::KeepLow, 1);
    assert_eq!(keep_flags(&set), vec![false, false, false, true]);
    assert_eq!(set.total, 1);
}

#[test]
fn resolve_drop_high() {
    let mut set = set_of(&[3, 5, 3, 1]);
    resolve(&mut set, KeepDrop::DropHigh, 1);
    assert_eq!(keep_flags(&set), vec![true, false, true, true]);
    assert_eq!(set.total, 7);
}

#[test]
fn resolve_drop_low() {
    let mut set = set_of(&[3, 5, 3, 1]);
    resolve(&mut set, KeepDrop::DropLow, 2);
    assert_eq!(keep_flags(&set), vec![true, true, false, false]);
    assert_eq!(set.total, 8);
}

#[test]
fn resolve_ties_broken_by_position() {
    let mut set = set_of(&[4, 4, 4]);
    resolve(&mut set, KeepDrop::KeepHigh, 2);
    // Equal values: the earlier dice win the keep slots.
    assert_eq!(keep_flags(&set), vec![true, true, false]);
    assert_eq!(set.total, 8);
}

#[test]
fn resolve_clamps_keep_count() {
    let mut set = set_of(&[2, 3, 4, 5]);
    resolve(&mut set, KeepDrop::KeepHigh, 10);
    assert_eq!(keep_flags(&set), vec![true, true, true, true]);
    assert_eq!(set.total, 14);

    let mut set = set_of(&[2, 3, 4, 5]);
    resolve(&mut set, KeepDrop::DropLow, 10);
    assert_eq!(keep_flags(&set), vec![false, false, false, false]);
    assert_eq!(set.total, 0);
}

#[test]
fn resolve_empty_set() {
    let mut set = set_of(&[]);
    resolve(&mut set, KeepDrop::KeepHigh, 3);
    assert_eq!(set.dice.len(), 0);
    assert_eq!(set.total, 0);
}

#[test]
fn resolve_preserves_values_order_and_ids() {
    let mut set = set_of(&[9, 1, 5]);
    let before: Vec<(u32, String)> =
        set.dice.iter().map(|d| (d.value, d.uuid.clone())).collect();
    resolve(&mut set, KeepDrop::KeepLow, 2);
    let after: Vec<(u32, String)> =
        set.dice.iter().map(|d| (d.value, d.uuid.clone())).collect();
    assert_eq!(before, after);
    assert_eq!(set.roll_string, "test");
}

#[test]
fn resolve_is_idempotent() {
    let mut set = set_of(&[6, 2, 6, 4, 1]);
    resolve(&mut set, KeepDrop::KeepHigh, 3);
    let flags = keep_flags(&set);
    let total = set.total;
    resolve(&mut set, KeepDrop::KeepHigh, 3);
    assert_eq!(keep_flags(&set), flags);
    assert_eq!(set.total, total);
}

// ---------------------------------------------------------------------------
// Orchestrated pipeline
// ---------------------------------------------------------------------------

#[test]
fn scenario_plain_roll() {
    let sets = parse_and_roll("2d20").unwrap();
    assert_eq!(sets.len(), 1);
    assert_eq!(sets[0].dice.len(), 2);
    assert_eq!(sets[0].total, 0);
    assert_eq!(sets[0].roll_string, "2d20");
    for d in &sets[0].dice {
        assert!(1 <= d.value && d.value <= 20);
        assert!(d.keep);
    }
}

#[test]
fn scenario_keep_high_three() {
    let sets = parse_and_roll("4d6kh3").unwrap();
    assert_eq!(sets.len(), 1);
    let set = &sets[0];
    assert_eq!(set.dice.len(), 4);
    for d in &set.dice {
        assert!(1 <= d.value && d.value <= 6);
    }
    let kept: Vec<u32> = set.dice.iter().filter(|d| d.keep).map(|d| d.value).collect();
    assert_eq!(kept.len(), 3);
    // The kept dice are the three highest values.
    let mut all: Vec<u32> = set.dice.iter().map(|d| d.value).collect();
    all.sort_unstable_by(|a, b| b.cmp(a));
    let mut kept_sorted = kept.clone();
    kept_sorted.sort_unstable_by(|a, b| b.cmp(a));
    assert_eq!(kept_sorted, all[..3].to_vec());
    assert_eq!(set.total, kept.iter().sum::<u32>());
}

#[test]
fn scenario_two_repetitions() {
    let sets = parse_and_roll("2@1d20").unwrap();
    assert_eq!(sets.len(), 2);
    for set in &sets {
        assert_eq!(set.dice.len(), 1);
        assert!(1 <= set.dice[0].value && set.dice[0].value <= 20);
        assert_eq!(set.roll_string, "1d20");
    }
}

#[test]
fn scenario_garbage_is_a_parse_error() {
    assert_eq!(parse_and_roll("banana").unwrap_err(), RollError::ParseError);
}

#[test]
fn scenario_zero_sides_is_a_validation_error() {
    assert_eq!(parse_and_roll("1d0").unwrap_err(), RollError::ValidationError);
}

#[test]
fn arithmetic_modifier_is_never_applied() {
    // Parsed, carried, but no total is touched by it: without a keep/drop
    // token the total stays 0 whatever the modifier says.
    let sets = parse_and_roll("2d6+5").unwrap();
    assert_eq!(sets[0].total, 0);
    // With a keep/drop token the total is the kept sum alone.
    let sets = parse_and_roll("4d6kh3+5").unwrap();
    let kept_sum: u32 =
        sets[0].dice.iter().filter(|d| d.keep).map(|d| d.value).sum();
    assert_eq!(sets[0].total, kept_sum);
}

#[test]
fn drop_low_pipeline() {
    let sets = parse_and_roll("4d6dl1").unwrap();
    let set = &sets[0];
    let kept: Vec<u32> = set.dice.iter().filter(|d| d.keep).map(|d| d.value).collect();
    assert_eq!(kept.len(), 3);
    let min = set.dice.iter().map(|d| d.value).min().unwrap();
    // The dropped die carries the minimum value.
    let dropped: Vec<u32> =
        set.dice.iter().filter(|d| !d.keep).map(|d| d.value).collect();
    assert_eq!(dropped, vec![min]);
    assert_eq!(set.total, kept.iter().sum::<u32>());
}

#[test]
fn zero_count_yields_no_sets() {
    let sets = parse_and_roll("0@1d6").unwrap();
    assert_eq!(sets.len(), 0);
}

#[test]
fn largest_allowed_request() {
    let sets = parse_and_roll("100@1000d1000000").unwrap();
    assert_eq!(sets.len(), 100);
    assert_eq!(sets[0].dice.len(), 1000);
}

#[test]
fn large_keep_drop_count_is_clamped() {
    let sets = parse_and_roll("2d6kh4294967295").unwrap();
    assert!(sets[0].dice.iter().all(|d| d.keep));
    let sum: u32 = sets[0].dice.iter().map(|d| d.value).sum();
    assert_eq!(sets[0].total, sum);
}

#[test]
fn oversized_keep_drop_count_is_a_validation_error() {
    assert_eq!(parse_and_roll("2d6kh4294967296").unwrap_err(), RollError::ValidationError);
}
