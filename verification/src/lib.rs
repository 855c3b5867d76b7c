//! A dice-notation engine: parses compact expressions such as `4d6kh3`,
//! rolls the requested dice, and applies keep/drop selection rules.

pub mod dice;
pub mod parse;
pub mod resolve;
pub mod roll;
pub mod session;

use vstd::prelude::*;

verus! {

/// Upper bound on the number of roll repetitions (`N@`) a single request may ask for.
pub const MAX_COUNT: u32 = 100;

/// Upper bound on the number of dice in a single roll set.
pub const MAX_DICE: u32 = 1000;

/// Upper bound on the number of sides of a die.
pub const MAX_SIDES: u32 = 1_000_000;

} // verus!
