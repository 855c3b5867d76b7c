//! The core data types: a single die and a set of dice rolled together.

use vstd::prelude::*;
use crate::{MAX_DICE, MAX_SIDES};

verus! {

/// One rolled die: its value, whether it is currently kept, and an opaque
/// identifier assigned at roll time.
#[derive(Clone, Debug)]
pub struct DieRoll {
    pub value: u32,
    pub keep: bool,
    pub uuid: String,
}

/// Mathematical image of a [`DieRoll`].
#[verifier::ext_equal]
pub ghost struct DieRollV {
    pub value: u32,
    pub keep: bool,
    pub uuid: Seq<char>,
}

impl View for DieRoll {
    type V = DieRollV;

    open spec fn view(&self) -> DieRollV {
        DieRollV { value: self.value, keep: self.keep, uuid: self.uuid@ }
    }
}

impl DieRoll {
    pub fn new(value: u32, keep: bool, uuid: String) -> (r: Self)
        ensures
            r.value == value,
            r.keep == keep,
            r.uuid@ == uuid@,
    {
        DieRoll { value, keep, uuid }
    }
}

/// A group of dice rolled together, its running total, and the sub-expression
/// text that asked for it.  `total` stays 0 until a keep/drop rule is applied.
#[derive(Clone, Debug)]
pub struct RollSet {
    pub dice: Vec<DieRoll>,
    pub total: u32,
    pub roll_string: String,
}

/// Mathematical image of a [`RollSet`].
#[verifier::ext_equal]
pub ghost struct RollSetV {
    pub dice: Seq<DieRollV>,
    pub total: u32,
    pub roll_string: Seq<char>,
}

pub open spec fn dice_view(dice: Seq<DieRoll>) -> Seq<DieRollV> {
    dice.map(|i: int, d: DieRoll| d@)
}

impl View for RollSet {
    type V = RollSetV;

    open spec fn view(&self) -> RollSetV {
        RollSetV {
            dice: dice_view(self.dice@),
            total: self.total,
            roll_string: self.roll_string@,
        }
    }
}

/// The bounds every roll set handed out by this library observes: no more than
/// `MAX_DICE` dice, each with a value in `[1, MAX_SIDES]`.  They keep every
/// total far below `u32::MAX`.
pub open spec fn set_wf(sv: RollSetV) -> bool {
    &&& sv.dice.len() <= MAX_DICE
    &&& forall|i: int| 0 <= i < sv.dice.len() ==> 1 <= #[trigger] sv.dice[i].value <= MAX_SIDES
}

impl RollSet {
    pub fn new(dice: Vec<DieRoll>, roll_string: String) -> (r: Self)
        ensures
            r@.dice == dice_view(dice@),
            r@.total == 0,
            r@.roll_string == roll_string@,
    {
        RollSet { dice, total: 0, roll_string }
    }

    pub open spec fn wf(&self) -> bool {
        set_wf(self@)
    }
}

} // verus!
