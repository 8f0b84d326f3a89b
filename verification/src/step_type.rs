//! Labelling a step by the shape of its current.

use vstd::prelude::*;

verus! {

/// The electrochemical mode of a step.
#[derive(Debug, Clone, Copy, PartialEq, Eq, Structural)]
pub enum StepType {
    /// No current flows.
    Rest,
    /// Discharge at constant current.
    CcDChg,
    /// Discharge at constant current, then at constant voltage.
    CccvDChg,
    /// Charge at constant current.
    CcChg,
    /// Charge at constant current, then at constant voltage.
    CccvChg,
}

impl StepType {
    /// The label under which the type is written out.
    pub open spec fn label_spec(self) -> Seq<char> {
        match self {
            StepType::Rest => "Rest"@,
            StepType::CcDChg => "CC_DChg"@,
            StepType::CccvDChg => "CCCV_DChg"@,
            StepType::CcChg => "CC_Chg"@,
            StepType::CccvChg => "CCCV_Chg"@,
        }
    }

    /// The label under which the type is written out.
    pub fn label(&self) -> (s: &'static str)
        ensures
            s@ == self.label_spec(),
    {
        match self {
            StepType::Rest => "Rest",
            StepType::CcDChg => "CC_DChg",
            StepType::CccvDChg => "CCCV_DChg",
            StepType::CcChg => "CC_Chg",
            StepType::CccvChg => "CCCV_Chg",
        }
    }
}

/// The type of a step whose first sample carries the current `first` and
/// whose last sample carries the current `last`.
///
/// A current that has shrunk in magnitude below 95% of its initial value
/// marks the constant-voltage tail. A current exactly at 95% has not tapered.
pub open spec fn step_type_of(first: int, last: int) -> StepType {
    if first == 0 {
        StepType::Rest
    } else if first < 0 {
        if 95 * first < 100 * last {
            StepType::CccvDChg
        } else {
            StepType::CcDChg
        }
    } else {
        if 95 * first > 100 * last {
            StepType::CccvChg
        } else {
            StepType::CcChg
        }
    }
}

/// Labels a step from the current of its first and of its last sample.
pub fn classify(first_current: i64, last_current: i64) -> (label: StepType)
    ensures
        label == step_type_of(first_current as int, last_current as int),
{
    let scaled_first: i128 = 95 * (first_current as i128);
    let scaled_last: i128 = 100 * (last_current as i128);
    if first_current == 0 {
        StepType::Rest
    } else if first_current < 0 {
        if scaled_first < scaled_last {
            StepType::CccvDChg
        } else {
            StepType::CcDChg
        }
    } else {
        if scaled_first > scaled_last {
            StepType::CccvChg
        } else {
            StepType::CcChg
        }
    }
}

} // verus!
