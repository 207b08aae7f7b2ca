//! Reduction operations and their wire codes.

use crate::rank::error::RankError;
use vstd::prelude::*;
use vstd::std_specs::convert::TryFromSpecImpl;

verus! {

#[derive(Debug, Clone, Copy, PartialEq, Eq, Structural)]
pub enum ReductionOperation {
    Sum,
    Product,
    Minimum,
    Maximum,
    BitAnd,
    BitOr,
    BitXor,
}

impl ReductionOperation {
    /// The operation's wire code.
    pub open spec fn spec_code(self) -> u32 {
        match self {
            ReductionOperation::Sum => 0,
            ReductionOperation::Product => 1,
            ReductionOperation::Minimum => 2,
            ReductionOperation::Maximum => 3,
            ReductionOperation::BitAnd => 4,
            ReductionOperation::BitOr => 5,
            ReductionOperation::BitXor => 6,
        }
    }

    /// The operation whose wire code is `value`.
    pub open spec fn from_code(value: u32) -> Result<ReductionOperation, RankError> {
        match value {
            0 => Ok(ReductionOperation::Sum),
            1 => Ok(ReductionOperation::Product),
            2 => Ok(ReductionOperation::Minimum),
            3 => Ok(ReductionOperation::Maximum),
            4 => Ok(ReductionOperation::BitAnd),
            5 => Ok(ReductionOperation::BitOr),
            6 => Ok(ReductionOperation::BitXor),
            _ => Err(RankError::InvalidLength("unknown collective reduction operation")),
        }
    }

    pub fn code(self) -> (code: u32)
        ensures
            code == self.spec_code(),
    {
        match self {
            ReductionOperation::Sum => 0,
            ReductionOperation::Product => 1,
            ReductionOperation::Minimum => 2,
            ReductionOperation::Maximum => 3,
            ReductionOperation::BitAnd => 4,
            ReductionOperation::BitOr => 5,
            ReductionOperation::BitXor => 6,
        }
    }
}

impl TryFromSpecImpl<u32> for ReductionOperation {
    open spec fn obeys_try_from_spec() -> bool {
        true
    }

    open spec fn try_from_spec(value: u32) -> Result<Self, RankError> {
        ReductionOperation::from_code(value)
    }
}

impl TryFrom<u32> for ReductionOperation {
    type Error = RankError;

    fn try_from(value: u32) -> (result: Result<Self, RankError>) {
        match value {
            0 => Ok(ReductionOperation::Sum),
            1 => Ok(ReductionOperation::Product),
            2 => Ok(ReductionOperation::Minimum),
            3 => Ok(ReductionOperation::Maximum),
            4 => Ok(ReductionOperation::BitAnd),
            5 => Ok(ReductionOperation::BitOr),
            6 => Ok(ReductionOperation::BitXor),
            _ => Err(RankError::InvalidLength("unknown collective reduction operation")),
        }
    }
}

/// Every operation is found again by its wire code.
pub proof fn law_reduction_code_round_trip(operation: ReductionOperation)
    ensures
        ReductionOperation::from_code(operation.spec_code()) == Ok::<_, RankError>(operation),
{
}

} // verus!
