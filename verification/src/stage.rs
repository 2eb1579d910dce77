//! The review-stage enumeration and its fixed total order.
//!
//! A set moves through the stages `Tobe` (intake), one day, two days, three
//! days, five days, seven days and finally ten days; the last stage is
//! terminal and absorbing. Each stage carries a fixed eligibility offset
//! measured from the instant the set entered the stage.

use vstd::prelude::*;

verus! {

/// One day, in milliseconds.
pub const DAY_MILLIS: i64 = 86_400_000;

/// The review stage of a set. `Tobe` is the initial (intake) stage, the
/// stages after it are named for the review interval they impose, and
/// `TenDay` is the terminal stage that triggers migration to the archive.
#[derive(PartialEq, Eq, Structural, Debug, Clone, Copy)]
pub enum LearnSetState {
    Tobe,
    OneDay,
    TwoDay,
    ThreeDay,
    FiveDay,
    SevenDay,
    TenDay,
}

/// The coarse two-stage classification kept by earlier designs of the
/// schedule: a set is either still being filled (`Tobe`) or under review
/// (`Current`). It is a projection of [`LearnSetState`], see
/// [`LearnSetState::as_set_state`].
#[derive(PartialEq, Eq, Structural, Debug, Clone, Copy)]
pub enum SetState {
    Tobe,
    Current,
}

impl LearnSetState {
    /// Position of the stage in the fixed total order, starting at zero.
    pub open spec fn index(self) -> int {
        match self {
            LearnSetState::Tobe => 0,
            LearnSetState::OneDay => 1,
            LearnSetState::TwoDay => 2,
            LearnSetState::ThreeDay => 3,
            LearnSetState::FiveDay => 4,
            LearnSetState::SevenDay => 5,
            LearnSetState::TenDay => 6,
        }
    }

    /// The stage at a given position of the fixed total order.
    pub open spec fn from_index(i: int) -> LearnSetState {
        if i <= 0 {
            LearnSetState::Tobe
        } else if i == 1 {
            LearnSetState::OneDay
        } else if i == 2 {
            LearnSetState::TwoDay
        } else if i == 3 {
            LearnSetState::ThreeDay
        } else if i == 4 {
            LearnSetState::FiveDay
        } else if i == 5 {
            LearnSetState::SevenDay
        } else {
            LearnSetState::TenDay
        }
    }

    /// Whether this is the terminal, absorbing stage.
    pub open spec fn spec_is_terminal(self) -> bool {
        self is TenDay
    }

    /// Whether this is the terminal, absorbing stage.
    pub fn is_terminal(self) -> (r: bool)
        ensures
            r == self.spec_is_terminal(),
    {
        self == LearnSetState::TenDay
    }

    /// The stage that one promotion step reaches from this stage.
    pub open spec fn spec_next(self) -> LearnSetState {
        match self {
            LearnSetState::Tobe => LearnSetState::OneDay,
            LearnSetState::OneDay => LearnSetState::TwoDay,
            LearnSetState::TwoDay => LearnSetState::ThreeDay,
            LearnSetState::ThreeDay => LearnSetState::FiveDay,
            LearnSetState::FiveDay => LearnSetState::SevenDay,
            LearnSetState::SevenDay => LearnSetState::TenDay,
            LearnSetState::TenDay => LearnSetState::TenDay,
        }
    }

    /// Advance one step in the fixed order; the terminal stage is absorbing.
    pub fn next(self) -> (r: LearnSetState)
        ensures
            r == self.spec_next(),
    {
        match self {
            LearnSetState::Tobe => LearnSetState::OneDay,
            LearnSetState::OneDay => LearnSetState::TwoDay,
            LearnSetState::TwoDay => LearnSetState::ThreeDay,
            LearnSetState::ThreeDay => LearnSetState::FiveDay,
            LearnSetState::FiveDay => LearnSetState::SevenDay,
            LearnSetState::SevenDay => LearnSetState::TenDay,
            LearnSetState::TenDay => LearnSetState::TenDay,
        }
    }

    /// Eligibility offset of the stage, in milliseconds: the time that must
    /// pass after entering the stage before the set is due for review.
    pub open spec fn spec_offset_millis(self) -> int {
        match self {
            LearnSetState::Tobe => 0,
            LearnSetState::OneDay => 1 * DAY_MILLIS,
            LearnSetState::TwoDay => 2 * DAY_MILLIS,
            LearnSetState::ThreeDay => 3 * DAY_MILLIS,
            LearnSetState::FiveDay => 5 * DAY_MILLIS,
            LearnSetState::SevenDay => 7 * DAY_MILLIS,
            LearnSetState::TenDay => 10 * DAY_MILLIS,
        }
    }

    /// Eligibility offset of the stage, in milliseconds.
    pub fn offset_millis(self) -> (r: i64)
        ensures
            r == self.spec_offset_millis(),
            0 <= r <= 10 * DAY_MILLIS,
    {
        match self {
            LearnSetState::Tobe => 0,
            LearnSetState::OneDay => DAY_MILLIS,
            LearnSetState::TwoDay => 2 * DAY_MILLIS,
            LearnSetState::ThreeDay => 3 * DAY_MILLIS,
            LearnSetState::FiveDay => 5 * DAY_MILLIS,
            LearnSetState::SevenDay => 7 * DAY_MILLIS,
            LearnSetState::TenDay => 10 * DAY_MILLIS,
        }
    }

    /// Projection onto the coarse two-stage classification: only the intake
    /// stage counts as `Tobe`, every later stage as `Current`.
    pub open spec fn spec_as_set_state(self) -> SetState {
        if self is Tobe {
            SetState::Tobe
        } else {
            SetState::Current
        }
    }

    /// Projection onto the coarse two-stage classification.
    pub fn as_set_state(self) -> (r: SetState)
        ensures
            r == self.spec_as_set_state(),
    {
        if self == LearnSetState::Tobe {
            SetState::Tobe
        } else {
            SetState::Current
        }
    }
}

/// Promotion never skips a stage and never regresses: one step from any
/// stage lands exactly one position further in the fixed order, capped at
/// the terminal stage.
pub proof fn lemma_promotion_order(s: LearnSetState)
    ensures
        s.spec_next().index() == if s.index() < 6 { s.index() + 1 } else { 6int },
        s.spec_next() == LearnSetState::from_index(s.index() + 1),
        s.index() < 6 ==> s.spec_next().index() > s.index(),
{
}

/// The eligibility offsets are strictly increasing along the stage order:
/// a later stage always imposes a longer review interval.
pub proof fn lemma_offsets_increase(a: LearnSetState, b: LearnSetState)
    requires
        a.index() < b.index(),
    ensures
        a.spec_offset_millis() < b.spec_offset_millis(),
{
}

} // verus!
