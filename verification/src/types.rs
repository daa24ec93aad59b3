//! Errors and results of the equity solver.

use vstd::prelude::*;

verus! {

/// One hundred percent, in equity units.
///
/// Equities are integers in `0..=EQUITY_SCALE`; a player holding the whole
/// pot scores `EQUITY_SCALE`. The engines keep the per-player sum within
/// `2 * N` units of the full scale, a relative error below `10^-10`.
pub const EQUITY_SCALE: u64 = 1_000_000_000_000;

/// Errors that can occur in the core engine.
///
/// Covers invalid card strings, malformed hands, and unparseable ranges.
#[derive(Debug, Clone)]
pub enum SnapError {
    /// A card string could not be parsed (e.g. `"Xz"`).
    InvalidCard(String),
    /// A hand is structurally invalid (e.g. wrong number of cards, duplicates).
    InvalidHand(String),
    /// A range expression could not be parsed or produced no hands.
    InvalidRange(String),
}

impl SnapError {
    /// The human-readable message: a fixed prefix for the error kind,
    /// followed by the offending input or a detail sentence.
    pub fn message(&self) -> (r: String)
        ensures
            r@ == self.message_spec(),
    {
        match self {
            SnapError::InvalidCard(s) => {
                let mut m = String::from_str("Invalid card string: ");
                m.append(s.as_str());
                m
            },
            SnapError::InvalidHand(s) => {
                let mut m = String::from_str("Invalid hand: ");
                m.append(s.as_str());
                m
            },
            SnapError::InvalidRange(s) => {
                let mut m = String::from_str("Invalid range: ");
                m.append(s.as_str());
                m
            },
        }
    }

    /// What [`SnapError::message`] returns.
    pub open spec fn message_spec(&self) -> Seq<char> {
        match self {
            SnapError::InvalidCard(s) => "Invalid card string: "@ + s@,
            SnapError::InvalidHand(s) => "Invalid hand: "@ + s@,
            SnapError::InvalidRange(s) => "Invalid range: "@ + s@,
        }
    }
}

impl PartialEq for SnapError {
    fn eq(&self, other: &SnapError) -> (r: bool) {
        match (self, other) {
            (SnapError::InvalidCard(a), SnapError::InvalidCard(b)) => a.eq(b),
            (SnapError::InvalidHand(a), SnapError::InvalidHand(b)) => a.eq(b),
            (SnapError::InvalidRange(a), SnapError::InvalidRange(b)) => a.eq(b),
            _ => false,
        }
    }
}

impl vstd::std_specs::cmp::PartialEqSpecImpl for SnapError {
    open spec fn obeys_eq_spec() -> bool {
        true
    }

    open spec fn eq_spec(&self, other: &SnapError) -> bool {
        match (self, other) {
            (SnapError::InvalidCard(a), SnapError::InvalidCard(b)) => a@ == b@,
            (SnapError::InvalidHand(a), SnapError::InvalidHand(b)) => a@ == b@,
            (SnapError::InvalidRange(a), SnapError::InvalidRange(b)) => a@ == b@,
            _ => false,
        }
    }
}

/// Solve mode used by the equity engine.
#[derive(Debug, Clone, Copy, PartialEq, Eq, Structural)]
pub enum EquityEstimateMode {
    ExactEnumeration,
    MonteCarlo,
}

/// Size bookkeeping of one solve: how large the state space was and what
/// budget the caller allowed.
#[derive(Debug, Clone, Copy, PartialEq, Eq, Structural)]
pub struct EquityMath {
    /// The iteration budget after defaulting (`0` means 10,000).
    pub iteration_budget: usize,
    /// Valid hand assignments, counted up to one past the exact-mode limit.
    pub assignment_combinations: u128,
    /// Board runouts per assignment.
    pub board_runout_combinations: u128,
    /// `assignment_combinations * board_runout_combinations`, saturating.
    pub total_states: u128,
}

/// Full equity result with per-player equities and computation metadata.
///
/// - `equities[i]` is player i's pot share in units of [`EQUITY_SCALE`] = 100%.
/// - `mode` tells which engine ran.
/// - `samples` is the number of states enumerated (exact) or valid
///   iterations completed (Monte Carlo).
#[derive(Debug, Clone)]
pub struct EquityResult {
    pub equities: Vec<u64>,
    pub mode: EquityEstimateMode,
    pub samples: usize,
    pub math: EquityMath,
}

} // verus!
