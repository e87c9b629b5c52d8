//! Lift-off distance: what one run at one height concluded.
use vstd::prelude::*;

verus! {

/// What one run at one height concluded about tracking.
#[derive(Clone, Copy, PartialEq, Eq, Debug, Structural)]
pub enum LodState {
    /// Nothing usable; read the note.
    Unknown,
    /// The sensor saw the pad through the slot the whole way.
    KeptTracking,
    /// The sensor lost the pad over the slot, repeatably and in one place.
    Lost,
    /// It lost the pad on some passes and not others: near the threshold.
    Marginal,
}

impl Default for LodState {
    fn default() -> (s: Self)
        ensures
            s == LodState::Unknown,
    {
        LodState::Unknown
    }
}

} // verus!
