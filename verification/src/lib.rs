//! Measurement logic for a mouse testing suite: report formats, capture
//! bookkeeping and the verdicts the analyses hand back.
use vstd::prelude::*;

pub mod ab;
pub mod abstats;
pub mod battery;
pub mod capture;
pub mod clock;
pub mod cps;
pub mod debounce;
pub mod deflate;
pub mod export;
pub mod hid_descriptor;
pub mod inflate;
pub mod png;
pub mod polling;
pub mod ring;
pub mod sample;
pub mod sections;
pub mod sensor;
pub mod session_log;
pub mod summary;
pub mod sim;
pub mod text;
pub mod wrap;

verus! {
}
