//! Sensor behaviour: the motion report every detector reads, the wheel's
//! detent clustering, motion trimming, and what each sensor test asks of the
//! user.
pub mod lod;
pub mod protocol;
pub mod scroll;
pub mod seg;
pub mod types;
