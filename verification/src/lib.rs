//! Bookkeeping for a lockstep ensemble of simulated worlds: which worlds are
//! still followed, how many kernel steps they have taken, and which were
//! retired when.
//!
//! The numbers of the simulation itself are worked out elsewhere. They reach
//! this library as bit patterns, and it answers with decisions.
pub mod deviation;
pub mod encoding;
pub mod exclusion;
pub mod history;
pub mod retirement;
pub mod sample;
pub mod simulation;

pub use deviation::{deviation_is_positive, first_unperturbed, ratio_reaches_threshold};
pub use exclusion::pair_is_excluded;
pub use sample::step_bounds;
pub use simulation::{Datapoint, SetupError, Simulation, PER_ITER};
