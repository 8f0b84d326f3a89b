//! Normalisation of battery-cycler telemetry into a step-segmented time
//! series, and its alignment in time with a displacement-sensor log.
//!
//! Every physical quantity is held as a signed integer count of a fixed unit
//! that the caller chooses (for instance microvolts and microamperes), so that
//! all arithmetic is exact.

pub mod align;
pub mod arbin;
pub mod clock;
pub mod counter;
pub mod error;
pub mod keyence;
pub mod segment;
pub mod step_type;
