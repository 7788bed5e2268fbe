//! The core of a planar gravity simulator: which planets exist, which pairs
//! of them attract and which collide, how collided planets are grouped and
//! merged, when spawn protection ends, and how long a trail remembers where
//! its planet has been.
//!
//! The library decides and keeps the books; it does not calculate physics.
//! Positions, velocities, masses and forces are values of the host's own
//! types, which the library carries and hands back, and whatever has to be
//! computed from them it asks the host for (see `tick::Physics`). Time is
//! counted in whole nanoseconds, and the host says what time it is.

pub mod clock;
pub mod emitters;
pub mod grouping;
pub mod planet;
pub mod scan;
pub mod sequences;
pub mod tick;
pub mod trail;
pub mod trails;
pub mod world;
