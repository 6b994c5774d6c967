//! Haptic hazard guidance for a walking wearer: a streaming NMEA position
//! parser, a hazard index over tagged map geometry, the duty-cycle state of the
//! vibration motors, and the decisions of the control loop that ties them
//! together.
//!
//! Coordinates are fixed-point integers in ten-millionths of a degree, and
//! directions are displacements rather than angles, so every computation here
//! is exact integer arithmetic.

pub mod geometry;
pub mod gps;
pub mod overpass;
pub mod hazard_analyzer;
pub mod motor;
pub mod safewalk;
