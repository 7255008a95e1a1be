//! Calibration, registration and drizzle stacking of solar and lunar
//! SER video captures.

pub mod drizzle;
pub mod enums;
pub mod fpmap;
pub mod processing;
pub mod registration;
pub mod ser;
pub mod timestamp;
pub mod util;
