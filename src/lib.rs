//! A stereo gain stage with a smoothed gain control and a bypass switch.
//!
//! Gains are held in microdecibels. A normalized control position maps
//! linearly onto the decibel range, and gain changes follow a ramp that is
//! linear in decibels, so logarithmic in linear gain.

pub mod amplifier;
pub mod range;
pub mod smoother;

pub use amplifier::{GainParam, SimpleAmplifier, SimpleAmplifierParams};
