//! Device-mapper targets stacked on a backing device.
pub mod flakey;
pub mod linear;
pub mod luks;
