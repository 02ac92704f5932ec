//! Building blocks for testing device-mapper targets: sector arithmetic,
//! a free-space pool that hands out disjoint pieces of a backing device,
//! and the text formats of device-mapper tables and status lines.

pub mod decimal;
pub mod dm;
pub mod env;
pub mod io;
pub mod rand_name;
pub mod sector;
pub mod stack;
pub mod writeboost;

pub use sector::Sector;
