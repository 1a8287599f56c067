//! Graph analysis algorithms.

pub mod load_bearing;

pub use load_bearing::compute_load_bearing;
pub use load_bearing::LoadBearing;
