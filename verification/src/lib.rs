//! Regression-diff engine for variable icon fonts.
//!
//! Given two builds of one font family, the library derives a finite set of
//! test coordinates per variation axis, combines them into the cartesian
//! grid of design-space locations, reconciles the icon sets and location
//! sets of the two builds, and judges whether two renderings of the same
//! icon at the same location are structurally equivalent.

pub mod artifact;
pub mod axis;
pub mod driver;
pub mod filter;
pub mod icon;
pub mod location;
pub mod outline;
pub mod raster;
pub mod reconcile;
pub mod text;
