//! Device-state tracking for an indoor positioning deployment: a registry of
//! beacons and mobile tags, the rules that merge live position reports into
//! it and choose which samples go to the recording, and the parser of the
//! floorplan and beacon configuration that seeds it.

pub mod numeral;
pub mod registry;
pub mod text;
pub mod ini_doc;
pub mod config;
