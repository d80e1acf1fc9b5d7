//! Geometry and decision logic of the watermark remover.
use vstd::prelude::*;

pub mod catalog;
pub mod controls;
pub mod engine;
pub mod profile;
pub mod raster;
pub mod ui;

verus! {

} // verus!
