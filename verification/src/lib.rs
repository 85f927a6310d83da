//! Scene, save-file and raster logic for the Ink Ribbon map.

pub mod wire;
pub mod calendar;
pub mod scene;
pub mod save;
pub mod raster;
pub mod bake;
pub mod walls;
