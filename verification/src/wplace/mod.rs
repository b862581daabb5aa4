pub mod color_map;
pub mod raster;
pub mod overlay;
pub mod image_compose;
pub mod compare;
pub mod group;
pub mod image_laws;
