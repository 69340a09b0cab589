//! Crops raster images to a fixed rectangle and either arranges the crops in a grid on one
//! canvas, or cuts every image into a grid of tiles and packs the tiles, encoded as PNG
//! files, into one ZIP archive.
//!
//! Images are held as row-major RGBA buffers ([`raster::Image`]) and modelled as rows of
//! pixels ([`raster::Raster`]). The geometry is verified against that model: cropping
//! ([`crop`]), grid composition ([`grid`]), tile placement and naming ([`archive`],
//! [`naming`]). PNG encoding and the ZIP container are left to the `image` and `zip`
//! crates ([`encode`], [`container`]).

pub mod archive;
pub mod bridge;
mod buffer;
pub mod container;
pub mod crop;
pub mod encode;
pub mod error;
pub mod grid;
pub mod naming;
pub mod params;
pub mod raster;

pub use crate::archive::crop_split_image_to_zip;
pub use crate::error::SazanError;
pub use crate::grid::crop_and_grid_images;
pub use crate::raster::{dynamic_image_from_rgba_bytes, Image, Pixel};
