//! In-memory raster canvas with primitive vector-drawing operations and a
//! plain-text bitmap serializer.
//!
//! A canvas owns a flat, row-major atom buffer of size `width * height`,
//! addressed through a bottom-left coordinate origin: coordinate `(0, 0)`
//! maps to the first cell of the last storage row.

pub mod canvas;
pub mod codec;
pub mod geom;
pub mod image;
pub mod pixel;
pub mod utils;

pub use canvas::PpmFormat;
pub use geom::Coord;
pub use image::ImagePBM;
pub use image::ImagePPM;
pub use pixel::Pixel;
