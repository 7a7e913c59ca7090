//! Decoder for a tile/sprite container format: an offset table of images,
//! each with a fixed header, RGB565 palettes and sprite payloads that may be
//! XOR-obfuscated and run-length compressed. Each image is decoded into one
//! RGBA spritesheet: one row band per palette, one column per subimage.

pub mod color;
pub mod le;
pub mod error;
pub mod descriptor;
pub mod rle;
pub mod payload;
pub mod raster;
pub mod sprite;
pub mod compose;
pub mod container;
