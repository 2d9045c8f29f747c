//! Decoding of Portable Pixmap images, ASCII (`P3`) and binary (`P6`), into an
//! in-memory image and packed 32-bit RGB words.
pub mod image;
pub mod laws;
pub mod syntax;

pub use image::{pack_rgb, DecodeError, Encoding, Image};
