//! Decoder and in-memory model for D88 floppy-disk images: a fixed header with
//! a sparse track-offset table, tracks of variable-length sector records, the
//! two sector orders (logical and file-offset) and addressed sector lookup.

pub mod error;
pub mod format;
pub mod position;
pub mod sector;
pub mod track;
pub mod disk;
pub mod dump;
pub mod fileio;
pub mod text;
