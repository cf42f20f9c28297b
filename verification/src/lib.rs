//! Decoder and in-place patcher for Source-engine map containers.
//!
//! A map is a fixed header, a directory of 64 lumps and the lumps themselves.
//! This crate decodes the directory, the entity text lump and the embedded
//! archive lump, and writes edited entity text and an edited archive back
//! into the byte ranges that the directory gives the two lumps.
//!
//! Decoding starts at [`bsp::ParsedMap::new`], saving at [`save::save`].

pub mod bytes;
pub mod text;
pub mod lzma;
pub mod archive;
pub mod bsp;
pub mod directory;
pub mod entities;
pub mod pak;
pub mod decode;
pub mod kv;
pub mod encode;
pub mod repack;
pub mod patch;
pub mod save;
pub mod blacklist;
pub mod texture;
pub mod message;
