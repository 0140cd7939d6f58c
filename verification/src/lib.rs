//! OpenEXR reading and writing, with every decision of the format proved.
//!
//! Samples are carried as IEEE 754 bit patterns (`u32` for binary32, `u16`
//! for binary16), so that the library computes with integers alone.

pub mod accept_laws;
pub mod attrs;
pub mod b44;
pub mod bits;
pub mod bytes;
pub mod code;
pub mod codec_laws;
pub mod deep;
pub mod deep_block;
pub mod deep_input;
pub mod deep_laws;
pub mod deep_lines;
pub mod deep_meta;
pub mod deep_mipmap;
pub mod deep_multi;
pub mod deep_tile_laws;
pub mod deep_tiled;
pub mod deep_tiled_multi;
pub mod deep_tiles;
pub mod dwa;
pub mod dwa_blocks;
pub mod dwa_laws;
pub mod dwa_parts;
pub mod dwa_regions;
pub mod dwa_rules;
pub mod dwa_streams;
pub mod dwa_tables;
pub mod dwa_units;
pub mod dwa_write;
pub mod error;
pub mod flat;
pub mod flat_block;
pub mod flat_encode;
pub mod flat_image;
pub mod flat_laws;
pub mod flat_levels;
pub mod flat_multi;
pub mod flat_multi_tiled;
pub mod flat_tiles;
pub mod format_laws;
pub mod grid;
pub mod half;
pub mod header;
pub mod header_laws;
pub mod huf;
pub mod huf_laws;
pub mod image_laws;
pub mod layer_laws;
pub mod layers;
pub mod layout;
pub mod level_laws;
pub mod luma_chroma;
pub mod mipmap;
pub mod offset_tables;
pub mod pack;
pub mod part_laws;
pub mod pxr24;
pub mod ragged;
pub mod resample;
pub mod rle;
pub mod sample_laws;
pub mod samples;
pub mod text;
pub mod tile_laws;
pub mod tree;
pub mod tree_cost;
pub mod types;
pub mod write_laws;
pub mod zip;
