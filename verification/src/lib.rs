//! Image layers: files that hold the images of a range of pages at one position in
//! the log.
//!
//! Every file consists of three parts: "summary", "values" and "index". The
//! summary is a fixed-size header in block 0. The page images are stored in the
//! "values" part, from block 1 on. The "index" follows them: a B-tree that maps
//! each key to the offset of its image.
//!
//! The library computes. It says which block of a file it needs to go on, or what
//! is to be written where; who uses it reads and writes the files. What the
//! library promises of a file is stated for every file that the blocks can come
//! from.
pub mod big_endian;
pub mod blob;
pub mod btree;
pub mod btree_build;
pub mod btree_node;
pub mod format;
pub mod ids;
pub mod image_layer;
pub mod index_read;
pub mod index_walk;
pub mod key;
pub mod laws;
pub mod laws_bytes;
pub mod laws_layers;
pub mod laws_names;
pub mod laws_writers;
pub mod layer_desc;
pub mod layer_name;
pub mod reconstruct;
pub mod stats;
pub mod summary;
pub mod text;
pub mod writer;
