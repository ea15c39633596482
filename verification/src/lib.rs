//! Sparse tile-map compiler for a DMA-driven tiled display: carves grid rows
//! into runs, shares run contents through a store, and lays out display lists.

pub mod catalog;
pub mod compile;
pub mod cover;
pub mod encode;
pub mod gfx;
pub mod grid;
pub mod layout;
pub mod mode;
pub mod names;
pub mod payload;
pub mod refine;
pub mod segment;
pub mod sequence;
pub mod segment_proofs;
pub mod split;
pub mod store;
pub mod tile;
pub mod window;
