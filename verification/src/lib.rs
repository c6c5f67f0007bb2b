use vstd::prelude::*;

pub mod asset_id;
pub mod audio;
pub mod box_edges;
pub mod cache;
pub mod chamfer;
pub mod checkpoints;
pub mod dependency;
pub mod error;
pub mod index_file;
pub mod layout;
pub mod local;
pub mod mesh;
pub mod operators;
pub mod params;
pub mod recency;
pub mod ring_mesh;
pub mod tess_cache;
pub mod weld;
pub mod text;
