//! A pipeline for tiles, which are questions with their answers: a tile is validated, scored
//! against a query, compared with the tiles before it, and stored as a version that can be found
//! again.
//!
//! Numbers such as a tile's confidence are double precision numbers. The library holds them by
//! their bit patterns (`Binary64`) and computes with them itself, so that what it decides on them is
//! proved like everything else.
pub mod binary64;
pub mod cascade;
pub mod clock;
pub mod dedup;
pub mod float_laws;
pub mod pipeline;
pub mod rounding;
pub mod score;
pub mod store;
pub mod text;
pub mod tile;
pub mod validate;
pub mod version;

pub use crate::binary64::Binary64;
pub use crate::cascade::TileCascade;
pub use crate::clock::now;
pub use crate::dedup::TileDedup;
pub use crate::pipeline::{rank_by_score, rank_by_value, Pipeline, PipelineResult};
pub use crate::score::{Score, TileScorer};
pub use crate::store::{StoredTile, TileStore};
pub use crate::tile::{make_tile, make_tile_at, Polarity, Provenance, Tile};
pub use crate::validate::ValidationGate;
pub use crate::version::TileVersion;
