//! aeGIS core: the parts of the GIS that are plain data and logic —
//! tile addressing, URL formation and tile bookkeeping, the body
//! catalog, vector-tile decoding, satellite TLE ingest, coordinate
//! search and feature naming.
use vstd::prelude::*;

pub mod protobuf;
pub mod text;
pub mod tile;
pub mod bm_tile;
pub mod body;
pub mod orbit;
pub mod mvt;
pub mod net;
pub mod search;
pub mod tile_cache;
pub mod vector;

verus! {

} // verus!
