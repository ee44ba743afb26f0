//! Coordinate algebra and compact dense storage for bounded, radially
//! symmetric 2D grids.
//!
//! Two tiling families are supported: hexagonal ([`hex::Hex`]) and square
//! ([`sq::Sq`]). Each family defines a distance metric ("ring"), a closed-form
//! cell count per radius, a canonical row-major enumeration of all cells
//! within a radius, and a fixed-size neighbor set. [`map::MapData`] is a dense
//! container storing one element per coordinate within a radius, laid out in
//! the family's canonical order.

pub mod coord;
pub mod hex;
pub mod map;
pub mod sq;
