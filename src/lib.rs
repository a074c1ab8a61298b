//! Embeds, into a crate's module sources, which marker traits each of the
//! module's types implements, so that rendered documentation can tag them.

pub mod graph;
pub mod markers;
pub mod position;
pub mod extract;
pub mod splice;
pub mod payload;
pub mod annotate;
