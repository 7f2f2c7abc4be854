//! A road-routing library over OpenStreetMap XML exports.
//!
//! The library builds an in-memory directed road graph from a single pass
//! over an OSM XML document and answers shortest-route queries between two
//! geographic coordinates with an A* search over integer edge weights.

#![verifier::loop_isolation(false)]

pub mod builder;
pub mod config;
pub mod elements;
pub mod geo;
pub mod graph;
pub mod routing;
pub mod text;
pub mod xml;

pub use config::Config;
