//! Extraction of tram lines and their stops from a loaded map object graph.

pub mod osm;
pub mod line_name;
pub mod lines;
pub mod extract;
