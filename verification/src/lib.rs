//! Verified core of a Korean open-data world generator: road cross-sections,
//! building typing and facades, shapefile/dBASE parsing, bus-stop name
//! matching, timestamps and a binary terrain-cache codec.

pub mod buildings;
pub mod bus_routes;
pub mod bus_stops;
pub mod manifest;
pub mod projection;
pub mod roads;
pub mod route_report;
pub mod terrain_cache;
pub mod text;
pub mod transit;
pub mod world;
