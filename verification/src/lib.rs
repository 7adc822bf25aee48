//! Verified core of a seismic-intensity map renderer.
//!
//! The library covers the offline geospatial preprocessing (vertex
//! interning, ring topology, border-line extraction and classification,
//! level-of-detail packing) and the online request pipeline (payload
//! framing, HMAC authentication, response pacing, single-flight caching).
//! Coordinates are carried as IEEE-754 bit patterns so that equality and
//! ordering are exact; all arithmetic on them is done outside the library.

pub mod point;
pub mod interner;
pub mod line;
pub mod bbox;
pub mod topology;
pub mod cut;
pub mod lod;
pub mod limiter;
pub mod cache;
pub mod codec;
pub mod pipeline;
pub mod proto;
pub mod context;
pub mod ingest;
pub mod assets;
pub mod misc;
pub mod mapstore;
pub mod tsunami;
