//! Verified core of a per-verse recitation audio fetcher and playlist builder.
//!
//! The library holds the logic that is worth proving: parsing verse-range
//! specifications, filtering timing segments, encoding sidecar metadata,
//! deciding retry backoff and pagination, normalizing lookup keys, and
//! synthesizing ordered playlists. The surrounding binary performs the
//! HTTP requests and file writes and hands this library plain values.

pub mod api;
pub mod download;
pub mod hifz;
pub mod lookup;
pub mod models;
pub mod text;
