//! Backfills Immich asset descriptions and tags from the Stable Diffusion
//! `parameters` text stored in PNG files.

pub mod api;
pub mod immich;
pub mod metadata;
pub mod pattern;
pub mod session;
pub mod tags;
pub mod text;
