//! Walls: search wallhaven.cc wallpapers that match an Omarchy theme.
pub mod text;
pub mod palette;
pub mod api;
pub mod paths;
pub mod model;
pub mod theme;
pub mod library;
pub mod cli;
