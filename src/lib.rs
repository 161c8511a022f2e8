//! Tracks, for a catalog of source repositories, how many lines of code they
//! hold and how many of those lines are marked `unsafe`, and serves the latest
//! figures through a paginated, filterable, cached read path.
#![allow(non_snake_case)]

pub mod models;
pub mod text;
pub mod store;
pub mod listing;
pub mod cache;
pub mod catalog;
pub mod refresh;
pub mod utils;
