//! A personal catalogue of works, people, series and binary blobs, with the
//! rules that keep it consistent and the planning of its storage in a
//! version-controlled directory.

pub mod calendar;
pub mod common;
pub mod item;
pub mod keyed;
pub mod model;
pub mod order;
pub mod replies;
pub mod router;
pub mod save;
pub mod series;
pub mod server;
pub mod shelf;
pub mod text;
pub mod views;

pub use crate::shelf::Shelf;
