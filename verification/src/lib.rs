//! A personal "experiences" journal core: a cached record store maintaining a
//! symmetric connection graph between records, and a mosaic layout engine with
//! a composite cover renderer.

pub mod canvas;
pub mod laws;
pub mod layout;
pub mod payload;
pub mod render;
pub mod store;
pub mod types;
