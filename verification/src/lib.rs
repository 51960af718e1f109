//! Loupe: the logic of a web browser for Milvus collections.

pub mod text;
pub mod keyed;
pub mod json;
pub mod number;
pub mod order;
pub mod sort;
pub mod api;
pub mod milvus;
pub mod index;
pub mod config;
pub mod session;

