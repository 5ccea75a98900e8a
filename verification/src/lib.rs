//! The Public Software organization's catalog and crate-skeleton logic.

pub mod catalog;
pub mod gh;
pub mod new;
pub mod render;
pub mod sync;
pub mod text;
