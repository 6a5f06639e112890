//! Declarative management of editor profiles: config layering, extension
//! membership, and vendored package selection.

pub mod text;
pub mod keymap;
pub mod json;
pub mod config;
pub mod vsix;
pub mod extension;
pub mod product;
pub mod jsonc;
pub mod ui;
