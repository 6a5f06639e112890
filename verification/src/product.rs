//! The subset of an editor's `product.json` used to identify it.
//!
//! `product.json` is the authoritative identity of a VS Code OSS build: it
//! gives the user-data directory name (`nameShort`), the extensions directory
//! name (`dataFolderName`), and the CLI application name (`applicationName`).

use vstd::prelude::*;

verus! {

/// Identity fields read from an editor's `product.json`.
#[derive(Debug, Clone)]
pub struct Product {
    /// Short product name, e.g. `Code - OSS`, `VSCodium`, `Code`. Determines the
    /// user-data directory name (`~/.config/<nameShort>` on Linux).
    pub name_short: String,
    /// Long product name, e.g. `Code - OSS`, `Visual Studio Code`.
    pub name_long: String,
    /// CLI application name, e.g. `code-oss`, `codium`, `code`.
    pub application_name: String,
    /// Data folder name under `$HOME`, e.g. `.vscode-oss`, `.vscode`.
    pub data_folder_name: String,
    /// Release channel, e.g. `stable` or `insider`.
    pub quality: Option<String>,
    /// Build commit hash, when present.
    pub commit: Option<String>,
}

} // verus!
