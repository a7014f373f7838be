//! Core logic of a lightweight Markdown viewer: character-set detection,
//! Markdown rendering with heading anchors and script neutralisation,
//! path handling, document bookkeeping and file-watch scheduling.

pub mod text;
pub mod render;
pub mod encoding;
pub mod paths;
pub mod state;
pub mod keyed;
pub mod commands;
pub mod protocol;
pub mod settings;
pub mod watcher;
