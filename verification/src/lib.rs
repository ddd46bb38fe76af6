pub mod diff;
pub mod engine;
pub mod order;
pub mod patch;
pub mod render;
pub mod state;
pub mod text;
pub mod tui;
pub mod walker;
