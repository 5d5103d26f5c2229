pub mod components;
pub mod tui;
