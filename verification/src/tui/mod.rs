//! The terminal: what is typed and what is shown.
pub mod blocks;
pub mod editor;
pub mod input;
pub mod live;
pub mod palette;
pub mod render;
pub mod style;
pub mod tool_text;
pub mod transcript;
pub mod width;
