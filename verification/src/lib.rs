//! An animated system fetch: art resampling, colour handling, info formatting
//! and the pane painter, as a verified library.

pub mod anim;
pub mod cli;
pub mod color;
pub mod config;
pub mod grid;
pub mod layout;
pub mod palette;
pub mod prompt;
pub mod text;
pub mod fetch;
pub mod render;
pub mod screen;
pub mod session;
pub mod term;
