//! A command dispatch engine for chat messages.
//!
//! A [`Commands`] registry holds named commands in registration order. For each
//! incoming line of text it finds every command whose name the text begins
//! with, splits the rest into `key=value` parameters and a free-form body,
//! asks the command's guard, and runs its handler.

pub mod commands;
pub mod menu;
pub mod params;
pub mod text;
pub mod tokenizer;

pub use commands::{Args, Commands, Outcome, Platform};
pub use menu::Menu;
pub use params::Params;
pub use text::strip_command;
pub use tokenizer::tokenize;
