//! Headless text-editor core: buffer with undo history, movement,
//! selection, prompt, search, folding, syntax spans and concealment, editor
//! hooks, and the Markdown battery.
pub mod coordinates;
pub mod text;
pub mod rope_text;
pub mod history;
pub mod buffer;
pub mod error;
pub mod keycode;
pub mod movement;
pub mod selection;
pub mod hook;
pub mod prompt;
pub mod folding;
pub mod context_menu;
pub mod syntax;
pub mod markdown;
pub mod search;
pub mod search_hook;
