//! The Markdown battery: line parsers for tables, lists, links and
//! headings, fold ranges, table cell padding, and the editing hook
//! (emphasis and link keys, task toggles, list and table continuation,
//! list indentation, wikilink following).
pub mod config;
pub mod folding;
pub mod table;
pub mod list;
pub mod links;
pub mod list_tab;
pub mod editing;
pub mod table_pads;
pub mod inline;
pub mod highlight;
pub mod completion;
