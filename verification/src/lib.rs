//! A password prompter for the `pass` store: entries, their fields and the
//! sequences that type them, the menu tools, and the remembered choice.
pub mod text;
pub mod fields;
pub mod pass;
pub mod conf;
pub mod menu;
pub mod typing;
