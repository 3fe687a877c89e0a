//! Layout engine of a terminal system-information display: it resolves
//! configured modules against host facts and sets the resulting lines beside
//! a block of ASCII art.
pub mod text;
pub mod error;
pub mod template;
pub mod osrelease;
pub mod config;
pub mod layout;
