//! What the web interface asks for and gets.
pub mod api;
pub mod assets;
pub mod cdn;
pub mod costs;
pub mod entries;
pub mod import;
pub mod records;
pub mod search;
pub mod simulate;
pub mod wildcards;
