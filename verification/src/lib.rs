//! A tracker for Magic: the Gathering Arena.
//!
//! The game writes what happens into a log. `log_watcher` decides how the log is
//! followed, `parser` takes its lines to events, `state` says what each event
//! does to the live match and to what is stored, and `web` turns what is stored
//! into what the interface shows. `sim` plays many solitaire games with a deck to
//! see how it draws. Reading, writing and serving are left to the program around
//! this library; everything here is a function from values to values, and its
//! contract says which.
//!
//! Where a result comes from another crate (regular expressions, JSON, shuffles,
//! time), the function that calls it is small and says what is taken on trust.
pub mod cards;
pub mod config;
pub mod counts;
pub mod json;
pub mod localization;
pub mod log_watcher;
pub mod parser;
pub mod patterns;
pub mod sim;
pub mod state;
pub mod text;
pub mod web;
