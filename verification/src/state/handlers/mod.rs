//! The payloads of events, kind by kind.
pub mod collection;
pub mod decks;
pub mod draft;
pub mod gre;
pub mod inventory_changes;
pub mod match_room;
pub mod starthook;
pub mod wallet;
