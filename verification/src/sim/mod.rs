//! Draw simulation: a deck is compiled against the card database, then many
//! solitaire games are played with a fixed pilot: London mulligans, optional
//! best-of-one hand smoothing, one land a turn, and a look at what the lands
//! in play could pay for.
pub mod compile;
pub mod deal;
pub mod engine;
pub mod game;
pub mod mana;
pub mod matching;
pub mod rng;
pub mod sorting;

pub use compile::compile_deck;
pub use engine::run as simulate;

use vstd::prelude::*;

verus! {

/// How to play the games.
#[derive(Debug, Clone)]
pub struct SimParams {
    pub iterations: u32,
    pub on_play: bool,
    pub bo1_smoothing: bool,
    /// The seed of the shuffles: with it a run can be repeated.
    pub seed: Option<u64>,
    pub turns: u8,
}

/// In how many games out of how many something happened.
#[derive(Debug, Clone, Copy, PartialEq, Eq, Structural)]
pub struct Rate {
    pub hits: u32,
    pub of: u32,
}

/// What the games gave.
#[derive(Debug)]
pub struct SimResult {
    pub params: SimParams,
    pub deck: DeckSummaryOut,
    pub keep7_rate: Rate,
    pub mulligan_distribution: MulliganDistribution,
    /// Every land drop made through turn t, for the turns one to five.
    pub land_drops_on_curve: Vec<Rate>,
    pub screw_rate: Rate,
    pub flood_rate: Rate,
    pub curve_out_rate: Rate,
    /// The spells, by mana value and then by name.
    pub cards: Vec<CardStats>,
    pub colors: Vec<ColorStats>,
    pub warnings: Vec<String>,
    pub assumptions: Vec<String>,
}

/// The deck in numbers.
#[derive(Debug, Clone, Copy, PartialEq, Eq, Structural)]
pub struct DeckSummaryOut {
    pub total_cards: u32,
    pub lands: u32,
    pub distinct_spells: u32,
    pub max_spell_mv: u8,
}

/// How often each hand size was kept.
#[derive(Debug, Clone, Copy, PartialEq, Eq, Structural)]
pub struct MulliganDistribution {
    pub kept7: Rate,
    pub kept6: Rate,
    pub kept5: Rate,
    pub kept4: Rate,
}

/// What the games gave for one spell.
#[derive(Debug)]
pub struct CardStats {
    pub arena_id: u32,
    pub name: String,
    pub quantity: u32,
    pub mana_cost: String,
    pub mana_value: u8,
    /// First castable no later than on the turn of its mana value.
    pub p_cast_on_curve: Rate,
    /// Castable by turn t, for the turns from one on.
    pub p_cast_by: Vec<Rate>,
    /// At least one copy drawn by turn t, for the turns from one on.
    pub p_drawn_by: Vec<Rate>,
}

/// What the games gave for one color.
#[derive(Debug)]
pub struct ColorStats {
    pub color: String,
    pub first_needed_turn: u8,
    pub p_on_time: Rate,
}

} // verus!
