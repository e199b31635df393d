//! Card-combat simulation for deck-building games: card catalogs, decks,
//! draw piles, per-turn play and Monte-Carlo style sampling of a combat.

pub mod model;
pub mod sim;
pub mod report;
mod text;
pub mod cli;
