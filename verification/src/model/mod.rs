pub mod card;
pub mod deck;
pub mod enemy;
pub mod status;

pub use card::{CardCatalog, CardDef, CardEffect, CardId, CardKind, CardRarity};
pub use deck::{Deck, DeckCardDef, DeckDef};
pub use enemy::{EnemyPattern, EnemyPatternDef};
pub use status::{EnemyStatus, Vulnerable};
