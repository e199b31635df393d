pub mod combat_state;
pub mod combinatorics;
pub mod draw;
pub mod evaluate;
pub mod rng;
pub mod turn;

pub use combat_state::CombatState;
pub use draw::{build_draw_pile, draw_hand_random_5, draw_hand_random_n, validate_deck, CardInstance};
pub use evaluate::{apply_vulnerable_damage_multiplier, can_play, compute_turn_result, TurnResult};
pub mod expectation;
pub mod play;

pub use expectation::{simulate, simulate_with_rng, SimulationInput, SimulationTotals};
pub use play::{end_turn_discard_all_hand, enumerate_play_sequences, PlaySequence};
