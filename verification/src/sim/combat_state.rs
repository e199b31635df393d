use vstd::prelude::*;

use crate::model::{EnemyStatus, Vulnerable};

use super::draw::CardInstance;

verus! {

/// The piles of a combat and the lasting effects on both sides.
#[derive(Debug)]
pub struct CombatState {
    pub draw_pile: Vec<CardInstance>,
    pub discard_pile: Vec<CardInstance>,
    pub exhaust_pile: Vec<CardInstance>,
    pub enemy_status: EnemyStatus,
    pub player_strength: i32,
}

/// Vulnerable turns after adding `turns` more, capped at the counter's maximum.
pub open spec fn added_vulnerable(cur: u8, turns: u8) -> u8 {
    if cur + turns > u8::MAX {
        u8::MAX
    } else {
        (cur + turns) as u8
    }
}

impl CombatState {
    pub fn new(draw_pile: Vec<CardInstance>) -> (s: Self)
        ensures
            s.draw_pile@ == draw_pile@,
            s.discard_pile@.len() == 0,
            s.exhaust_pile@.len() == 0,
            s.enemy_status.vulnerable.turns == 0,
            s.player_strength == 0,
    {
        Self {
            draw_pile,
            discard_pile: Vec::new(),
            exhaust_pile: Vec::new(),
            enemy_status: EnemyStatus::new(),
            player_strength: 0,
        }
    }

    /// Adds `turns` turns of vulnerable to the enemy (saturating).
    pub fn apply_vulnerable(&mut self, turns: u8)
        ensures
            final(self).enemy_status.vulnerable.turns == added_vulnerable(
                old(self).enemy_status.vulnerable.turns,
                turns,
            ),
            final(self).draw_pile == old(self).draw_pile,
            final(self).discard_pile == old(self).discard_pile,
            final(self).exhaust_pile == old(self).exhaust_pile,
            final(self).player_strength == old(self).player_strength,
    {
        let cur = self.enemy_status.vulnerable.turns;
        self.enemy_status.vulnerable = Vulnerable::new(cur.saturating_add(turns));
    }

    /// The end of a turn: the enemy's vulnerable counter goes down by one.
    pub fn tick_end_of_turn(&mut self)
        ensures
            final(self).enemy_status.vulnerable.turns == (if old(
                self,
            ).enemy_status.vulnerable.turns == 0 {
                0
            } else {
                old(self).enemy_status.vulnerable.turns - 1
            }),
            final(self).draw_pile == old(self).draw_pile,
            final(self).discard_pile == old(self).discard_pile,
            final(self).exhaust_pile == old(self).exhaust_pile,
            final(self).player_strength == old(self).player_strength,
    {
        self.enemy_status.vulnerable.tick_end_of_turn();
    }
}

} // verus!
