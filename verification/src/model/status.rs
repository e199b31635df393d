use vstd::prelude::*;

verus! {

/// Turns of the "vulnerable" debuff left on the enemy.
#[derive(Debug, Clone, Copy, PartialEq, Eq, Structural)]
pub struct Vulnerable {
    pub turns: u8,
}

impl Vulnerable {
    pub fn new(turns: u8) -> (v: Self)
        ensures
            v.turns == turns,
    {
        Self { turns }
    }

    pub fn is_active(&self) -> (b: bool)
        ensures
            b == (self.turns > 0),
    {
        self.turns > 0
    }

    /// One turn passes: the counter goes down by one, never below zero.
    pub fn tick_end_of_turn(&mut self)
        ensures
            final(self).turns == (if old(self).turns == 0 { 0 } else { old(self).turns - 1 }),
    {
        self.turns = self.turns.saturating_sub(1);
    }
}

/// The counter `turns` after `k` ends of turn, each taking it down by one
/// and never below zero (see `Vulnerable::tick_end_of_turn`).
pub open spec fn ticked(turns: u8, k: nat) -> u8
    decreases k,
{
    if k == 0 {
        turns
    } else {
        let before = ticked(turns, (k - 1) as nat);
        if before == 0 {
            0
        } else {
            (before - 1) as u8
        }
    }
}

/// After `k` ends of turn the counter is down by `k`, but not below zero,
/// and it is still active exactly when it started above `k`.
pub proof fn lemma_ticked(turns: u8, k: nat)
    ensures
        ticked(turns, k) == (if turns > k {
            turns - k
        } else {
            0
        }),
        (ticked(turns, k) > 0) == (turns > k),
    decreases k,
{
    if k > 0 {
        lemma_ticked(turns, (k - 1) as nat);
    }
}

/// The enemy's status effects.
#[derive(Debug, Clone, Copy, PartialEq, Eq, Structural)]
pub struct EnemyStatus {
    pub vulnerable: Vulnerable,
}

impl EnemyStatus {
    pub fn new() -> (s: Self)
        ensures
            s.vulnerable.turns == 0,
    {
        Self { vulnerable: Vulnerable::new(0) }
    }
}

} // verus!
