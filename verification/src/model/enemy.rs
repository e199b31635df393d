use vstd::prelude::*;

verus! {

/// An enemy's attack pattern as read from its definition file.
#[derive(Debug, PartialEq, Eq)]
pub struct EnemyPatternDef {
    pub incoming_damage_by_turn: Vec<i32>,
}

/// The damage an enemy deals, turn by turn.
#[derive(Debug, PartialEq, Eq)]
pub struct EnemyPattern {
    pub incoming_damage_by_turn: Vec<i32>,
}

/// The damage of turn `t` (counted from 0); none after the pattern ends.
pub open spec fn damage_on_turn(by_turn: Seq<i32>, t: int) -> i32 {
    if 0 <= t < by_turn.len() {
        by_turn[t]
    } else {
        0
    }
}

fn copy_damages(v: &Vec<i32>) -> (c: Vec<i32>)
    ensures
        c@ == v@,
{
    let mut c: Vec<i32> = Vec::new();
    let mut i: usize = 0;
    while i < v.len()
        invariant
            i <= v@.len(),
            c@ == v@.take(i as int),
        decreases v@.len() - i,
    {
        c.push(v[i]);
        assert(c@ =~= v@.take(i + 1));
        i += 1;
    }
    assert(v@.take(v@.len() as int) == v@);
    c
}

impl Clone for EnemyPatternDef {
    fn clone(&self) -> (d: Self)
        ensures
            d.incoming_damage_by_turn@ == self.incoming_damage_by_turn@,
    {
        EnemyPatternDef { incoming_damage_by_turn: copy_damages(&self.incoming_damage_by_turn) }
    }
}

impl Clone for EnemyPattern {
    fn clone(&self) -> (p: Self)
        ensures
            p.incoming_damage_by_turn@ == self.incoming_damage_by_turn@,
    {
        EnemyPattern { incoming_damage_by_turn: copy_damages(&self.incoming_damage_by_turn) }
    }
}

impl EnemyPattern {
    pub fn from_def(def: EnemyPatternDef) -> (p: Self)
        ensures
            p.incoming_damage_by_turn@ == def.incoming_damage_by_turn@,
    {
        Self { incoming_damage_by_turn: def.incoming_damage_by_turn }
    }

    pub fn incoming_damage(&self, turn_index_0: usize) -> (d: i32)
        ensures
            d == damage_on_turn(self.incoming_damage_by_turn@, turn_index_0 as int),
    {
        if turn_index_0 < self.incoming_damage_by_turn.len() {
            self.incoming_damage_by_turn[turn_index_0]
        } else {
            0
        }
    }
}

} // verus!
