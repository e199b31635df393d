use vstd::prelude::*;

use crate::model::card::CardDef;
use crate::model::{CardCatalog, CardKind};

use super::combat_state::{added_vulnerable, CombatState};
use super::draw::CardInstance;

verus! {

/// `x / 2`, rounded toward zero.
pub open spec fn half_toward_zero(x: int) -> int {
    if x >= 0 {
        x / 2
    } else {
        -((-x) / 2)
    }
}

/// Damage against a vulnerable enemy: one and a half times, rounded toward zero.
pub open spec fn vulnerable_damage(base: int) -> int {
    half_toward_zero(base * 3)
}

pub fn apply_vulnerable_damage_multiplier(base: i32) -> (d: i32)
    requires
        i32::MIN <= base * 3 <= i32::MAX,
    ensures
        d == vulnerable_damage(base as int),
{
    let tripled = base * 3;
    if tripled >= 0 {
        tripled / 2
    } else {
        -((-tripled) / 2)
    }
}

/// What a turn amounted to: damage dealt, block gained, damage taken.
#[derive(Debug, Clone, Copy, PartialEq, Eq, Structural)]
pub struct TurnResult {
    pub damage: i32,
    pub block: i32,
    pub taken: i32,
}

pub open spec fn spec_can_play(kind: CardKind) -> bool {
    kind != CardKind::Curse
}

/// Whether a card of this kind can be played (curses cannot).
pub fn can_play(kind: CardKind) -> (b: bool)
    ensures
        b == spec_can_play(kind),
{
    match kind {
        CardKind::Attack | CardKind::Skill | CardKind::Power => true,
        CardKind::Curse => false,
    }
}

/// Damage, block and enemy vulnerable turns after playing the cards named by
/// `ids` (by their plain values), starting from none and `vulnerable`.
pub open spec fn turn_tally(catalog: CardCatalog, ids: Seq<String>, vulnerable: u8) -> (
    int,
    int,
    u8,
)
    decreases ids.len(),
{
    if ids.len() == 0 {
        (0, 0, vulnerable)
    } else {
        let (damage, block, vul) = turn_tally(catalog, ids.drop_last(), vulnerable);
        let card = catalog.spec_get(ids.last()@)->0;
        match card.kind {
            CardKind::Skill => (damage, block + card.base_block, vul),
            CardKind::Attack => {
                let d = if vul > 0 {
                    vulnerable_damage(card.base_damage as int)
                } else {
                    card.base_damage as int
                };
                let vul2 = if card.apply_vulnerable > 0 {
                    added_vulnerable(vul, card.apply_vulnerable)
                } else {
                    vul
                };
                (damage + d, block, vul2)
            },
            _ => (damage, block, vul),
        }
    }
}

pub open spec fn fits_i32(x: int) -> bool {
    i32::MIN <= x <= i32::MAX
}

/// Every running total of `turn_tally` over `ids`, and each tripled attack
/// against a vulnerable enemy, fits in an `i32`.
pub open spec fn turn_tally_fits(catalog: CardCatalog, ids: Seq<String>, vulnerable: u8) -> bool
    decreases ids.len(),
{
    if ids.len() == 0 {
        true
    } else {
        let (damage, block, vul) = turn_tally(catalog, ids.drop_last(), vulnerable);
        let card = catalog.spec_get(ids.last()@)->0;
        &&& turn_tally_fits(catalog, ids.drop_last(), vulnerable)
        &&& match card.kind {
            CardKind::Skill => fits_i32(block + card.base_block),
            CardKind::Attack => {
                &&& (vul > 0 ==> fits_i32(card.base_damage * 3))
                &&& fits_i32(
                    damage + if vul > 0 {
                        vulnerable_damage(card.base_damage as int)
                    } else {
                        card.base_damage as int
                    },
                )
            },
            _ => true,
        }
    }
}

pub open spec fn all_ids_known(catalog: CardCatalog, ids: Seq<String>) -> bool {
    forall|i: int| 0 <= i < ids.len() ==> (#[trigger] catalog.spec_get(ids[i]@)) is Some
}

proof fn lemma_tally_fits_prefix(catalog: CardCatalog, ids: Seq<String>, vulnerable: u8, k: int)
    requires
        turn_tally_fits(catalog, ids, vulnerable),
        0 <= k <= ids.len(),
    ensures
        turn_tally_fits(catalog, ids.take(k), vulnerable),
        fits_i32(turn_tally(catalog, ids.take(k), vulnerable).0),
        fits_i32(turn_tally(catalog, ids.take(k), vulnerable).1),
    decreases ids.len(),
{
    if k == ids.len() {
        assert(ids.take(k) == ids);
        if k > 0 {
            lemma_tally_fits_prefix(catalog, ids.drop_last(), vulnerable, k - 1);
            assert(ids.drop_last().take(k - 1) == ids.drop_last());
        }
    } else {
        assert(ids.drop_last().take(k) == ids.take(k));
        lemma_tally_fits_prefix(catalog, ids.drop_last(), vulnerable, k);
    }
}

impl Clone for CombatState {
    fn clone(&self) -> (c: Self)
        ensures
            c.draw_pile@ == self.draw_pile@,
            c.discard_pile@ == self.discard_pile@,
            c.exhaust_pile@ == self.exhaust_pile@,
            c.enemy_status == self.enemy_status,
            c.player_strength == self.player_strength,
    {
        CombatState {
            draw_pile: clone_pile(&self.draw_pile),
            discard_pile: clone_pile(&self.discard_pile),
            exhaust_pile: clone_pile(&self.exhaust_pile),
            enemy_status: self.enemy_status,
            player_strength: self.player_strength,
        }
    }
}

/// A copy of a pile.
pub fn clone_pile(pile: &Vec<CardInstance>) -> (c: Vec<CardInstance>)
    ensures
        c@ == pile@,
{
    let mut c: Vec<CardInstance> = Vec::new();
    let mut i: usize = 0;
    while i < pile.len()
        invariant
            i <= pile@.len(),
            c@ == pile@.take(i as int),
        decreases pile@.len() - i,
    {
        c.push(pile[i].clone());
        assert(c@ =~= pile@.take(i + 1));
        i += 1;
    }
    assert(pile@.take(pile@.len() as int) == pile@);
    c
}

/// Plays the cards named by `played_card_ids_in_order` by their plain values:
/// skills add their block, attacks deal their damage (one and a half times
/// against a vulnerable enemy) and may make the enemy vulnerable; other cards
/// do nothing. Damage taken is what the block does not stop.
pub fn compute_turn_result(
    catalog: &CardCatalog,
    state: &CombatState,
    played_card_ids_in_order: &[String],
    incoming_damage: i32,
) -> (r: (CombatState, TurnResult))
    requires
        all_ids_known(*catalog, played_card_ids_in_order@),
        turn_tally_fits(*catalog, played_card_ids_in_order@, state.enemy_status.vulnerable.turns),
        fits_i32(
            incoming_damage - turn_tally(
                *catalog,
                played_card_ids_in_order@,
                state.enemy_status.vulnerable.turns,
            ).1,
        ),
    ensures
        ({
            let (damage, block, vul) = turn_tally(
                *catalog,
                played_card_ids_in_order@,
                state.enemy_status.vulnerable.turns,
            );
            &&& r.1.damage == damage
            &&& r.1.block == block
            &&& r.1.taken == (if incoming_damage - block > 0 {
                incoming_damage - block
            } else {
                0
            })
            &&& r.0.enemy_status.vulnerable.turns == vul
        }),
        r.0.draw_pile@ == state.draw_pile@,
        r.0.discard_pile@ == state.discard_pile@,
        r.0.exhaust_pile@ == state.exhaust_pile@,
        r.0.player_strength == state.player_strength,
{
    let ghost ids = played_card_ids_in_order@;
    let ghost vul0 = state.enemy_status.vulnerable.turns;
    let mut next_state = state.clone();
    let mut block: i32 = 0;
    let mut damage: i32 = 0;
    let mut i: usize = 0;
    while i < played_card_ids_in_order.len()
        invariant
            ids == played_card_ids_in_order@,
            i <= ids.len(),
            all_ids_known(*catalog, ids),
            turn_tally_fits(*catalog, ids, vul0),
            turn_tally(*catalog, ids.take(i as int), vul0) == (
                damage as int,
                block as int,
                next_state.enemy_status.vulnerable.turns,
            ),
            next_state.draw_pile@ == state.draw_pile@,
            next_state.discard_pile@ == state.discard_pile@,
            next_state.exhaust_pile@ == state.exhaust_pile@,
            next_state.player_strength == state.player_strength,
        decreases ids.len() - i,
    {
        proof {
            lemma_tally_fits_prefix(*catalog, ids, vul0, i + 1);
            assert(ids.take(i + 1).drop_last() == ids.take(i as int));
            assert(ids.take(i + 1).last() == ids[i as int]);
            assert(catalog.spec_get(ids[i as int]@) is Some);
        }
        let card: &CardDef = catalog.get(played_card_ids_in_order[i].as_str()).unwrap();
        match card.kind {
            CardKind::Skill => {
                block = block + card.base_block;
            },
            CardKind::Attack => {
                let mut d = card.base_damage;
                if next_state.enemy_status.vulnerable.is_active() {
                    d = apply_vulnerable_damage_multiplier(d);
                }
                damage = damage + d;
                if card.apply_vulnerable > 0 {
                    next_state.apply_vulnerable(card.apply_vulnerable);
                }
            },
            _ => {},
        }
        i += 1;
    }
    assert(ids.take(ids.len() as int) == ids);
    let diff = incoming_damage - block;
    let taken = if diff > 0 {
        diff
    } else {
        0
    };
    (next_state, TurnResult { damage, block, taken })
}

/// A copy of a slice of cards.
pub fn clone_slice(pile: &[CardInstance]) -> (c: Vec<CardInstance>)
    ensures
        c@ == pile@,
{
    let mut c: Vec<CardInstance> = Vec::new();
    let mut i: usize = 0;
    while i < pile.len()
        invariant
            i <= pile@.len(),
            c@ == pile@.take(i as int),
        decreases pile@.len() - i,
    {
        c.push(pile[i].clone());
        assert(c@ =~= pile@.take(i + 1));
        i += 1;
    }
    assert(pile@.take(pile@.len() as int) == pile@);
    c
}

/// Playing an attack raises the enemy's vulnerable counter by the attack's
/// vulnerable turns, capped at 255, whatever the counter was before: the
/// turns stack on an enemy that is vulnerable already.
pub proof fn lemma_attack_stacks_vulnerable(
    catalog: CardCatalog,
    ids: Seq<String>,
    vulnerable: u8,
    id: String,
)
    requires
        catalog.spec_get(id@) is Some,
        catalog.spec_get(id@)->0.kind == CardKind::Attack,
    ensures
        ({
            let before = turn_tally(catalog, ids, vulnerable).2 as int;
            let v = catalog.spec_get(id@)->0.apply_vulnerable as int;
            turn_tally(catalog, ids.push(id), vulnerable).2 == if before + v > 255 {
                255
            } else {
                before + v
            }
        }),
{
    assert(ids.push(id).drop_last() == ids);
}

} // verus!
