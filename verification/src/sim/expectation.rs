use rand::rngs::StdRng;
use vstd::prelude::*;

use crate::model::card::CardDef;
use crate::model::enemy::damage_on_turn;
use crate::model::{CardCatalog, CardKind, Deck, EnemyPattern};

use super::combat_state::CombatState;
use super::draw::{build_draw_pile, validate_deck, CardInstance};
use crate::model::deck::deck_size;
use crate::model::deck::DeckEntry;
use super::evaluate::{clone_pile, TurnResult};
use super::rng::rng_from_seed;
use super::turn::{
    lemma_turn_taken_nonnegative, simulate_one_turn_greedy, turn_failure, turn_outcome, SimError,
};

verus! {

/// Every card of the pile is known to the catalog.
pub open spec fn pile_known(catalog: CardCatalog, pile: Seq<CardInstance>) -> bool {
    forall|i: int| 0 <= i < pile.len() ==> (#[trigger] catalog.spec_get(pile[i].card_id@)) is Some
}

/// The catalog's definition of the card of an instance.
pub open spec fn def_of(catalog: CardCatalog, c: CardInstance) -> CardDef {
    catalog.spec_get(c.card_id@)->0
}

pub open spec fn kind_of(catalog: CardCatalog, c: CardInstance) -> CardKind {
    def_of(catalog, c).kind
}

pub open spec fn cost_of(catalog: CardCatalog, c: CardInstance) -> u8 {
    def_of(catalog, c).spec_cost_for(c.upgraded)
}

fn kind(catalog: &CardCatalog, inst: &CardInstance) -> (k: CardKind)
    requires
        catalog.spec_get(inst.card_id@) is Some,
    ensures
        k == kind_of(*catalog, *inst),
{
    catalog.get(inst.card_id.as_str()).unwrap().kind
}

fn cost(catalog: &CardCatalog, inst: &CardInstance) -> (c: u8)
    requires
        catalog.spec_get(inst.card_id@) is Some,
    ensures
        c == cost_of(*catalog, *inst),
{
    catalog.get(inst.card_id.as_str()).unwrap().cost_for(inst.upgraded)
}

/// The first card of the hand whose id is `"bash"`.
pub open spec fn is_first_bash(hand: Seq<CardInstance>, i: int) -> bool {
    &&& 0 <= i < hand.len()
    &&& hand[i].card_id@ == "bash"@
    &&& forall|j: int| 0 <= j < i ==> hand[j].card_id@ != "bash"@
}

/// The index of the bash card that opens the turn, if it does: the first
/// bash of the hand, when it fits the energy and another attack still fits
/// after it.
pub open spec fn opening_bash(catalog: CardCatalog, hand: Seq<CardInstance>, energy: int) -> Option<
    int,
> {
    if exists|i: int| is_first_bash(hand, i) {
        let i = choose|i: int| is_first_bash(hand, i);
        if cost_of(catalog, hand[i]) <= energy && exists|j: int|
            0 <= j < hand.len() && j != i && kind_of(catalog, hand[j]) == CardKind::Attack
                && cost_of(catalog, hand[j]) <= energy - cost_of(catalog, hand[i]) {
            Some(i)
        } else {
            None
        }
    } else {
        None
    }
}

/// Going through the hand from index `i` on, the cards of kind `k` (other
/// than card `skip`) that still fit the energy left when reached; and the
/// energy left after them.
pub open spec fn take_fitting(
    catalog: CardCatalog,
    hand: Seq<CardInstance>,
    k: CardKind,
    skip: int,
    i: int,
    energy: int,
) -> (Seq<int>, int)
    decreases hand.len() - i,
{
    if i < 0 || i >= hand.len() {
        (Seq::empty(), energy)
    } else if i != skip && kind_of(catalog, hand[i]) == k && cost_of(catalog, hand[i]) <= energy {
        let (rest, left) = take_fitting(
            catalog,
            hand,
            k,
            skip,
            i + 1,
            energy - cost_of(catalog, hand[i]),
        );
        (seq![i] + rest, left)
    } else {
        take_fitting(catalog, hand, k, skip, i + 1, energy)
    }
}

/// The hand indices that the greedy turn plays, in order: the opening bash,
/// then the attacks that fit, then the skills that fit with what is left.
pub open spec fn greedy_plan(catalog: CardCatalog, hand: Seq<CardInstance>, energy: int) -> Seq<
    int,
> {
    let bash = opening_bash(catalog, hand, energy);
    let (opening, skip, left0) = match bash {
        Some(b) => (seq![b], b, energy - cost_of(catalog, hand[b])),
        None => (Seq::<int>::empty(), -1int, energy),
    };
    let (attacks, left1) = take_fitting(catalog, hand, CardKind::Attack, skip, 0, left0);
    let (skills, _left2) = take_fitting(catalog, hand, CardKind::Skill, skip, 0, left1);
    opening + attacks + skills
}

proof fn lemma_take_fitting_facts(
    catalog: CardCatalog,
    hand: Seq<CardInstance>,
    k: CardKind,
    skip: int,
    i: int,
    energy: int,
)
    requires
        0 <= i,
        0 <= energy,
    ensures
        ({
            let (picked, left) = take_fitting(catalog, hand, k, skip, i, energy);
            &&& 0 <= left <= energy
            &&& forall|m: int|
                0 <= m < picked.len() ==> i <= #[trigger] picked[m] < hand.len() && picked[m]
                    != skip && kind_of(catalog, hand[picked[m]]) == k
            &&& picked.len() > 0 ==> cost_of(catalog, hand[picked[0]]) <= energy
        }),
    decreases hand.len() - i,
{
    if i < hand.len() {
        if i != skip && kind_of(catalog, hand[i]) == k && cost_of(catalog, hand[i]) <= energy {
            lemma_take_fitting_facts(catalog, hand, k, skip, i + 1, energy - cost_of(catalog, hand[i]));
        } else {
            lemma_take_fitting_facts(catalog, hand, k, skip, i + 1, energy);
        }
    }
}

/// What callers of the greedy plan rely on: it lists distinct-kind picks of
/// valid hand indices, and its first card fits the energy.
pub proof fn lemma_greedy_plan_first_fits(catalog: CardCatalog, hand: Seq<CardInstance>, energy: int)
    requires
        0 <= energy,
    ensures
        forall|m: int|
            0 <= m < greedy_plan(catalog, hand, energy).len() ==> 0 <= #[trigger] greedy_plan(
                catalog,
                hand,
                energy,
            )[m] < hand.len(),
        greedy_plan(catalog, hand, energy).len() > 0 ==> cost_of(
            catalog,
            hand[greedy_plan(catalog, hand, energy)[0]],
        ) <= energy,
{
    let bash = opening_bash(catalog, hand, energy);
    if let Some(b) = bash {
        let i = choose|i: int| is_first_bash(hand, i);
        assert(b == i);
        let left0 = energy - cost_of(catalog, hand[b]);
        lemma_take_fitting_facts(catalog, hand, CardKind::Attack, b, 0, left0);
        let (attacks, left1) = take_fitting(catalog, hand, CardKind::Attack, b, 0, left0);
        lemma_take_fitting_facts(catalog, hand, CardKind::Skill, b, 0, left1);
        let (skills, _l) = take_fitting(catalog, hand, CardKind::Skill, b, 0, left1);
        assert(greedy_plan(catalog, hand, energy) == seq![b] + attacks + skills);
        assert forall|m: int| 0 <= m < greedy_plan(catalog, hand, energy).len() implies 0
            <= #[trigger] greedy_plan(catalog, hand, energy)[m] < hand.len() by {
            if m >= 1 + attacks.len() {
                assert(greedy_plan(catalog, hand, energy)[m] == skills[m - 1 - attacks.len()]);
            } else if m >= 1 {
                assert(greedy_plan(catalog, hand, energy)[m] == attacks[m - 1]);
            }
        }
    } else {
        lemma_take_fitting_facts(catalog, hand, CardKind::Attack, -1, 0, energy);
        let (attacks, left1) = take_fitting(catalog, hand, CardKind::Attack, -1, 0, energy);
        lemma_take_fitting_facts(catalog, hand, CardKind::Skill, -1, 0, left1);
        let (skills, _l) = take_fitting(catalog, hand, CardKind::Skill, -1, 0, left1);
        assert(greedy_plan(catalog, hand, energy) =~= attacks + skills);
        assert forall|m: int| 0 <= m < greedy_plan(catalog, hand, energy).len() implies 0
            <= #[trigger] greedy_plan(catalog, hand, energy)[m] < hand.len() by {
            if m >= attacks.len() {
                assert(greedy_plan(catalog, hand, energy)[m] == skills[m - attacks.len()]);
            } else {
                assert(greedy_plan(catalog, hand, energy)[m] == attacks[m]);
            }
        }
    }
}

/// Appends to `played` the cards of kind `k` (other than card `skip`) that
/// fit the energy left when reached, going through the hand in order.
fn play_fitting(
    catalog: &CardCatalog,
    hand: &[CardInstance],
    k: CardKind,
    skip: Option<usize>,
    energy: u8,
    played: &mut Vec<CardInstance>,
) -> (left: u8)
    requires
        pile_known(*catalog, hand@),
    ensures
        ({
            let skip_i: int = match skip {
                Some(s) => s as int,
                None => -1,
            };
            let (picked, l) = take_fitting(*catalog, hand@, k, skip_i, 0, energy as int);
            &&& left == l
            &&& final(played)@ == old(played)@ + picked.map_values(|m: int| hand@[m])
        }),
{
    let ghost skip_i: int = match skip {
        Some(s) => s as int,
        None => -1,
    };
    let ghost start = played@;
    let ghost target = take_fitting(*catalog, hand@, k, skip_i, 0, energy as int);
    let mut remaining = energy;
    let mut i: usize = 0;
    while i < hand.len()
        invariant
            i <= hand@.len(),
            pile_known(*catalog, hand@),
            skip_i == (match skip {
                Some(s) => s as int,
                None => -1,
            }),
            target == take_fitting(*catalog, hand@, k, skip_i, 0, energy as int),
            ({
                let (rest, l) = take_fitting(*catalog, hand@, k, skip_i, i as int, remaining as int);
                &&& l == target.1
                &&& start + target.0.map_values(|m: int| hand@[m]) == played@ + rest.map_values(
                    |m: int| hand@[m],
                )
            }),
        decreases hand@.len() - i,
    {
        let c = &hand[i];
        let is_skip = match skip {
            Some(s) => s == i,
            None => false,
        };
        proof {
            assert(catalog.spec_get(hand@[i as int].card_id@) is Some);
        }
        if !is_skip && kind(catalog, c) == k && cost(catalog, c) <= remaining {
            let ghost before = played@;
            let ghost (rest, l) = take_fitting(
                *catalog,
                hand@,
                k,
                skip_i,
                i + 1,
                remaining - cost_of(*catalog, hand@[i as int]),
            );
            remaining = remaining - cost(catalog, c);
            played.push(c.clone());
            proof {
                assert((seq![i as int] + rest).map_values(|m: int| hand@[m]) =~= seq![
                    hand@[i as int],
                ] + rest.map_values(|m: int| hand@[m]));
                assert(played@ == before.push(hand@[i as int]));
                assert(before + seq![hand@[i as int]] + rest.map_values(|m: int| hand@[m])
                    =~= played@ + rest.map_values(|m: int| hand@[m]));
            }
        }
        i += 1;
    }
    proof {
        let (rest, l) = take_fitting(*catalog, hand@, k, skip_i, i as int, remaining as int);
        assert(rest.map_values(|m: int| hand@[m]) =~= Seq::<CardInstance>::empty());
        assert(played@ + rest.map_values(|m: int| hand@[m]) =~= played@);
    }
    remaining
}

/// The cards a simple greedy player plays from `hand` with `energy`: first
/// a bash, when another attack still fits after it; then, in hand order,
/// every attack that still fits; then, in hand order, every skill that
/// still fits. (Taking in hand order each card that fits the energy left is
/// the same as repeatedly taking the first card that fits.)
pub(crate) fn greedy_play_ids_in_order(
    catalog: &CardCatalog,
    state: &CombatState,
    hand: &[CardInstance],
    energy: u8,
) -> (played: Vec<CardInstance>)
    requires
        pile_known(*catalog, hand@),
    ensures
        played@ == greedy_plan(*catalog, hand@, energy as int).map_values(|m: int| hand@[m]),
{
    let ghost h = hand@;
    let bash_key = String::from_str("bash");
    let mut remaining = energy;
    let mut played: Vec<CardInstance> = Vec::new();
    let mut bash_idx: Option<usize> = None;
    let mut i: usize = 0;
    while i < hand.len()
        invariant
            h == hand@,
            bash_key@ == "bash"@,
            i <= h.len(),
            bash_idx matches Some(b) ==> is_first_bash(h, b as int),
            bash_idx is None ==> forall|j: int| 0 <= j < i ==> h[j].card_id@ != "bash"@,
        decreases h.len() - i,
    {
        if bash_idx.is_none() && hand[i].card_id == bash_key {
            bash_idx = Some(i);
        }
        i += 1;
    }
    let mut opening: Option<usize> = None;
    if let Some(b) = bash_idx {
        proof {
            assert(catalog.spec_get(h[b as int].card_id@) is Some);
        }
        let bash_cost = cost(catalog, &hand[b]);
        if remaining >= bash_cost {
            let mut can_follow_attack = false;
            let mut j: usize = 0;
            while j < hand.len()
                invariant
                    h == hand@,
                    pile_known(*catalog, h),
                    b < h.len(),
                    bash_cost <= remaining,
                    j <= h.len(),
                    can_follow_attack == exists|q: int|
                        0 <= q < j && q != b && kind_of(*catalog, h[q]) == CardKind::Attack
                            && cost_of(*catalog, h[q]) <= remaining - bash_cost,
                decreases h.len() - j,
            {
                proof {
                    assert(catalog.spec_get(h[j as int].card_id@) is Some);
                }
                if j != b && kind(catalog, &hand[j]) == CardKind::Attack && cost(catalog, &hand[j])
                    <= remaining - bash_cost {
                    can_follow_attack = true;
                }
                j += 1;
            }
            if can_follow_attack {
                opening = Some(b);
                remaining -= bash_cost;
                played.push(hand[b].clone());
            }
        }
    }
    proof {
        let ob = opening_bash(*catalog, h, energy as int);
        if let Some(b) = bash_idx {
            let c = choose|c: int| is_first_bash(h, c);
            assert(c == b);
        }
        assert(ob == match opening {
            Some(b) => Some(b as int),
            None => None::<int>,
        });
    }
    let ghost after_opening = played@;
    remaining = play_fitting(catalog, hand, CardKind::Attack, opening, remaining, &mut played);
    let ghost after_attacks = played@;
    let _left = play_fitting(catalog, hand, CardKind::Skill, opening, remaining, &mut played);
    proof {
        let plan = greedy_plan(*catalog, h, energy as int);
        let skip: int = match opening {
            Some(b) => b as int,
            None => -1,
        };
        let left0: int = match opening {
            Some(b) => energy - cost_of(*catalog, h[b as int]),
            None => energy as int,
        };
        let (attacks, left1) = take_fitting(*catalog, h, CardKind::Attack, skip, 0, left0);
        let (skills, _l) = take_fitting(*catalog, h, CardKind::Skill, skip, 0, left1);
        let f = |m: int| h[m];
        match opening {
            Some(b) => {
                assert(plan == seq![b as int] + attacks + skills);
                assert(after_opening =~= seq![b as int].map_values(f));
            },
            None => {
                assert(plan == Seq::<int>::empty() + attacks + skills);
                assert(after_opening =~= Seq::<int>::empty().map_values(f));
            },
        }
        let opening_seq: Seq<int> = match opening {
            Some(b) => seq![b as int],
            None => Seq::<int>::empty(),
        };
        assert((opening_seq + attacks + skills).map_values(f) =~= opening_seq.map_values(f)
            + attacks.map_values(f) + skills.map_values(f));
    }
    let _ = state;
    played
}


/// What one sampled combat adds up to.
struct CombatTotals {
    turn1_damage: i128,
    turn1_block: i128,
    total_damage: i128,
    total_block: i128,
    total_taken: i128,
}

/// `x` lies within `n` times 2^95 of zero. A sum over at most `usize::MAX`
/// turns of `i32` values lies within 2^95 of zero.
pub open spec fn within_combats(x: int, n: int) -> bool {
    -n * 0x8000_0000_0000_0000_0000_0000 <= x <= n * 0x8000_0000_0000_0000_0000_0000
}

/// `x` lies within `t` times the range of `i32` on either side of zero.
pub open spec fn within_turns(x: int, t: int) -> bool {
    -t * 0x8000_0000 <= x <= t * 0x8000_0000
}

fn add_i128(a: i128, b: i128) -> (r: Result<i128, SimError>)
    ensures
        r matches Ok(v) ==> v == a + b,
        r is Err ==> !(i128::MIN <= a + b <= i128::MAX) && r == Err::<i128, SimError>(
            SimError::Overflow,
        ),
{
    match a.checked_add(b) {
        Some(v) => Ok(v),
        None => Err(SimError::Overflow),
    }
}

/// The total of `f` over the turns of a combat.
pub open spec fn sum_by(rs: Seq<TurnResult>, f: spec_fn(TurnResult) -> int) -> int
    decreases rs.len(),
{
    if rs.len() == 0 {
        0
    } else {
        sum_by(rs.drop_last(), f) + f(rs.last())
    }
}

/// `f` of the first turn of a combat, 0 when it has none.
pub open spec fn first_turn_by(rs: Seq<TurnResult>, f: spec_fn(TurnResult) -> int) -> int {
    if rs.len() > 0 {
        f(rs[0])
    } else {
        0
    }
}

pub open spec fn damage_of(r: TurnResult) -> int {
    r.damage as int
}

pub open spec fn block_of(r: TurnResult) -> int {
    r.block as int
}

pub open spec fn taken_of(r: TurnResult) -> int {
    r.taken as int
}

/// A combat that starts with the draw pile `pile`, fresh otherwise.
pub open spec fn fresh_combat(s: CombatState, pile: Seq<CardInstance>) -> bool {
    &&& s.draw_pile@ == pile
    &&& s.discard_pile@.len() == 0
    &&& s.exhaust_pile@.len() == 0
    &&& s.enemy_status.vulnerable.turns == 0
    &&& s.player_strength == 0
}

/// `results` can be the turn results of a combat of greedy turns against
/// `enemy`, starting from the draw pile `pile`.
pub open spec fn combat_outcome(
    catalog: CardCatalog,
    enemy: EnemyPattern,
    pile: Seq<CardInstance>,
    results: Seq<TurnResult>,
) -> bool {
    exists|states: Seq<CombatState>|
        #![trigger states.len(), fresh_combat(states[0], pile)]
        {
            &&& states.len() == results.len() + 1
            &&& fresh_combat(states[0], pile)
            &&& forall|t: int|
                0 <= t < results.len() ==> turn_outcome(
                    catalog,
                    #[trigger] states[t],
                    damage_on_turn(enemy.incoming_damage_by_turn@, t),
                    states[t + 1],
                    results[t],
                )
        }
}

proof fn lemma_sum_by_push(rs: Seq<TurnResult>, r: TurnResult, f: spec_fn(TurnResult) -> int)
    ensures
        sum_by(rs.push(r), f) == sum_by(rs, f) + f(r),
{
    assert(rs.push(r).drop_last() == rs);
}

proof fn lemma_taken_sum_nonnegative(rs: Seq<TurnResult>)
    requires
        forall|t: int| 0 <= t < rs.len() ==> (#[trigger] rs[t]).taken >= 0,
    ensures
        sum_by(rs, |x: TurnResult| taken_of(x)) >= 0,
    decreases rs.len(),
{
    if rs.len() > 0 {
        let r2 = rs.drop_last();
        assert forall|t: int| 0 <= t < r2.len() implies (#[trigger] r2[t]).taken >= 0 by {
            assert(r2[t] == rs[t]);
        }
        lemma_taken_sum_nonnegative(r2);
        assert(rs.last() == rs[rs.len() - 1]);
    }
}

proof fn lemma_path_taken_nonnegative(
    catalog: CardCatalog,
    enemy: EnemyPattern,
    pile: Seq<CardInstance>,
    states: Seq<CombatState>,
    results: Seq<TurnResult>,
)
    requires
        combat_path(catalog, enemy, pile, states, results),
    ensures
        forall|t: int| 0 <= t < results.len() ==> (#[trigger] results[t]).taken >= 0,
{
    assert forall|t: int| 0 <= t < results.len() implies (#[trigger] results[t]).taken >= 0 by {
        lemma_turn_taken_nonnegative(
            catalog,
            states[t],
            damage_on_turn(enemy.incoming_damage_by_turn@, t),
            states[t + 1],
            results[t],
        );
    }
}

/// In any combat the damage taken, summed over its turns, is never
/// negative; and in a combat of one turn, the first turn's damage and block
/// are the combat's totals.
pub proof fn lemma_combat_totals(
    catalog: CardCatalog,
    enemy: EnemyPattern,
    pile: Seq<CardInstance>,
    results: Seq<TurnResult>,
)
    requires
        combat_outcome(catalog, enemy, pile, results),
    ensures
        sum_by(results, |x: TurnResult| taken_of(x)) >= 0,
        results.len() == 1 ==> first_turn_by(results, |x: TurnResult| damage_of(x)) == sum_by(
            results,
            |x: TurnResult| damage_of(x),
        ) && first_turn_by(results, |x: TurnResult| block_of(x)) == sum_by(
            results,
            |x: TurnResult| block_of(x),
        ),
{
    let states = choose|states: Seq<CombatState>|
        #![trigger states.len(), fresh_combat(states[0], pile)]
        {
            &&& states.len() == results.len() + 1
            &&& fresh_combat(states[0], pile)
            &&& forall|t: int|
                0 <= t < results.len() ==> turn_outcome(
                    catalog,
                    #[trigger] states[t],
                    damage_on_turn(enemy.incoming_damage_by_turn@, t),
                    states[t + 1],
                    results[t],
                )
        };
    lemma_path_taken_nonnegative(catalog, enemy, pile, states, results);
    lemma_taken_sum_nonnegative(results);
    if results.len() == 1 {
        assert(results.last() == results[0]);
        assert(sum_by(results, |x: TurnResult| damage_of(x)) == sum_by(
            results.drop_last(),
            |x: TurnResult| damage_of(x),
        ) + damage_of(results[0]));
        assert(sum_by(results, |x: TurnResult| block_of(x)) == sum_by(
            results.drop_last(),
            |x: TurnResult| block_of(x),
        ) + block_of(results[0]));
    }
}

/// `states` and `results` are the first turns of a combat of greedy turns
/// against `enemy`, starting from the draw pile `pile`: `states[t]` is the
/// state before turn `t` and `results[t]` what that turn gave.
pub open spec fn combat_path(
    catalog: CardCatalog,
    enemy: EnemyPattern,
    pile: Seq<CardInstance>,
    states: Seq<CombatState>,
    results: Seq<TurnResult>,
) -> bool {
    &&& states.len() == results.len() + 1
    &&& fresh_combat(states[0], pile)
    &&& forall|t: int|
        0 <= t < results.len() ==> turn_outcome(
            catalog,
            #[trigger] states[t],
            damage_on_turn(enemy.incoming_damage_by_turn@, t),
            states[t + 1],
            results[t],
        )
}

/// A combat of `turns` greedy turns against `enemy` from the draw pile
/// `pile` can fail with `e`: after some of its first turns, the next turn
/// can fail with `e`.
pub open spec fn combat_failure(
    catalog: CardCatalog,
    enemy: EnemyPattern,
    pile: Seq<CardInstance>,
    turns: int,
    e: SimError,
) -> bool {
    exists|states: Seq<CombatState>, results: Seq<TurnResult>|
        #![trigger combat_path(catalog, enemy, pile, states, results)]
        combat_path(catalog, enemy, pile, states, results) && results.len() < turns
            && turn_failure(
            catalog,
            states.last(),
            damage_on_turn(enemy.incoming_damage_by_turn@, results.len() as int),
            e,
        )
}

/// Plays `turns` greedy turns of one combat from a fresh state whose draw
/// pile is `initial_draw_pile`.
fn run_one_combat(
    catalog: &CardCatalog,
    enemy: &EnemyPattern,
    initial_draw_pile: &Vec<CardInstance>,
    turns: usize,
    rng: &mut StdRng,
) -> (r: Result<CombatTotals, SimError>)
    ensures
        r matches Ok(tot) ==> exists|results: Seq<TurnResult>|
            #![trigger combat_outcome(*catalog, *enemy, initial_draw_pile@, results)]
            {
                &&& results.len() == turns
                &&& combat_outcome(*catalog, *enemy, initial_draw_pile@, results)
                &&& tot.turn1_damage == first_turn_by(results, |x: TurnResult| damage_of(x))
                &&& tot.turn1_block == first_turn_by(results, |x: TurnResult| block_of(x))
                &&& tot.total_damage == sum_by(results, |x: TurnResult| damage_of(x))
                &&& tot.total_block == sum_by(results, |x: TurnResult| block_of(x))
                &&& tot.total_taken == sum_by(results, |x: TurnResult| taken_of(x))
            },
        turns == 0 ==> r == Ok::<CombatTotals, SimError>(
            CombatTotals {
                turn1_damage: 0,
                turn1_block: 0,
                total_damage: 0,
                total_block: 0,
                total_taken: 0,
            },
        ),
        r is Err ==> turns > 0,
        r matches Err(e) ==> combat_failure(*catalog, *enemy, initial_draw_pile@, turns as int, e),
        r matches Ok(tot) ==> {
            &&& within_combats(tot.turn1_damage as int, 1)
            &&& within_combats(tot.turn1_block as int, 1)
            &&& within_combats(tot.total_damage as int, 1)
            &&& within_combats(tot.total_block as int, 1)
            &&& within_combats(tot.total_taken as int, 1)
        },
{
    let mut state = CombatState::new(clone_pile(initial_draw_pile));
    let mut tot = CombatTotals {
        turn1_damage: 0,
        turn1_block: 0,
        total_damage: 0,
        total_block: 0,
        total_taken: 0,
    };
    let ghost fd = |x: TurnResult| damage_of(x);
    let ghost fb = |x: TurnResult| block_of(x);
    let ghost ft = |x: TurnResult| taken_of(x);
    let ghost mut states: Seq<CombatState> = seq![state];
    let ghost mut results: Seq<TurnResult> = Seq::empty();
    let mut t: usize = 0;
    while t < turns
        invariant
            t <= turns,
            results.len() == t,
            states.len() == t + 1,
            states.last() == state,
            fresh_combat(states[0], initial_draw_pile@),
            forall|q: int|
                0 <= q < t ==> turn_outcome(
                    *catalog,
                    #[trigger] states[q],
                    damage_on_turn(enemy.incoming_damage_by_turn@, q),
                    states[q + 1],
                    results[q],
                ),
            fd == (|x: TurnResult| damage_of(x)),
            fb == (|x: TurnResult| block_of(x)),
            ft == (|x: TurnResult| taken_of(x)),
            tot.turn1_damage == first_turn_by(results, fd),
            tot.turn1_block == first_turn_by(results, fb),
            tot.total_damage == sum_by(results, fd),
            tot.total_block == sum_by(results, fb),
            tot.total_taken == sum_by(results, ft),
            within_turns(tot.turn1_damage as int, 1),
            within_turns(tot.turn1_block as int, 1),
            within_turns(tot.total_damage as int, t as int),
            within_turns(tot.total_block as int, t as int),
            within_turns(tot.total_taken as int, t as int),
        decreases turns - t,
    {
        let incoming = enemy.incoming_damage(t);
        let (next_state, res) = match simulate_one_turn_greedy(catalog, &state, incoming, rng) {
            Ok(x) => x,
            Err(e) => {
                proof {
                    assert(combat_path(*catalog, *enemy, initial_draw_pile@, states, results));
                    assert(combat_failure(*catalog, *enemy, initial_draw_pile@, turns as int, e));
                }
                return Err(e);
            },
        };
        let ghost prev_states = states;
        let ghost prev_results = results;
        proof {
            states = states.push(next_state);
            results = results.push(res);
            lemma_sum_by_push(prev_results, res, fd);
            lemma_sum_by_push(prev_results, res, fb);
            lemma_sum_by_push(prev_results, res, ft);
            assert forall|q: int| 0 <= q < t + 1 implies turn_outcome(
                *catalog,
                #[trigger] states[q],
                damage_on_turn(enemy.incoming_damage_by_turn@, q),
                states[q + 1],
                results[q],
            ) by {
                if q < t {
                    assert(states[q] == prev_states[q]);
                    assert(states[q + 1] == prev_states[q + 1]);
                    assert(results[q] == prev_results[q]);
                } else {
                    assert(states[q] == prev_states.last());
                }
            }
        }
        state = next_state;
        if t == 0 {
            tot.turn1_damage = res.damage as i128;
            tot.turn1_block = res.block as i128;
        }
        assert(t < usize::MAX && usize::MAX <= 0xffff_ffff_ffff_ffff);
        tot.total_damage = tot.total_damage + res.damage as i128;
        tot.total_block = tot.total_block + res.block as i128;
        tot.total_taken = tot.total_taken + res.taken as i128;
        t += 1;
    }
    proof {
        assert(combat_outcome(*catalog, *enemy, initial_draw_pile@, results));
        assert(t <= usize::MAX && usize::MAX <= 0xffff_ffff_ffff_ffff);
    }
    Ok(tot)
}

/// The total of `f` over all turns of all combats.
pub open spec fn sum_over(cs: Seq<Seq<TurnResult>>, f: spec_fn(TurnResult) -> int) -> int
    decreases cs.len(),
{
    if cs.len() == 0 {
        0
    } else {
        sum_over(cs.drop_last(), f) + sum_by(cs.last(), f)
    }
}

/// The total of `f` over the first turns of all combats.
pub open spec fn sum_first_over(cs: Seq<Seq<TurnResult>>, f: spec_fn(TurnResult) -> int) -> int
    decreases cs.len(),
{
    if cs.len() == 0 {
        0
    } else {
        sum_first_over(cs.drop_last(), f) + first_turn_by(cs.last(), f)
    }
}

/// `pile` is the draw pile laid out from the deck (see `build_draw_pile`).
pub open spec fn is_initial_pile(pile: Seq<CardInstance>, deck: Seq<DeckEntry>) -> bool {
    &&& super::draw::instance_cards(pile) == crate::model::deck::expand_lines(deck)
    &&& forall|j: int| 0 <= j < pile.len() ==> #[trigger] pile[j].instance_id == j + 1
}

/// `tot` sums the sampled `combats`.
pub open spec fn sums_combats(tot: SimulationTotals, combats: Seq<Seq<TurnResult>>) -> bool {
    &&& tot.turn1_damage == sum_first_over(combats, |x: TurnResult| damage_of(x))
    &&& tot.turn1_block == sum_first_over(combats, |x: TurnResult| block_of(x))
    &&& tot.total_damage == sum_over(combats, |x: TurnResult| damage_of(x))
    &&& tot.total_block == sum_over(combats, |x: TurnResult| block_of(x))
    &&& tot.total_taken == sum_over(combats, |x: TurnResult| taken_of(x))
}

/// `tot` sums `tot.samples` combats of `turns` greedy turns each against
/// `enemy`, all starting from the draw pile laid out from `deck`.
pub open spec fn sampled_from(
    catalog: CardCatalog,
    enemy: EnemyPattern,
    deck: Seq<DeckEntry>,
    turns: int,
    tot: SimulationTotals,
) -> bool {
    exists|pile: Seq<CardInstance>, combats: Seq<Seq<TurnResult>>|
        #![trigger is_initial_pile(pile, deck), sums_combats(tot, combats)]
        {
            &&& is_initial_pile(pile, deck)
            &&& combats.len() == tot.samples
            &&& forall|q: int|
                0 <= q < combats.len() ==> (#[trigger] combats[q]).len() == turns && combat_outcome(
                    catalog,
                    enemy,
                    pile,
                    combats[q],
                )
            &&& sums_combats(tot, combats)
        }
}

/// What a simulation is asked to do.
pub struct SimulationInput<'a> {
    pub catalog: &'a CardCatalog,
    pub deck: &'a Deck,
    pub enemy: &'a EnemyPattern,
    pub turns: usize,
    pub samples: u32,
    pub seed: u64,
}

/// The sums over all sampled combats; each expectation is its sum divided
/// by `samples`.
#[derive(Debug, Clone, Copy, PartialEq, Eq, Structural)]
pub struct SimulationTotals {
    pub samples: u32,
    pub turn1_damage: i128,
    pub turn1_block: i128,
    pub total_damage: i128,
    pub total_block: i128,
    pub total_taken: i128,
}

pub open spec fn empty_deck_message() -> Seq<char> {
    "デッキが空です"@
}

pub open spec fn no_samples_message() -> Seq<char> {
    "samplesは1以上にしてください"@
}

pub open spec fn overflow_message() -> Seq<char> {
    "シミュレーション中に数値が範囲を超えました"@
}

pub open spec fn unknown_in_hand_message() -> Seq<char> {
    "手札に未知のcard_idがあります"@
}

pub open spec fn too_many_plays_message() -> Seq<char> {
    "1ターンにプレイしたカードが多すぎます"@
}

/// The message that reports a failed combat.
pub open spec fn sim_error_message(e: SimError) -> Seq<char> {
    match e {
        SimError::Overflow => overflow_message(),
        SimError::UnknownCard => unknown_in_hand_message(),
        SimError::TooManyPlays => too_many_plays_message(),
    }
}

fn error_message(e: SimError) -> (m: String)
    ensures
        m@ == sim_error_message(e),
{
    match e {
        SimError::Overflow => {
            proof {
                reveal_strlit("シミュレーション中に数値が範囲を超えました");
            }
            String::from_str("シミュレーション中に数値が範囲を超えました")
        },
        SimError::UnknownCard => {
            proof {
                reveal_strlit("手札に未知のcard_idがあります");
            }
            String::from_str("手札に未知のcard_idがあります")
        },
        SimError::TooManyPlays => {
            proof {
                reveal_strlit("1ターンにプレイしたカードが多すぎます");
            }
            String::from_str("1ターンにプレイしたカードが多すぎます")
        },
    }
}

/// What a simulation of `input` answers, whatever the draws. The deck is
/// refused first when the catalog does not know one of its cards, then when
/// it is empty, then when no sample is asked for. Otherwise the answer sums
/// `samples` combats of `turns` greedy turns each from the deck's draw pile,
/// or reports an error that some such combat can reach; with no turns to
/// play, every sum is zero.
pub open spec fn simulation_answer(
    catalog: CardCatalog,
    deck: Seq<DeckEntry>,
    enemy: EnemyPattern,
    turns: usize,
    samples: u32,
    r: Result<SimulationTotals, String>,
) -> bool {
    let known = super::draw::all_cards_known(catalog, deck);
    let size = deck_size(deck);
    &&& !known ==> (r matches Err(msg) && exists|i: int|
        super::draw::is_first_unknown(catalog, deck, i) && msg@
            == super::draw::unknown_card_message(deck[i].0))
    &&& known && size == 0 ==> (r matches Err(msg) && msg@ == empty_deck_message())
    &&& known && size > 0 && samples == 0 ==> (r matches Err(msg) && msg@
        == no_samples_message())
    &&& known && size > 0 && samples > 0 && turns == 0 ==> r == Ok::<
        SimulationTotals,
        String,
    >(
        SimulationTotals {
            samples: samples,
            turn1_damage: 0,
            turn1_block: 0,
            total_damage: 0,
            total_block: 0,
            total_taken: 0,
        },
    )
    &&& r matches Ok(tot) ==> tot.samples == samples && samples > 0 && known && size
        > 0
    &&& r matches Ok(tot) ==> sampled_from(
        catalog,
        enemy,
        deck,
        turns as int,
        tot,
    )
    &&& known && size > 0 && samples > 0 && !(exists|pile: Seq<CardInstance>, e: SimError|
        #![trigger is_initial_pile(pile, deck), combat_failure(catalog, enemy, pile, turns as int, e)]
        is_initial_pile(pile, deck) && combat_failure(catalog, enemy, pile, turns as int, e))
        ==> r is Ok
    &&& r matches Err(msg) ==> {
        ||| !known
        ||| known && size == 0 && msg@ == empty_deck_message()
        ||| known && size > 0 && samples == 0 && msg@ == no_samples_message()
        ||| known && size > 0 && samples > 0 && exists|pile: Seq<CardInstance>, e: SimError|
            #![trigger is_initial_pile(pile, deck), sim_error_message(e)]
            is_initial_pile(pile, deck) && msg@ == sim_error_message(e) && combat_failure(
                catalog,
                enemy,
                pile,
                turns as int,
                e,
            )
    }
}

/// Samples `samples` combats of `turns` greedy turns each, all from one
/// random generator seeded with `seed`, and sums their outcomes (see
/// `simulation_answer`).
pub fn simulate(input: SimulationInput<'_>) -> (r: Result<SimulationTotals, String>)
    requires
        deck_size(input.deck@) < u32::MAX,
    ensures
        simulation_answer(
            *input.catalog,
            input.deck@,
            *input.enemy,
            input.turns,
            input.samples,
            r,
        ),
{
    let mut rng = rng_from_seed(input.seed);
    simulate_with_rng(input, &mut rng)
}

/// Samples `samples` combats of `turns` greedy turns each, all drawing from
/// `rng`, and sums their outcomes (see `simulation_answer`).
pub fn simulate_with_rng(input: SimulationInput<'_>, rng: &mut StdRng) -> (r: Result<
    SimulationTotals,
    String,
>)
    requires
        deck_size(input.deck@) < u32::MAX,
    ensures
        simulation_answer(
            *input.catalog,
            input.deck@,
            *input.enemy,
            input.turns,
            input.samples,
            r,
        ),
{
    validate_deck(input.deck, input.catalog)?;
    let draw_pile = build_draw_pile(input.deck);
    if draw_pile.len() == 0 {
        proof {
            reveal_strlit("デッキが空です");
        }
        return Err(String::from_str("デッキが空です"));
    }
    if input.samples == 0 {
        proof {
            reveal_strlit("samplesは1以上にしてください");
        }
        return Err(String::from_str("samplesは1以上にしてください"));
    }
    assert(super::draw::instance_cards(draw_pile@).len() == draw_pile@.len());
    let mut tot = SimulationTotals {
        samples: input.samples,
        turn1_damage: 0,
        turn1_block: 0,
        total_damage: 0,
        total_block: 0,
        total_taken: 0,
    };
    let ghost mut combats: Seq<Seq<TurnResult>> = Seq::empty();
    let mut n: u32 = 0;
    while n < input.samples
        invariant
            combats.len() == n,
            is_initial_pile(draw_pile@, input.deck@),
            forall|q: int|
                0 <= q < combats.len() ==> (#[trigger] combats[q]).len() == input.turns
                    && combat_outcome(*input.catalog, *input.enemy, draw_pile@, combats[q]),
            sums_combats(tot, combats),
            n <= input.samples,
            tot.samples == input.samples,
            input.samples > 0,
            super::draw::all_cards_known(*input.catalog, input.deck@),
            deck_size(input.deck@) > 0,
            within_combats(tot.turn1_damage as int, n as int),
            within_combats(tot.turn1_block as int, n as int),
            within_combats(tot.total_damage as int, n as int),
            within_combats(tot.total_block as int, n as int),
            within_combats(tot.total_taken as int, n as int),
            input.turns == 0 ==> tot == (SimulationTotals {
                samples: input.samples,
                turn1_damage: 0,
                turn1_block: 0,
                total_damage: 0,
                total_block: 0,
                total_taken: 0,
            }),
        decreases input.samples - n,
    {
        let one = match run_one_combat(input.catalog, input.enemy, &draw_pile, input.turns, rng) {
            Ok(c) => c,
            Err(e) => {
                proof {
                    assert(is_initial_pile(draw_pile@, input.deck@));
                    assert(sim_error_message(e) == sim_error_message(e));
                }
                return Err(error_message(e));
            },
        };
        let ghost rs = choose|results: Seq<TurnResult>|
            {
                &&& results.len() == input.turns
                &&& combat_outcome(*input.catalog, *input.enemy, draw_pile@, results)
                &&& one.turn1_damage == first_turn_by(results, |x: TurnResult| damage_of(x))
                &&& one.turn1_block == first_turn_by(results, |x: TurnResult| block_of(x))
                &&& one.total_damage == sum_by(results, |x: TurnResult| damage_of(x))
                &&& one.total_block == sum_by(results, |x: TurnResult| block_of(x))
                &&& one.total_taken == sum_by(results, |x: TurnResult| taken_of(x))
            };
        let ghost prev = combats;
        let ghost before = tot;
        match accumulate(&mut tot, &one) {
            Ok(()) => (),
            Err(e) => return Err(error_message(e)),
        };
        proof {
            combats = combats.push(rs);
            assert(combats.drop_last() == prev);
            assert forall|q: int|
                0 <= q < combats.len() implies (#[trigger] combats[q]).len() == input.turns
                    && combat_outcome(*input.catalog, *input.enemy, draw_pile@, combats[q]) by {
                if q < prev.len() {
                    assert(combats[q] == prev[q]);
                }
            }
        }
        n += 1;
    }
    proof {
        let pile = draw_pile@;
        assert(is_initial_pile(pile, input.deck@) && sums_combats(tot, combats));
        assert(combats.len() == input.samples);
        assert(forall|q: int|
            0 <= q < combats.len() ==> (#[trigger] combats[q]).len() == input.turns
                && combat_outcome(*input.catalog, *input.enemy, pile, combats[q]));
        assert(sampled_from(*input.catalog, *input.enemy, input.deck@, input.turns as int, tot));
    }
    Ok(tot)
}

/// `x` lies in the range of `i128`.
pub open spec fn fits_i128(x: int) -> bool {
    i128::MIN <= x <= i128::MAX
}

/// Adds the totals of one combat to the running sums; fails, with an
/// overflow, where a sum leaves the range of `i128`.
fn accumulate(tot: &mut SimulationTotals, one: &CombatTotals) -> (r: Result<(), SimError>)
    ensures
        final(tot).samples == old(tot).samples,
        r is Ok <==> fits_i128(old(tot).turn1_damage + one.turn1_damage) && fits_i128(
            old(tot).turn1_block + one.turn1_block,
        ) && fits_i128(old(tot).total_damage + one.total_damage) && fits_i128(
            old(tot).total_block + one.total_block,
        ) && fits_i128(old(tot).total_taken + one.total_taken),
        r is Err ==> r == Err::<(), SimError>(SimError::Overflow),
        r is Ok ==> {
            &&& final(tot).turn1_damage == old(tot).turn1_damage + one.turn1_damage
            &&& final(tot).turn1_block == old(tot).turn1_block + one.turn1_block
            &&& final(tot).total_damage == old(tot).total_damage + one.total_damage
            &&& final(tot).total_block == old(tot).total_block + one.total_block
            &&& final(tot).total_taken == old(tot).total_taken + one.total_taken
        },
{
    tot.turn1_damage = add_i128(tot.turn1_damage, one.turn1_damage as i128)?;
    tot.turn1_block = add_i128(tot.turn1_block, one.turn1_block as i128)?;
    tot.total_damage = add_i128(tot.total_damage, one.total_damage as i128)?;
    tot.total_block = add_i128(tot.total_block, one.total_block as i128)?;
    tot.total_taken = add_i128(tot.total_taken, one.total_taken as i128)?;
    Ok(())
}

/// The greedy plan opens with the hand's first bash whenever that bash fits
/// the energy and some other attack of the hand, wherever it sits, still
/// fits the energy left after the bash.
pub proof fn lemma_bash_opens_the_plan(
    catalog: CardCatalog,
    hand: Seq<CardInstance>,
    energy: int,
    i: int,
    j: int,
)
    requires
        0 <= energy,
        0 <= i < hand.len(),
        hand[i].card_id@ == "bash"@,
        forall|k: int| 0 <= k < i ==> hand[k].card_id@ != "bash"@,
        cost_of(catalog, hand[i]) <= energy,
        0 <= j < hand.len(),
        j != i,
        kind_of(catalog, hand[j]) == CardKind::Attack,
        cost_of(catalog, hand[j]) <= energy - cost_of(catalog, hand[i]),
    ensures
        greedy_plan(catalog, hand, energy).len() > 0,
        greedy_plan(catalog, hand, energy)[0] == i,
{
    assert(is_first_bash(hand, i));
    let b = choose|b: int| is_first_bash(hand, b);
    assert(is_first_bash(hand, b));
    if b < i {
        assert(hand[b].card_id@ != "bash"@);
    }
    if i < b {
        assert(hand[i].card_id@ != "bash"@);
    }
    assert(b == i);
    assert(opening_bash(catalog, hand, energy) == Some(i));
    let left0 = energy - cost_of(catalog, hand[i]);
    let (attacks, left1) = take_fitting(catalog, hand, CardKind::Attack, i, 0, left0);
    let (skills, _l) = take_fitting(catalog, hand, CardKind::Skill, i, 0, left1);
    assert(greedy_plan(catalog, hand, energy) == seq![i] + attacks + skills);
}

} // verus!
