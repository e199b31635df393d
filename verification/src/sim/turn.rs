use rand::rngs::StdRng;
use vstd::multiset::Multiset;
use vstd::prelude::*;

use crate::model::card::CardDef;
use crate::model::{CardCatalog, CardEffect};

use super::combat_state::{added_vulnerable, CombatState};
use super::draw::{draw_hand_random_n, CardInstance};
use super::evaluate::{apply_vulnerable_damage_multiplier, fits_i32, vulnerable_damage, TurnResult};
use super::expectation::{
    cost_of, def_of, greedy_plan, greedy_play_ids_in_order, lemma_greedy_plan_first_fits, pile_known,
};

verus! {

broadcast use vstd::seq_lib::group_to_multiset_ensures, vstd::seq_lib::lemma_multiset_commutative,
    vstd::multiset::group_multiset_axioms;

/// Why a sampled combat could not be carried to its end.
#[derive(Debug, Clone, Copy, PartialEq, Eq, Structural)]
pub enum SimError {
    /// A running total left the range of its integer type.
    Overflow,
    /// A card in hand is not in the catalog.
    UnknownCard,
    /// More cards were played in one turn than a vector can hold.
    TooManyPlays,
}

/// A turn in progress, as plain values: the piles, the enemy's vulnerable
/// turns, the player's strength, the hand, the energy left, the block,
/// damage and hit points lost so far, the strength gained for this turn, the
/// cards played, and those of them that go to the discard pile when the turn
/// ends (the played cards that do not exhaust themselves).
#[verifier::ext_equal]
pub struct TurnView {
    pub draw: Seq<CardInstance>,
    pub discard: Seq<CardInstance>,
    pub exhaust: Seq<CardInstance>,
    pub vulnerable: u8,
    pub strength: i32,
    pub hand: Seq<CardInstance>,
    pub energy: i32,
    pub block: i32,
    pub damage: i32,
    pub hp_loss: i32,
    pub temp_strength: i32,
    pub played: Seq<CardInstance>,
    pub spent: Seq<CardInstance>,
}

/// The state of a turn in progress.
struct Turn {
    state: CombatState,
    hand: Vec<CardInstance>,
    energy: i32,
    block: i32,
    damage: i32,
    self_hp_loss: i32,
    strength_this_turn: i32,
    played: Vec<CardInstance>,
    spent: Vec<CardInstance>,
}

spec fn view_of(t: Turn) -> TurnView {
    TurnView {
        draw: t.state.draw_pile@,
        discard: t.state.discard_pile@,
        exhaust: t.state.exhaust_pile@,
        vulnerable: t.state.enemy_status.vulnerable.turns,
        strength: t.state.player_strength,
        hand: t.hand@,
        energy: t.energy,
        block: t.block,
        damage: t.damage,
        hp_loss: t.self_hp_loss,
        temp_strength: t.strength_this_turn,
        played: t.played@,
        spent: t.spent@,
    }
}

/// `drawn` is what drawing `count` cards gives from the piles `draw` and
/// `discard`, which become `draw2` and `discard2`: the top cards of the draw
/// pile first, then cards of the reshuffled discard pile; no card is lost
/// or made up.
pub open spec fn is_draw(
    draw: Seq<CardInstance>,
    discard: Seq<CardInstance>,
    count: int,
    drawn: Seq<CardInstance>,
    draw2: Seq<CardInstance>,
    discard2: Seq<CardInstance>,
) -> bool {
    &&& drawn.len() == (if count <= draw.len() + discard.len() {
        count
    } else {
        (draw.len() + discard.len()) as int
    })
    &&& drawn.to_multiset().add(draw2.to_multiset()).add(discard2.to_multiset())
        == draw.to_multiset().add(discard.to_multiset())
    &&& count <= draw.len() ==> {
        &&& drawn == draw.skip(draw.len() - count).reverse()
        &&& draw2 == draw.take(draw.len() - count)
        &&& discard2 == discard
    }
    &&& count > draw.len() ==> drawn.take(draw.len() as int) == draw.reverse() && discard2.len() == 0
}

/// Draws up to `n` cards for the turn (see `draw_hand_random_n`).
fn draw_n(state: &mut CombatState, n: u8, rng: &mut StdRng) -> (drawn: Vec<CardInstance>)
    ensures
        is_draw(
            old(state).draw_pile@,
            old(state).discard_pile@,
            n as int,
            drawn@,
            final(state).draw_pile@,
            final(state).discard_pile@,
        ),
        final(state).exhaust_pile@ == old(state).exhaust_pile@,
        final(state).enemy_status == old(state).enemy_status,
        final(state).player_strength == old(state).player_strength,
{
    draw_hand_random_n(&mut state.draw_pile, &mut state.discard_pile, n as usize, rng)
}

/// The effects of a card given by its plain fields: its damage as one hit,
/// its block, its vulnerable, each where it is not zero.
pub open spec fn legacy_effects(card: CardDef, upgraded: bool) -> Seq<CardEffect> {
    let dmg = card.spec_base_damage_for(upgraded);
    let blk = card.spec_base_block_for(upgraded);
    let vul = card.spec_apply_vulnerable_for(upgraded);
    (if dmg != 0 {
        seq![CardEffect::Damage { amount: dmg, hits: 1 }]
    } else {
        Seq::empty()
    }) + (if blk != 0 {
        seq![CardEffect::Block { amount: blk }]
    } else {
        Seq::empty()
    }) + (if vul != 0 {
        seq![CardEffect::ApplyVulnerable { turns: vul }]
    } else {
        Seq::empty()
    })
}

/// The effects that playing a copy of the card has: its effect list, or,
/// where that is empty, the effects of its plain fields.
pub open spec fn resolved_effects(card: CardDef, upgraded: bool) -> Seq<CardEffect> {
    if card.spec_effects_for(upgraded).len() == 0 {
        legacy_effects(card, upgraded)
    } else {
        card.spec_effects_for(upgraded)
    }
}

fn build_legacy_effects(card: &CardDef, upgraded: bool) -> (e: Vec<CardEffect>)
    ensures
        e@ == legacy_effects(*card, upgraded),
{
    let mut v: Vec<CardEffect> = Vec::new();
    let dmg = card.base_damage_for(upgraded);
    if dmg != 0 {
        v.push(CardEffect::Damage { amount: dmg, hits: 1 });
    }
    let blk = card.base_block_for(upgraded);
    if blk != 0 {
        v.push(CardEffect::Block { amount: blk });
    }
    let vul = card.apply_vulnerable_for(upgraded);
    if vul != 0 {
        v.push(CardEffect::ApplyVulnerable { turns: vul });
    }
    assert(v@ =~= legacy_effects(*card, upgraded));
    v
}

/// The damage of one hit: the amount plus both strengths, one and a half
/// times (toward zero) against a vulnerable enemy.
pub open spec fn hit_damage(amount: i32, strength: i32, temp_strength: i32, vulnerable: u8) -> int {
    let d = amount + strength + temp_strength;
    if vulnerable > 0 {
        vulnerable_damage(d)
    } else {
        d
    }
}

/// The largest instance id of the pile, 0 for an empty pile.
pub open spec fn max_instance_id(pile: Seq<CardInstance>) -> u32
    decreases pile.len(),
{
    if pile.len() == 0 {
        0
    } else {
        let m = max_instance_id(pile.drop_last());
        if pile.last().instance_id > m {
            pile.last().instance_id
        } else {
            m
        }
    }
}

pub open spec fn max_with(pile: Seq<CardInstance>, start: u32) -> u32 {
    if max_instance_id(pile) > start {
        max_instance_id(pile)
    } else {
        start
    }
}

/// The largest instance id among the draw pile, the discard pile and the hand.
pub open spec fn turn_max_id(t: TurnView) -> u32 {
    max_with(t.hand, max_with(t.discard, max_with(t.draw, 0)))
}

/// `count` new copies of a card, numbered on from `max_id`.
pub open spec fn new_copies(max_id: u32, card_id: String, upgraded: bool, count: u8) -> Seq<
    CardInstance,
> {
    Seq::new(
        count as nat,
        |i: int| CardInstance { instance_id: (max_id + 1 + i) as u32, card_id, upgraded },
    )
}

/// How many cards `PutDiscardOnTop` moves.
pub open spec fn moved_count(count: u8, discard_len: nat) -> int {
    if count <= discard_len {
        count as int
    } else {
        discard_len as int
    }
}

/// Playing effect `e` of card `inst` takes the turn from `t` to `t2`.
pub open spec fn effect_step(t: TurnView, e: CardEffect, inst: CardInstance, t2: TurnView) -> bool {
    match e {
        CardEffect::Damage { amount, hits } => {
            &&& t2 == TurnView { damage: t2.damage, ..t }
            &&& t2.damage == t.damage + hit_damage(amount, t.strength, t.temp_strength, t.vulnerable)
                * hits
        },
        CardEffect::Block { amount } => {
            &&& t2 == TurnView { block: t2.block, ..t }
            &&& t2.block == t.block + amount
        },
        CardEffect::ApplyVulnerable { turns } => t2 == TurnView {
            vulnerable: added_vulnerable(t.vulnerable, turns),
            ..t
        },
        CardEffect::Draw { count } => {
            &&& t2 == TurnView { draw: t2.draw, discard: t2.discard, hand: t2.hand, ..t }
            &&& t2.hand.len() >= t.hand.len()
            &&& t2.hand.take(t.hand.len() as int) == t.hand
            &&& is_draw(
                t.draw,
                t.discard,
                count as int,
                t2.hand.skip(t.hand.len() as int),
                t2.draw,
                t2.discard,
            )
        },
        CardEffect::GainEnergy { amount } => {
            &&& t2 == TurnView { energy: t2.energy, ..t }
            &&& t2.energy == t.energy + amount
        },
        CardEffect::GainStrengthThisTurn { amount } => {
            &&& t2 == TurnView { temp_strength: t2.temp_strength, ..t }
            &&& t2.temp_strength == t.temp_strength + amount
        },
        CardEffect::GainStrength { amount } => {
            &&& t2 == TurnView { strength: t2.strength, ..t }
            &&& t2.strength == t.strength + amount
        },
        CardEffect::LoseHp { amount } => {
            &&& t2 == TurnView { hp_loss: t2.hp_loss, ..t }
            &&& t2.hp_loss == t.hp_loss + amount
        },
        CardEffect::AddCopyToDiscard { card_id, upgraded, count } => t2 == TurnView {
            discard: t.discard + new_copies(turn_max_id(t), card_id, upgraded, count),
            ..t
        },
        CardEffect::ExhaustSelf => t2 == TurnView { exhaust: t.exhaust.push(inst), ..t },
        CardEffect::PutDiscardOnTop { count } => {
            let m = moved_count(count, t.discard.len());
            t2 == TurnView {
                draw: t.draw + t.discard.skip(t.discard.len() - m).reverse(),
                discard: t.discard.take(t.discard.len() - m),
                ..t
            }
        },
        CardEffect::Unsupported { .. } => t2 == t,
    }
}

/// `views` goes through the effects `effs` of card `inst` one after the other.
pub open spec fn effects_chain(views: Seq<TurnView>, effs: Seq<CardEffect>, inst: CardInstance) -> bool {
    &&& views.len() == effs.len() + 1
    &&& forall|k: int|
        0 <= k < effs.len() ==> effect_step(#[trigger] views[k], effs[k], inst, views[k + 1])
}

/// Playing effect `e` in the turn `t` takes a total out of the range of its
/// integer type: the damage of a hit (with both strengths, and tripled
/// against a vulnerable enemy), the hits together, or the damage, block,
/// energy, strength or hit-point total; or the id of a new copy passes
/// `u32::MAX`.
pub open spec fn effect_overflows(t: TurnView, e: CardEffect) -> bool {
    match e {
        CardEffect::Damage { amount, hits } => {
            let d = amount + t.strength + t.temp_strength;
            let h = hit_damage(amount, t.strength, t.temp_strength, t.vulnerable);
            ||| !fits_i32(amount + t.strength)
            ||| !fits_i32(d)
            ||| (t.vulnerable > 0 && !fits_i32(d * 3))
            ||| !fits_i32(h * hits)
            ||| !fits_i32(t.damage + h * hits)
        },
        CardEffect::Block { amount } => !fits_i32(t.block + amount),
        CardEffect::GainEnergy { amount } => !fits_i32(t.energy + amount),
        CardEffect::GainStrengthThisTurn { amount } => !fits_i32(t.temp_strength + amount),
        CardEffect::GainStrength { amount } => !fits_i32(t.strength + amount),
        CardEffect::LoseHp { amount } => !fits_i32(t.hp_loss + amount),
        CardEffect::AddCopyToDiscard { count, .. } => turn_max_id(t) + count > u32::MAX,
        _ => false,
    }
}

fn max_id_of(pile: &Vec<CardInstance>, start: u32) -> (m: u32)
    ensures
        m == max_with(pile@, start),
{
    let mut m = start;
    let mut i: usize = 0;
    while i < pile.len()
        invariant
            i <= pile@.len(),
            m == max_with(pile@.take(i as int), start),
        decreases pile@.len() - i,
    {
        proof {
            assert(pile@.take(i + 1).drop_last() == pile@.take(i as int));
        }
        if pile[i].instance_id > m {
            m = pile[i].instance_id;
        }
        i += 1;
    }
    assert(pile@.take(pile@.len() as int) == pile@);
    m
}

fn overflow<T>() -> (r: Result<T, SimError>)
    ensures
        r == Err::<T, SimError>(SimError::Overflow),
{
    Err(SimError::Overflow)
}

/// Applies one effect of the card `inst` to the turn.
fn apply_effect(t: &mut Turn, eff: &CardEffect, inst: &CardInstance, rng: &mut StdRng) -> (r: Result<
    (),
    SimError,
>)
    ensures
        r is Ok ==> effect_step(view_of(*old(t)), *eff, *inst, view_of(*final(t))),
        r is Err ==> r == Err::<(), SimError>(SimError::Overflow),
        r is Err <==> effect_overflows(view_of(*old(t)), *eff),
{
    let ghost v = view_of(*t);
    match eff {
        CardEffect::Damage { amount, hits } => {
            let d0 = match amount.checked_add(t.state.player_strength) {
                Some(x) => x,
                None => return overflow(),
            };
            let mut d = match d0.checked_add(t.strength_this_turn) {
                Some(x) => x,
                None => return overflow(),
            };
            if t.state.enemy_status.vulnerable.is_active() {
                if d < i32::MIN / 3 || d > i32::MAX / 3 {
                    return overflow();
                }
                d = apply_vulnerable_damage_multiplier(d);
            }
            let total = match d.checked_mul(*hits as i32) {
                Some(x) => x,
                None => return overflow(),
            };
            t.damage = match t.damage.checked_add(total) {
                Some(x) => x,
                None => return overflow(),
            };
            assert(view_of(*t) =~= TurnView { damage: view_of(*t).damage, ..v });
        },
        CardEffect::Block { amount } => {
            t.block = match t.block.checked_add(*amount) {
                Some(x) => x,
                None => return overflow(),
            };
            assert(view_of(*t) =~= TurnView { block: view_of(*t).block, ..v });
        },
        CardEffect::ApplyVulnerable { turns } => {
            t.state.apply_vulnerable(*turns);
            assert(view_of(*t) =~= TurnView {
                vulnerable: added_vulnerable(v.vulnerable, *turns),
                ..v
            });
        },
        CardEffect::Draw { count } => {
            let mut drawn = draw_n(&mut t.state, *count, rng);
            let ghost d = drawn@;
            t.hand.append(&mut drawn);
            proof {
                let w = view_of(*t);
                assert(w.hand.take(v.hand.len() as int) =~= v.hand);
                assert(w.hand.skip(v.hand.len() as int) =~= d);
                assert(w =~= TurnView { draw: w.draw, discard: w.discard, hand: w.hand, ..v });
            }
        },
        CardEffect::GainEnergy { amount } => {
            t.energy = match t.energy.checked_add(*amount as i32) {
                Some(x) => x,
                None => return overflow(),
            };
            assert(view_of(*t) =~= TurnView { energy: view_of(*t).energy, ..v });
        },
        CardEffect::GainStrengthThisTurn { amount } => {
            t.strength_this_turn = match t.strength_this_turn.checked_add(*amount) {
                Some(x) => x,
                None => return overflow(),
            };
            assert(view_of(*t) =~= TurnView { temp_strength: view_of(*t).temp_strength, ..v });
        },
        CardEffect::GainStrength { amount } => {
            t.state.player_strength = match t.state.player_strength.checked_add(*amount) {
                Some(x) => x,
                None => return overflow(),
            };
            assert(view_of(*t) =~= TurnView { strength: view_of(*t).strength, ..v });
        },
        CardEffect::LoseHp { amount } => {
            t.self_hp_loss = match t.self_hp_loss.checked_add(*amount) {
                Some(x) => x,
                None => return overflow(),
            };
            assert(view_of(*t) =~= TurnView { hp_loss: view_of(*t).hp_loss, ..v });
        },
        CardEffect::AddCopyToDiscard { card_id, upgraded, count } => {
            let m1 = max_id_of(&t.state.draw_pile, 0);
            let m2 = max_id_of(&t.state.discard_pile, m1);
            let max_id = max_id_of(&t.hand, m2);
            let ghost copies = new_copies(max_id, *card_id, *upgraded, *count);
            let mut i: u8 = 0;
            while i < *count
                invariant
                    i <= *count,
                    max_id == turn_max_id(v),
                    max_id + i <= u32::MAX,
                    v == view_of(*old(t)),
                    *eff == (CardEffect::AddCopyToDiscard {
                        card_id: *card_id,
                        upgraded: *upgraded,
                        count: *count,
                    }),
                    copies == new_copies(max_id, *card_id, *upgraded, *count),
                    view_of(*t) == (TurnView { discard: v.discard + copies.take(i as int), ..v }),
                decreases *count - i,
            {
                let id = match max_id.checked_add(1) {
                    Some(x) => match x.checked_add(i as u32) {
                        Some(y) => y,
                        None => return overflow(),
                    },
                    None => return overflow(),
                };
                t.state.discard_pile.push(
                    CardInstance { instance_id: id, card_id: card_id.clone(), upgraded: *upgraded },
                );
                proof {
                    assert(copies[i as int] == CardInstance {
                        instance_id: id,
                        card_id: *card_id,
                        upgraded: *upgraded,
                    });
                    assert(v.discard + copies.take(i + 1) =~= (v.discard + copies.take(i as int)).push(
                        copies[i as int],
                    ));
                    assert(view_of(*t) =~= TurnView { discard: v.discard + copies.take(i + 1), ..v });
                }
                i += 1;
            }
            assert(copies.take(*count as int) =~= copies);
        },
        CardEffect::ExhaustSelf => {
            t.state.exhaust_pile.push(inst.clone());
            assert(view_of(*t) =~= TurnView { exhaust: v.exhaust.push(*inst), ..v });
        },
        CardEffect::PutDiscardOnTop { count } => {
            let ghost m = moved_count(*count, v.discard.len());
            let mut i: u8 = 0;
            while i < *count
                invariant
                    i <= *count,
                    m == moved_count(*count, v.discard.len()),
                    ({
                        let j = moved_count(i, v.discard.len());
                        view_of(*t) == (TurnView {
                            draw: v.draw + v.discard.skip(v.discard.len() - j).reverse(),
                            discard: v.discard.take(v.discard.len() - j),
                            ..v
                        })
                    }),
                decreases *count - i,
            {
                let ghost j = moved_count(i, v.discard.len());
                let ghost before = view_of(*t);
                if let Some(c) = t.state.discard_pile.pop() {
                    t.state.draw_pile.push(c);
                    proof {
                        let j2 = j + 1;
                        assert(moved_count((i + 1) as u8, v.discard.len()) == j2);
                        assert(c == v.discard[v.discard.len() - j2]);
                        assert(v.discard.take(v.discard.len() - j).drop_last() =~= v.discard.take(
                            v.discard.len() - j2,
                        ));
                        assert(v.draw + v.discard.skip(v.discard.len() - j2).reverse() =~= (v.draw
                            + v.discard.skip(v.discard.len() - j).reverse()).push(c));
                        assert(view_of(*t) =~= TurnView {
                            draw: v.draw + v.discard.skip(v.discard.len() - j2).reverse(),
                            discard: v.discard.take(v.discard.len() - j2),
                            ..v
                        });
                    }
                } else {
                    proof {
                        assert(moved_count((i + 1) as u8, v.discard.len()) == j);
                    }
                }
                i += 1;
            }
        },
        CardEffect::Unsupported { .. } => {
            assert(view_of(*t) =~= v);
        },
    }
    Ok(())
}

/// Whether one of the effects exhausts the card.
fn has_exhaust_self(effects: &[CardEffect]) -> (b: bool)
    ensures
        b == exhausts_self(effects@),
{
    let mut i: usize = 0;
    while i < effects.len()
        invariant
            i <= effects@.len(),
            forall|j: int| 0 <= j < i ==> !(#[trigger] effects@[j] is ExhaustSelf),
        decreases effects@.len() - i,
    {
        if let CardEffect::ExhaustSelf = &effects[i] {
            assert(effects@[i as int] is ExhaustSelf);
            return true;
        }
        i += 1;
    }
    false
}

/// Checks that the catalog knows every card of the pile.
fn all_known(catalog: &CardCatalog, pile: &Vec<CardInstance>) -> (b: bool)
    ensures
        b == pile_known(*catalog, pile@),
{
    let mut i: usize = 0;
    while i < pile.len()
        invariant
            i <= pile@.len(),
            forall|j: int| 0 <= j < i ==> (#[trigger] catalog.spec_get(pile@[j].card_id@)) is Some,
        decreases pile@.len() - i,
    {
        if catalog.get(pile[i].card_id.as_str()).is_none() {
            return false;
        }
        i += 1;
    }
    true
}

/// The first card of the hand with the given instance id.
fn position_of_instance(hand: &Vec<CardInstance>, id: u32) -> (r: Option<usize>)
    ensures
        match r {
            Some(i) => i < hand@.len() && hand@[i as int].instance_id == id && forall|j: int|
                0 <= j < i ==> hand@[j].instance_id != id,
            None => forall|j: int| 0 <= j < hand@.len() ==> hand@[j].instance_id != id,
        },
{
    let mut i: usize = 0;
    while i < hand.len()
        invariant
            i <= hand@.len(),
            forall|j: int| 0 <= j < i ==> hand@[j].instance_id != id,
        decreases hand@.len() - i,
    {
        if hand[i].instance_id == id {
            return Some(i);
        }
        i += 1;
    }
    None
}

/// `i` is the first card of the hand with instance id `id`.
pub open spec fn is_first_with_instance_id(hand: Seq<CardInstance>, id: u32, i: int) -> bool {
    &&& 0 <= i < hand.len()
    &&& hand[i].instance_id == id
    &&& forall|j: int| 0 <= j < i ==> hand[j].instance_id != id
}

/// The greedy plan for the hand, with the energy as the planner sees it (a byte).
pub open spec fn turn_plan(catalog: CardCatalog, t: TurnView) -> Seq<int> {
    greedy_plan(catalog, t.hand, (t.energy as u8) as int)
}

/// The turn ends: no energy is left, or the plan for the hand is empty.
pub open spec fn turn_stopped(catalog: CardCatalog, t: TurnView) -> bool {
    t.energy <= 0 || (pile_known(catalog, t.hand) && turn_plan(catalog, t).len() == 0)
}

/// The hand position of the card played next: the first card with the
/// instance id of the plan's first card.
pub open spec fn chosen_card(catalog: CardCatalog, t: TurnView) -> int {
    let id = t.hand[turn_plan(catalog, t)[0]].instance_id;
    choose|i: int| is_first_with_instance_id(t.hand, id, i)
}

/// One of the effects exhausts the card that has them.
pub open spec fn exhausts_self(effs: Seq<CardEffect>) -> bool {
    exists|k: int| 0 <= k < effs.len() && (#[trigger] effs[k]) is ExhaustSelf
}

/// The turn before a card is played: the card leaves the hand, and, where
/// the energy covers it, is paid for and counts as played; unless it
/// exhausts itself (`exhausting`), it is bound for the discard pile.
pub open spec fn paid(t: TurnView, i: int, c: int, exhausting: bool) -> TurnView {
    let rest = TurnView { hand: t.hand.remove(i), ..t };
    if c > t.energy {
        rest
    } else {
        TurnView {
            energy: (t.energy - c) as i32,
            played: t.played.push(t.hand[i]),
            spent: if exhausting {
                t.spent
            } else {
                t.spent.push(t.hand[i])
            },
            ..rest
        }
    }
}

/// One step of the greedy turn takes it from `t` to `t2`: the chosen card
/// leaves the hand; where the energy covers its cost it is paid for, counts
/// as played and its effects apply in order.
pub open spec fn turn_step(catalog: CardCatalog, t: TurnView, t2: TurnView) -> bool {
    &&& t.energy > 0
    &&& pile_known(catalog, t.hand)
    &&& turn_plan(catalog, t).len() > 0
    &&& {
        let i = chosen_card(catalog, t);
        let inst = t.hand[i];
        let c = cost_of(catalog, inst) as int;
        let effs = resolved_effects(def_of(catalog, inst), inst.upgraded);
        if c > t.energy {
            t2 == paid(t, i, c, exhausts_self(effs))
        } else {
            exists|views: Seq<TurnView>|
                #![trigger effects_chain(views, resolved_effects(def_of(catalog, inst), inst.upgraded), inst)]
                effects_chain(views, effs, inst) && views[0] == paid(t, i, c, exhausts_self(effs))
                    && views.last() == t2
        }
    }
}

/// Each entry of `trace` follows from the one before by a turn step.
pub open spec fn turn_trace(catalog: CardCatalog, trace: Seq<TurnView>) -> bool {
    &&& trace.len() >= 1
    &&& forall|k: int| 0 <= k < trace.len() - 1 ==> turn_step(catalog, #[trigger] trace[k], trace[k + 1])
}

/// The turn opens with a hand of five drawn from the state's piles and three energy.
pub open spec fn turn_opening(state: CombatState, v: TurnView) -> bool {
    &&& is_draw(state.draw_pile@, state.discard_pile@, 5, v.hand, v.draw, v.discard)
    &&& v.exhaust == state.exhaust_pile@
    &&& v.vulnerable == state.enemy_status.vulnerable.turns
    &&& v.strength == state.player_strength
    &&& v.energy == 3
    &&& v.block == 0
    &&& v.damage == 0
    &&& v.hp_loss == 0
    &&& v.temp_strength == 0
    &&& v.played.len() == 0
    &&& v.spent.len() == 0
}

/// The end of the turn `last`: the hand and the played cards that did not
/// exhaust themselves go onto the discard pile, the vulnerable counter goes down, and damage taken is the
/// unblocked incoming damage plus the hit points lost.
pub open spec fn turn_closing(last: TurnView, incoming: i32, s2: CombatState, res: TurnResult) -> bool {
    &&& s2.draw_pile@ == last.draw
    &&& s2.discard_pile@ == last.discard + last.hand + last.spent
    &&& s2.exhaust_pile@ == last.exhaust
    &&& s2.enemy_status.vulnerable.turns == (if last.vulnerable == 0 {
        0
    } else {
        last.vulnerable - 1
    })
    &&& s2.player_strength == last.strength
    &&& res.damage == last.damage
    &&& res.block == last.block
    &&& res.taken == (if incoming - last.block > 0 {
        incoming - last.block
    } else {
        0
    }) + (if last.hp_loss > 0 {
        last.hp_loss
    } else {
        0
    })
}

/// A greedy turn from `state` against `incoming` damage can end in `s2`
/// with result `res`.
pub open spec fn turn_outcome(
    catalog: CardCatalog,
    state: CombatState,
    incoming: i32,
    s2: CombatState,
    res: TurnResult,
) -> bool {
    exists|trace: Seq<TurnView>|
        #![trigger turn_trace(catalog, trace)]
        turn_trace(catalog, trace) && turn_opening(state, trace[0]) && turn_stopped(
            catalog,
            trace.last(),
        ) && turn_closing(trace.last(), incoming, s2, res)
}

/// `mid` is the turn `t` once the next card of its greedy plan is paid for:
/// energy is left, the hand is known, the plan is not empty, the card's cost
/// fits the energy and a vector can hold one more played card.
pub open spec fn pays_next_card(catalog: CardCatalog, t: TurnView, mid: TurnView) -> bool {
    &&& t.energy > 0
    &&& pile_known(catalog, t.hand)
    &&& turn_plan(catalog, t).len() > 0
    &&& {
        let i = chosen_card(catalog, t);
        let inst = t.hand[i];
        let c = cost_of(catalog, inst) as int;
        let effs = resolved_effects(def_of(catalog, inst), inst.upgraded);
        &&& c <= t.energy
        &&& t.played.len() < usize::MAX
        &&& mid == paid(t, i, c, exhausts_self(effs))
    }
}

/// The next card of the greedy turn from `t` is paid for, and going through
/// its effects in order reaches one that leaves the range of an integer.
pub open spec fn card_overflows(catalog: CardCatalog, t: TurnView) -> bool {
    let inst = t.hand[chosen_card(catalog, t)];
    let effs = resolved_effects(def_of(catalog, inst), inst.upgraded);
    exists|views: Seq<TurnView>, k: int|
        #![trigger effects_chain(views, effs.take(k), inst)]
        pays_next_card(catalog, t, views[0]) && 0 <= k < effs.len() && effects_chain(
            views,
            effs.take(k),
            inst,
        ) && effect_overflows(views.last(), effs[k])
}

/// The next card of the greedy turn from `t` would be paid for, but as many
/// cards as a vector can hold have been played already.
pub open spec fn plays_exhausted(catalog: CardCatalog, t: TurnView) -> bool {
    &&& t.energy > 0
    &&& pile_known(catalog, t.hand)
    &&& turn_plan(catalog, t).len() > 0
    &&& cost_of(catalog, t.hand[chosen_card(catalog, t)]) <= t.energy
    &&& t.played.len() == usize::MAX
}

/// Closing the turn `last` against `incoming` damage leaves the range of
/// `i32`: the unblocked damage, or that plus the hit points lost.
pub open spec fn closing_overflows(last: TurnView, incoming: i32) -> bool {
    let unblocked = incoming - last.block;
    ||| !fits_i32(unblocked)
    ||| !fits_i32(
        (if unblocked > 0 {
            unblocked
        } else {
            0
        }) + (if last.hp_loss > 0 {
            last.hp_loss as int
        } else {
            0
        }),
    )
}

/// A greedy turn from `state` against `incoming` damage can fail with `e`:
/// some trace of the turn reaches a hand, with energy left, that holds an
/// unknown card; or a card to pay for when no more plays can be counted; or
/// a total out of range, in a card's effects or when the turn closes.
pub open spec fn turn_failure(catalog: CardCatalog, state: CombatState, incoming: i32, e: SimError) -> bool {
    exists|trace: Seq<TurnView>|
        #![trigger turn_trace(catalog, trace)]
        turn_trace(catalog, trace) && turn_opening(state, trace[0]) && match e {
            SimError::UnknownCard => trace.last().energy > 0 && !pile_known(catalog, trace.last().hand),
            SimError::TooManyPlays => plays_exhausted(catalog, trace.last()),
            SimError::Overflow => card_overflows(catalog, trace.last()) || (turn_stopped(
                catalog,
                trace.last(),
            ) && closing_overflows(trace.last(), incoming)),
        }
}

/// Plays one greedy turn: draws five cards, then, while energy is left,
/// plays the first card of the greedy plan for the current hand and applies
/// its effects (which may draw more cards). At the end of the turn the hand
/// and the played cards go to the discard pile, but for those that exhausted
/// themselves, which stay in the exhaust pile; and the enemy's vulnerable
/// counter goes down. Damage taken is the incoming damage not blocked plus
/// the hit points the cards cost.
pub(crate) fn simulate_one_turn_greedy(
    catalog: &CardCatalog,
    state: &CombatState,
    incoming_damage: i32,
    rng: &mut StdRng,
) -> (r: Result<(CombatState, TurnResult), SimError>)
    ensures
        r matches Ok((s2, res)) ==> turn_outcome(*catalog, *state, incoming_damage, s2, res),
        r matches Err(e) ==> turn_failure(*catalog, *state, incoming_damage, e),
{
    let mut next_state = state.clone();
    let hand = draw_n(&mut next_state, 5, rng);
    let mut t = Turn {
        state: next_state,
        hand,
        energy: 3,
        block: 0,
        damage: 0,
        self_hp_loss: 0,
        strength_this_turn: 0,
        played: Vec::new(),
        spent: Vec::new(),
    };
    let ghost mut trace: Seq<TurnView> = seq![view_of(t)];
    loop
        invariant
            turn_trace(*catalog, trace),
            turn_opening(*state, trace[0]),
            trace.last() == view_of(t),
        ensures
            turn_trace(*catalog, trace),
            turn_opening(*state, trace[0]),
            trace.last() == view_of(t),
            turn_stopped(*catalog, view_of(t)),
        decreases usize::MAX - t.played@.len(), t.hand@.len(),
    {
        if t.energy <= 0 {
            break;
        }
        if !all_known(catalog, &t.hand) {
            assert(turn_failure(*catalog, *state, incoming_damage, SimError::UnknownCard));
            return Err(SimError::UnknownCard);
        }
        let ghost v = view_of(t);
        let plan = greedy_play_ids_in_order(catalog, &t.state, t.hand.as_slice(), t.energy as u8);
        proof {
            lemma_greedy_plan_first_fits(*catalog, v.hand, (t.energy as u8) as int);
        }
        if plan.len() == 0 {
            break;
        }
        let ghost p0 = turn_plan(*catalog, v)[0];
        let hand_idx = match position_of_instance(&t.hand, plan[0].instance_id) {
            Some(i) => i,
            None => {
                proof {
                    assert(plan@[0] == v.hand[p0]);
                    assert(v.hand[p0].instance_id == plan@[0].instance_id);
                }
                break;
            },
        };
        proof {
            assert(plan@[0] == v.hand[p0]);
            let id = v.hand[p0].instance_id;
            assert(is_first_with_instance_id(v.hand, id, hand_idx as int));
            let c = choose|i: int| is_first_with_instance_id(v.hand, id, i);
            assert(c == hand_idx);
            assert(chosen_card(*catalog, v) == hand_idx);
        }
        let inst = t.hand.remove(hand_idx);
        proof {
            assert(catalog.spec_get(inst.card_id@) is Some);
        }
        let card = catalog.get(inst.card_id.as_str()).unwrap();
        let c_cost = card.cost_for(inst.upgraded) as i32;
        if c_cost > t.energy {
            proof {
                assert(view_of(t) =~= paid(
                    v,
                    hand_idx as int,
                    c_cost as int,
                    exhausts_self(resolved_effects(def_of(*catalog, inst), inst.upgraded)),
                ));
                trace = trace.push(view_of(t));
                assert forall|k: int| 0 <= k < trace.len() - 1 implies turn_step(
                    *catalog,
                    #[trigger] trace[k],
                    trace[k + 1],
                ) by {
                    if k < trace.len() - 2 {
                        assert(trace[k] == trace.drop_last()[k]);
                        assert(trace[k + 1] == trace.drop_last()[k + 1]);
                    }
                }
            }
            continue;
        }
        let own = card.effects_for(inst.upgraded);
        let legacy = build_legacy_effects(card, inst.upgraded);
        let effects: &[CardEffect] = if own.len() == 0 {
            legacy.as_slice()
        } else {
            own
        };
        let ghost effs = resolved_effects(def_of(*catalog, inst), inst.upgraded);
        assert(effects@ == effs);
        let exhausting = has_exhaust_self(effects);
        t.energy = t.energy - c_cost;
        if t.played.len() == usize::MAX {
            proof {
                assert(plays_exhausted(*catalog, v));
                assert(turn_failure(*catalog, *state, incoming_damage, SimError::TooManyPlays));
            }
            return Err(SimError::TooManyPlays);
        }
        t.played.push(inst.clone());
        if !exhausting {
            t.spent.push(inst.clone());
        }
        let ghost mid = view_of(t);
        proof {
            assert(mid =~= paid(v, hand_idx as int, c_cost as int, exhausts_self(effs)));
            assert(pays_next_card(*catalog, v, mid));
        }
        let ghost mut views: Seq<TurnView> = seq![mid];
        let ghost played_len = t.played@.len();
        let mut k: usize = 0;
        while k < effects.len()
            invariant
                k <= effects@.len(),
                effects@ == effs,
                t.played@.len() == played_len,
                played_len <= usize::MAX,
                views.len() == k + 1,
                views[0] == mid,
                views.last() == view_of(t),
                forall|q: int|
                    0 <= q < k ==> effect_step(#[trigger] views[q], effs[q], inst, views[q + 1]),
                turn_trace(*catalog, trace),
                turn_opening(*state, trace[0]),
                trace.last() == v,
                pays_next_card(*catalog, v, mid),
                inst == v.hand[chosen_card(*catalog, v)],
                effs == resolved_effects(def_of(*catalog, inst), inst.upgraded),
            decreases effects@.len() - k,
        {
            let ghost before = views;
            match apply_effect(&mut t, &effects[k], &inst, rng) {
                Ok(()) => {},
                Err(e) => {
                    proof {
                        let pre = effs.take(k as int);
                        assert forall|q: int| 0 <= q < pre.len() implies effect_step(
                            #[trigger] views[q],
                            pre[q],
                            inst,
                            views[q + 1],
                        ) by {
                            assert(pre[q] == effs[q]);
                        }
                        assert(effects_chain(views, pre, inst));
                        assert(card_overflows(*catalog, v));
                        assert(turn_failure(*catalog, *state, incoming_damage, SimError::Overflow));
                    }
                    return Err(e);
                },
            }
            proof {
                views = views.push(view_of(t));
                assert forall|q: int| 0 <= q < k + 1 implies effect_step(
                    #[trigger] views[q],
                    effs[q],
                    inst,
                    views[q + 1],
                ) by {
                    if q < k {
                        assert(views[q] == before[q]);
                        assert(views[q + 1] == before[q + 1]);
                    } else {
                        assert(views[q] == before.last());
                    }
                }
            }
            k += 1;
        }
        proof {
            assert(effects_chain(views, effs, inst));
            let next = view_of(t);
            assert(turn_step(*catalog, v, next));
            trace = trace.push(next);
            assert forall|q: int| 0 <= q < trace.len() - 1 implies turn_step(
                *catalog,
                #[trigger] trace[q],
                trace[q + 1],
            ) by {
                if q < trace.len() - 2 {
                    assert(trace[q] == trace.drop_last()[q]);
                    assert(trace[q + 1] == trace.drop_last()[q + 1]);
                }
            }
        }
    }
    let ghost last = view_of(t);
    let Turn { state: mut next_state, hand, block, damage, self_hp_loss, spent, .. } = t;
    let mut hand = hand;
    let mut spent = spent;
    next_state.discard_pile.append(&mut hand);
    next_state.discard_pile.append(&mut spent);
    next_state.tick_end_of_turn();
    let unblocked = match incoming_damage.checked_sub(block) {
        Some(x) => if x > 0 {
            x
        } else {
            0
        },
        None => {
            proof {
                assert(closing_overflows(last, incoming_damage));
                assert(turn_failure(*catalog, *state, incoming_damage, SimError::Overflow));
            }
            return Err(SimError::Overflow);
        },
    };
    let hp_loss = if self_hp_loss > 0 {
        self_hp_loss
    } else {
        0
    };
    let taken = match unblocked.checked_add(hp_loss) {
        Some(x) => x,
        None => {
            proof {
                assert(closing_overflows(last, incoming_damage));
                assert(turn_failure(*catalog, *state, incoming_damage, SimError::Overflow));
            }
            return Err(SimError::Overflow);
        },
    };
    let res = TurnResult { damage, block, taken };
    proof {
        assert(turn_closing(last, incoming_damage, next_state, res));
    }
    Ok((next_state, res))
}


/// Every card of a turn in progress that is still in the combat: those of
/// the draw pile, the discard pile and the hand, and the cards played that
/// go to the discard pile.
pub open spec fn cards_in_combat(t: TurnView) -> Multiset<CardInstance> {
    t.draw.to_multiset().add(t.discard.to_multiset()).add(t.hand.to_multiset()).add(
        t.spent.to_multiset(),
    )
}

/// No effect loses a card or makes one up, but for adding copies, which
/// puts exactly the new copies into the combat. The exhaust pile only grows,
/// by the card itself where the card exhausts itself.
pub proof fn lemma_effect_keeps_cards(t: TurnView, e: CardEffect, inst: CardInstance, t2: TurnView)
    requires
        effect_step(t, e, inst, t2),
    ensures
        !(e is AddCopyToDiscard) ==> cards_in_combat(t2) == cards_in_combat(t),
        e matches CardEffect::AddCopyToDiscard { card_id, upgraded, count } ==> cards_in_combat(t2)
            == cards_in_combat(t).add(new_copies(turn_max_id(t), card_id, upgraded, count).to_multiset()),
        t2.exhaust == (if e is ExhaustSelf {
            t.exhaust.push(inst)
        } else {
            t.exhaust
        }),
{
    match e {
        CardEffect::Draw { count } => {
            let n = t.hand.len() as int;
            let drawn = t2.hand.skip(n);
            assert(t2.hand =~= t.hand + drawn);
            assert(t2.hand.to_multiset() == t.hand.to_multiset().add(drawn.to_multiset()));
            assert(cards_in_combat(t2) =~= cards_in_combat(t));
        },
        CardEffect::AddCopyToDiscard { card_id, upgraded, count } => {
            let copies = new_copies(turn_max_id(t), card_id, upgraded, count);
            assert(t2.discard.to_multiset() == t.discard.to_multiset().add(copies.to_multiset()));
            assert(cards_in_combat(t2) =~= cards_in_combat(t).add(copies.to_multiset()));
        },
        CardEffect::PutDiscardOnTop { count } => {
            let m = moved_count(count, t.discard.len());
            let top = t.discard.skip(t.discard.len() - m);
            let rest = t.discard.take(t.discard.len() - m);
            assert(t.discard =~= rest + top);
            top.lemma_reverse_to_multiset();
            assert(t.discard.to_multiset() == rest.to_multiset().add(top.to_multiset()));
            assert(t2.draw.to_multiset() == t.draw.to_multiset().add(top.reverse().to_multiset()));
            assert(cards_in_combat(t2) =~= cards_in_combat(t));
        },
        _ => {},
    }
}

/// Going through effects none of which adds copies keeps the cards in the
/// combat.
pub proof fn lemma_effects_keep_cards(views: Seq<TurnView>, effs: Seq<CardEffect>, inst: CardInstance)
    requires
        effects_chain(views, effs, inst),
        forall|k: int| 0 <= k < effs.len() ==> !(#[trigger] effs[k] is AddCopyToDiscard),
    ensures
        cards_in_combat(views.last()) == cards_in_combat(views[0]),
    decreases effs.len(),
{
    if effs.len() > 0 {
        let n = effs.len() - 1;
        let v2 = views.drop_last();
        let e2 = effs.drop_last();
        assert forall|k: int| 0 <= k < e2.len() implies effect_step(
            #[trigger] v2[k],
            e2[k],
            inst,
            v2[k + 1],
        ) by {
            assert(effect_step(views[k], effs[k], inst, views[k + 1]));
        }
        assert forall|k: int| 0 <= k < e2.len() implies !(#[trigger] e2[k] is AddCopyToDiscard) by {
            assert(!(effs[k] is AddCopyToDiscard));
        }
        lemma_effects_keep_cards(v2, e2, inst);
        assert(effect_step(views[n], effs[n], inst, views[n + 1]));
        assert(!(effs[n] is AddCopyToDiscard));
        lemma_effect_keeps_cards(views[n], effs[n], inst, views[n + 1]);
    }
}

proof fn lemma_first_with_instance_id_exists(hand: Seq<CardInstance>, id: u32, p: int)
    requires
        0 <= p < hand.len(),
        hand[p].instance_id == id,
    ensures
        exists|i: int| is_first_with_instance_id(hand, id, i),
    decreases p,
{
    if exists|j: int| 0 <= j < p && hand[j].instance_id == id {
        let j = choose|j: int| 0 <= j < p && hand[j].instance_id == id;
        lemma_first_with_instance_id_exists(hand, id, j);
    } else {
        assert(is_first_with_instance_id(hand, id, p));
    }
}

/// A step of the greedy turn keeps the cards in the combat where the card
/// played adds no copies and does not exhaust itself; a card that exhausts
/// itself, or that the energy does not cover, leaves the combat.
pub proof fn lemma_turn_step_keeps_cards(catalog: CardCatalog, t: TurnView, t2: TurnView)
    requires
        turn_step(catalog, t, t2),
    ensures
        ({
            let i = chosen_card(catalog, t);
            let inst = t.hand[i];
            let effs = resolved_effects(def_of(catalog, inst), inst.upgraded);
            &&& 0 <= i < t.hand.len()
            &&& cost_of(catalog, inst) > t.energy ==> cards_in_combat(t2) == cards_in_combat(
                t,
            ).remove(inst)
            &&& (cost_of(catalog, inst) <= t.energy && forall|k: int|
                0 <= k < effs.len() ==> !(#[trigger] effs[k] is AddCopyToDiscard))
                ==> cards_in_combat(t2) == if exhausts_self(effs) {
                cards_in_combat(t).remove(inst)
            } else {
                cards_in_combat(t)
            }
        }),
{
    lemma_greedy_plan_first_fits(catalog, t.hand, (t.energy as u8) as int);
    let p0 = turn_plan(catalog, t)[0];
    let id = t.hand[p0].instance_id;
    lemma_first_with_instance_id_exists(t.hand, id, p0);
    let i = chosen_card(catalog, t);
    assert(is_first_with_instance_id(t.hand, id, i));
    let inst = t.hand[i];
    let c = cost_of(catalog, inst) as int;
    let effs = resolved_effects(def_of(catalog, inst), inst.upgraded);
    let p = paid(t, i, c, exhausts_self(effs));
    assert(t.hand.remove(i).to_multiset() == t.hand.to_multiset().remove(inst));
    assert(t.hand.to_multiset().count(inst) > 0);
    if c > t.energy {
        assert(cards_in_combat(t2) =~= cards_in_combat(t).remove(inst));
    } else {
        if exhausts_self(effs) {
            assert(cards_in_combat(p) =~= cards_in_combat(t).remove(inst));
        } else {
            assert(p.spent.to_multiset() == t.spent.to_multiset().insert(inst));
            assert(cards_in_combat(p) =~= cards_in_combat(t));
        }
        if forall|k: int| 0 <= k < effs.len() ==> !(#[trigger] effs[k] is AddCopyToDiscard) {
            let views = choose|views: Seq<TurnView>|
                #![trigger effects_chain(views, effs, inst)]
                effects_chain(views, effs, inst) && views[0] == p && views.last() == t2;
            lemma_effects_keep_cards(views, effs, inst);
        }
    }
}

/// No card of the catalog adds copies of a card when played.
pub open spec fn adds_no_copies(catalog: CardCatalog) -> bool {
    forall|c: CardInstance, k: int|
        0 <= k < resolved_effects(def_of(catalog, c), c.upgraded).len() ==> !(#[trigger] resolved_effects(
            def_of(catalog, c),
            c.upgraded,
        )[k] is AddCopyToDiscard)
}

/// The cards of the draw and discard piles of a combat state.
pub open spec fn pile_cards(s: CombatState) -> Multiset<CardInstance> {
    s.draw_pile@.to_multiset().add(s.discard_pile@.to_multiset())
}

proof fn lemma_trace_keeps_cards(catalog: CardCatalog, trace: Seq<TurnView>, n: int)
    requires
        turn_trace(catalog, trace),
        adds_no_copies(catalog),
        0 <= n < trace.len(),
    ensures
        cards_in_combat(trace[n]).subset_of(cards_in_combat(trace[0])),
    decreases n,
{
    if n > 0 {
        lemma_trace_keeps_cards(catalog, trace, n - 1);
        assert(turn_step(catalog, trace[n - 1], trace[n]));
        let t = trace[n - 1];
        let i = chosen_card(catalog, t);
        let inst = t.hand[i];
        let effs = resolved_effects(def_of(catalog, inst), inst.upgraded);
        assert forall|k: int| 0 <= k < effs.len() implies !(#[trigger] effs[k] is AddCopyToDiscard) by {
            assert(!(resolved_effects(def_of(catalog, inst), inst.upgraded)[k] is AddCopyToDiscard));
        }
        lemma_turn_step_keeps_cards(catalog, t, trace[n]);
    }
}

/// A turn of a combat whose cards add no copies makes up no card: the draw
/// and discard piles after it hold no card, and no copy of one, that they
/// did not hold before it.
pub proof fn lemma_turn_makes_up_no_card(
    catalog: CardCatalog,
    state: CombatState,
    incoming: i32,
    s2: CombatState,
    res: TurnResult,
)
    requires
        turn_outcome(catalog, state, incoming, s2, res),
        adds_no_copies(catalog),
    ensures
        pile_cards(s2).subset_of(pile_cards(state)),
{
    let trace = choose|trace: Seq<TurnView>|
        #![trigger turn_trace(catalog, trace)]
        turn_trace(catalog, trace) && turn_opening(state, trace[0]) && turn_stopped(
            catalog,
            trace.last(),
        ) && turn_closing(trace.last(), incoming, s2, res);
    let first = trace[0];
    let last = trace.last();
    lemma_trace_keeps_cards(catalog, trace, trace.len() - 1);
    assert(first.spent.to_multiset() =~= Multiset::empty());
    assert(cards_in_combat(first) =~= pile_cards(state));
    assert(s2.discard_pile@.to_multiset() == last.discard.to_multiset().add(
        last.hand.to_multiset(),
    ).add(last.spent.to_multiset()));
    assert(pile_cards(s2) =~= cards_in_combat(last));
}

/// Playing a copy of the card neither adds copies nor exhausts the card.
pub open spec fn plain_card(catalog: CardCatalog, c: CardInstance) -> bool {
    let effs = resolved_effects(def_of(catalog, c), c.upgraded);
    forall|k: int|
        0 <= k < effs.len() ==> !(#[trigger] effs[k] is AddCopyToDiscard) && !(effs[k] is ExhaustSelf)
}

/// Every card of `m` is plain (see `plain_card`).
pub open spec fn all_plain(catalog: CardCatalog, m: Multiset<CardInstance>) -> bool {
    forall|c: CardInstance| #[trigger] m.count(c) > 0 ==> plain_card(catalog, c)
}

/// Cards of `m` that share an instance id are equal: copies of one card may
/// share an id, different cards do not.
pub open spec fn ids_name_cards(m: Multiset<CardInstance>) -> bool {
    forall|a: CardInstance, b: CardInstance|
        #![trigger m.count(a), m.count(b)]
        m.count(a) > 0 && m.count(b) > 0 && a.instance_id == b.instance_id ==> a == b
}

proof fn lemma_energy_byte_below(e: i32)
    requires
        e > 0,
    ensures
        (e as u8) as int <= e,
{
    assert(e > 0 ==> (e as u8) as i32 <= e) by (bit_vector);
}

/// A step of the greedy turn from a hand of plain cards with distinct ids
/// keeps exactly the cards in the combat.
proof fn lemma_plain_step_keeps_cards(catalog: CardCatalog, t: TurnView, t2: TurnView)
    requires
        turn_step(catalog, t, t2),
        all_plain(catalog, cards_in_combat(t)),
        ids_name_cards(cards_in_combat(t)),
    ensures
        cards_in_combat(t2) == cards_in_combat(t),
{
    lemma_greedy_plan_first_fits(catalog, t.hand, (t.energy as u8) as int);
    lemma_energy_byte_below(t.energy);
    let p0 = turn_plan(catalog, t)[0];
    let id = t.hand[p0].instance_id;
    lemma_first_with_instance_id_exists(t.hand, id, p0);
    let i = chosen_card(catalog, t);
    assert(is_first_with_instance_id(t.hand, id, i));
    let inst = t.hand[i];
    assert(t.hand.to_multiset().count(t.hand[p0]) > 0);
    assert(cards_in_combat(t).count(t.hand[p0]) > 0);
    assert(t.hand.to_multiset().count(inst) > 0);
    assert(cards_in_combat(t).count(inst) > 0);
    assert(inst == t.hand[p0]);
    assert(t.hand.to_multiset().count(inst) > 0);
    assert(cards_in_combat(t).count(inst) > 0);
    assert(plain_card(catalog, inst));
    let effs = resolved_effects(def_of(catalog, inst), inst.upgraded);
    if exhausts_self(effs) {
        let k = choose|k: int| 0 <= k < effs.len() && (#[trigger] effs[k]) is ExhaustSelf;
        assert(!(effs[k] is ExhaustSelf));
    }
    lemma_turn_step_keeps_cards(catalog, t, t2);
}

proof fn lemma_plain_trace_keeps_cards(catalog: CardCatalog, trace: Seq<TurnView>, n: int)
    requires
        turn_trace(catalog, trace),
        all_plain(catalog, cards_in_combat(trace[0])),
        ids_name_cards(cards_in_combat(trace[0])),
        0 <= n < trace.len(),
    ensures
        cards_in_combat(trace[n]) == cards_in_combat(trace[0]),
    decreases n,
{
    if n > 0 {
        lemma_plain_trace_keeps_cards(catalog, trace, n - 1);
        assert(turn_step(catalog, trace[n - 1], trace[n]));
        lemma_plain_step_keeps_cards(catalog, trace[n - 1], trace[n]);
    }
}

/// A turn whose cards all neither add copies nor exhaust themselves keeps
/// the combat's cards: the draw and discard piles after it hold exactly the
/// cards they held before it, as multisets. Copies of one card may share an
/// instance id; different cards sharing one are left out, since the turn
/// picks the first card with the planned card's id and drops it where its
/// cost does not fit.
pub proof fn lemma_turn_keeps_cards(
    catalog: CardCatalog,
    state: CombatState,
    incoming: i32,
    s2: CombatState,
    res: TurnResult,
)
    requires
        turn_outcome(catalog, state, incoming, s2, res),
        all_plain(catalog, pile_cards(state)),
        ids_name_cards(pile_cards(state)),
    ensures
        pile_cards(s2) == pile_cards(state),
{
    let trace = choose|trace: Seq<TurnView>|
        #![trigger turn_trace(catalog, trace)]
        turn_trace(catalog, trace) && turn_opening(state, trace[0]) && turn_stopped(
            catalog,
            trace.last(),
        ) && turn_closing(trace.last(), incoming, s2, res);
    let first = trace[0];
    let last = trace.last();
    assert(first.spent.to_multiset() =~= Multiset::empty());
    assert(cards_in_combat(first) =~= pile_cards(state));
    lemma_plain_trace_keeps_cards(catalog, trace, trace.len() - 1);
    assert(s2.discard_pile@.to_multiset() == last.discard.to_multiset().add(
        last.hand.to_multiset(),
    ).add(last.spent.to_multiset()));
    assert(pile_cards(s2) =~= cards_in_combat(last));
}

/// Whatever the draws, the damage taken in a turn is never negative.
pub proof fn lemma_turn_taken_nonnegative(
    catalog: CardCatalog,
    state: CombatState,
    incoming: i32,
    s2: CombatState,
    res: TurnResult,
)
    requires
        turn_outcome(catalog, state, incoming, s2, res),
    ensures
        res.taken >= 0,
{
    let trace = choose|trace: Seq<TurnView>|
        #![trigger turn_trace(catalog, trace)]
        turn_trace(catalog, trace) && turn_opening(state, trace[0]) && turn_stopped(
            catalog,
            trace.last(),
        ) && turn_closing(trace.last(), incoming, s2, res);
}

/// Every greedy turn opens with three energy and a hand of five cards, or
/// of all the cards of both piles where fewer are left; with five or more
/// in the draw pile, the hand is its top five, the top card first.
pub proof fn lemma_turn_opens_with_five(
    catalog: CardCatalog,
    state: CombatState,
    incoming: i32,
    s2: CombatState,
    res: TurnResult,
)
    requires
        turn_outcome(catalog, state, incoming, s2, res),
    ensures
        exists|trace: Seq<TurnView>|
            #![trigger turn_trace(catalog, trace)]
            {
                let n = state.draw_pile@.len() + state.discard_pile@.len();
                let d = state.draw_pile@;
                &&& turn_trace(catalog, trace)
                &&& turn_closing(trace.last(), incoming, s2, res)
                &&& trace[0].energy == 3
                &&& trace[0].hand.len() == if n >= 5 {
                    5
                } else {
                    n
                }
                &&& d.len() >= 5 ==> trace[0].hand == d.subrange(d.len() - 5, d.len() as int).reverse()
                &&& d.len() >= 5 ==> trace[0].hand[0] == d.last()
            },
{
    let trace = choose|trace: Seq<TurnView>|
        #![trigger turn_trace(catalog, trace)]
        turn_trace(catalog, trace) && turn_opening(state, trace[0]) && turn_stopped(
            catalog,
            trace.last(),
        ) && turn_closing(trace.last(), incoming, s2, res);
    let d = state.draw_pile@;
    if d.len() >= 5 {
        assert(d.skip(d.len() - 5) =~= d.subrange(d.len() - 5, d.len() as int));
        assert(trace[0].hand[0] == d.skip(d.len() - 5).reverse()[0]);
    }
    assert(turn_trace(catalog, trace));
}

} // verus!
