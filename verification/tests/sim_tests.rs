use card_sim::model::{CardCatalog, CardDef, CardEffect, CardKind, CardRarity, Deck, DeckCardDef, DeckDef, EnemyPattern, EnemyPatternDef};
use card_sim::cli::{sweep_simulations, SweepSelection};
use card_sim::sim::combinatorics::{combinations_indices, n_choose_k};
use card_sim::sim::draw::{enumerate_draw, enumerate_draw_5};
use card_sim::sim::{
    apply_vulnerable_damage_multiplier, build_draw_pile, can_play, compute_turn_result, draw_hand_random_5,
    draw_hand_random_n, end_turn_discard_all_hand, enumerate_play_sequences, simulate, simulate_with_rng, validate_deck,
    CardInstance, CombatState, SimulationInput,
};
use rand::rngs::StdRng;
use rand::SeedableRng;

fn card(id: &str, kind: CardKind, cost: u8, damage: i32, block: i32, vulnerable: u8) -> CardDef {
    CardDef {
        id: id.to_string(),
        name: id.to_uppercase(),
        kind,
        rarity: Some(CardRarity::Starter),
        cost,
        base_damage: damage,
        base_block: block,
        apply_vulnerable: vulnerable,
        text: None,
        effects: vec![],
        upgraded_cost: None,
        upgraded_base_damage: None,
        upgraded_base_block: None,
        upgraded_apply_vulnerable: None,
        upgraded_text: None,
        upgraded_effects: None,
        draw: 0,
        add_block_on_attack_play: 0,
    }
}

fn starter_catalog() -> CardCatalog {
    CardCatalog::from_defs(vec![
        card("strike", CardKind::Attack, 1, 6, 0, 0),
        card("defend", CardKind::Skill, 1, 0, 5, 0),
        card("bash", CardKind::Attack, 2, 8, 0, 2),
        card("curse", CardKind::Curse, 0, 0, 0, 0),
    ])
}

fn deck(lines: &[(&str, u32)]) -> Deck {
    Deck::from_def(DeckDef {
        cards: lines
            .iter()
            .map(|(id, n)| DeckCardDef { id: id.to_string(), count: *n, upgraded: false })
            .collect(),
    })
}

fn inst(id: u32, card_id: &str) -> CardInstance {
    CardInstance { instance_id: id, card_id: card_id.to_string(), upgraded: false }
}

fn ids(pile: &[CardInstance]) -> Vec<u32> {
    pile.iter().map(|c| c.instance_id).collect()
}

#[test]
fn draw_pile_numbers_copies_in_deck_order() {
    let pile = build_draw_pile(&deck(&[("strike", 2), ("bash", 1)]));
    assert_eq!(ids(&pile), vec![1, 2, 3]);
    let names: Vec<&str> = pile.iter().map(|c| c.card_id.as_str()).collect();
    assert_eq!(names, vec!["strike", "strike", "bash"]);
}

#[test]
fn validate_deck_names_the_first_unknown_card() {
    let catalog = starter_catalog();
    assert!(validate_deck(&deck(&[("strike", 5), ("defend", 4)]), &catalog).is_ok());
    let err = validate_deck(&deck(&[("strike", 5), ("anger", 1), ("clash", 1)]), &catalog).unwrap_err();
    assert_eq!(err, "デッキに未知のcard_idがあります: anger");
}

#[test]
fn drawing_takes_from_the_top_of_the_draw_pile() {
    let mut draw = vec![inst(1, "a"), inst(2, "b"), inst(3, "c"), inst(4, "d"), inst(5, "e"), inst(6, "f")];
    let mut discard = vec![inst(7, "g")];
    let mut rng = StdRng::seed_from_u64(1);
    let hand = draw_hand_random_5(&mut draw, &mut discard, &mut rng);
    assert_eq!(ids(&hand), vec![6, 5, 4, 3, 2]);
    assert_eq!(ids(&draw), vec![1]);
    assert_eq!(ids(&discard), vec![7]);
}

#[test]
fn drawing_reshuffles_the_discard_pile_when_needed() {
    let mut draw = vec![inst(1, "a"), inst(2, "b")];
    let mut discard = vec![inst(3, "c"), inst(4, "d"), inst(5, "e")];
    let mut rng = StdRng::seed_from_u64(42);
    let hand = draw_hand_random_n(&mut draw, &mut discard, 4, &mut rng);
    assert_eq!(hand.len(), 4);
    assert_eq!(ids(&hand)[..2], [2, 1]);
    assert!(discard.is_empty());
    let mut all = ids(&hand);
    all.extend(ids(&draw));
    all.sort();
    assert_eq!(all, vec![1, 2, 3, 4, 5]);
}

#[test]
fn drawing_stops_when_both_piles_are_empty() {
    let mut draw = vec![inst(1, "a")];
    let mut discard = vec![inst(2, "b")];
    let mut rng = StdRng::seed_from_u64(3);
    let hand = draw_hand_random_n(&mut draw, &mut discard, 5, &mut rng);
    assert_eq!(hand.len(), 2);
    assert!(draw.is_empty() && discard.is_empty());
}

#[test]
fn vulnerable_multiplier_rounds_toward_zero() {
    assert_eq!(apply_vulnerable_damage_multiplier(6), 9);
    assert_eq!(apply_vulnerable_damage_multiplier(5), 7);
    assert_eq!(apply_vulnerable_damage_multiplier(-5), -7);
    assert_eq!(apply_vulnerable_damage_multiplier(0), 0);
}

#[test]
fn only_curses_cannot_be_played() {
    assert!(can_play(CardKind::Attack));
    assert!(can_play(CardKind::Skill));
    assert!(can_play(CardKind::Power));
    assert!(!can_play(CardKind::Curse));
}

#[test]
fn combat_state_vulnerable_saturates_and_ticks() {
    let mut s = CombatState::new(vec![inst(1, "strike")]);
    s.apply_vulnerable(250);
    s.apply_vulnerable(10);
    assert_eq!(s.enemy_status.vulnerable.turns, 255);
    s.tick_end_of_turn();
    assert_eq!(s.enemy_status.vulnerable.turns, 254);
    assert_eq!(s.draw_pile.len(), 1);
}

#[test]
fn turn_result_counts_vulnerable_after_bash() {
    let catalog = starter_catalog();
    let state = CombatState::new(vec![]);
    let played: Vec<String> = ["strike", "bash", "strike", "defend", "curse"].iter().map(|s| s.to_string()).collect();
    let (next, result) = compute_turn_result(&catalog, &state, &played, 12);
    // 6 + 8, then vulnerable: 6 * 3 / 2 = 9
    assert_eq!(result.damage, 23);
    assert_eq!(result.block, 5);
    assert_eq!(result.taken, 7);
    assert_eq!(next.enemy_status.vulnerable.turns, 2);
}

#[test]
fn turn_result_takes_nothing_when_fully_blocked() {
    let catalog = starter_catalog();
    let state = CombatState::new(vec![]);
    let played: Vec<String> = vec!["defend".to_string(), "defend".to_string()];
    let (_, result) = compute_turn_result(&catalog, &state, &played, 7);
    assert_eq!(result.taken, 0);
}

#[test]
fn play_sequences_list_every_affordable_order() {
    let catalog = starter_catalog();
    let hand = vec![inst(1, "strike"), inst(2, "bash"), inst(3, "curse")];
    let seqs = enumerate_play_sequences(&catalog, &hand, 3);
    let orders: Vec<Vec<u32>> = seqs.iter().map(|s| ids(&s.played_in_order)).collect();
    assert_eq!(orders, vec![vec![], vec![1], vec![1, 2], vec![2], vec![2, 1]]);
    let spent: Vec<u8> = seqs.iter().map(|s| s.energy_spent).collect();
    assert_eq!(spent, vec![0, 1, 3, 2, 3]);
}

#[test]
fn play_sequences_with_no_energy_only_hold_free_cards() {
    let catalog = starter_catalog();
    let hand = vec![inst(1, "strike"), inst(2, "defend")];
    let seqs = enumerate_play_sequences(&catalog, &hand, 0);
    assert_eq!(seqs.len(), 1);
    assert!(seqs[0].played_in_order.is_empty());
}

#[test]
fn end_of_turn_discards_the_hand() {
    let mut s = CombatState::new(vec![]);
    s.discard_pile.push(inst(9, "x"));
    end_turn_discard_all_hand(&mut s, &[inst(1, "a"), inst(2, "b")]);
    assert_eq!(ids(&s.discard_pile), vec![9, 1, 2]);
}

#[test]
fn binomial_coefficients() {
    assert_eq!(n_choose_k(5, 2), 10);
    assert_eq!(n_choose_k(10, 5), 252);
    assert_eq!(n_choose_k(10, 8), 45);
    assert_eq!(n_choose_k(4, 0), 1);
    assert_eq!(n_choose_k(3, 4), 0);
    assert_eq!(n_choose_k(40, 20), 137846528820);
}

#[test]
fn combinations_in_lexicographic_order() {
    assert_eq!(
        combinations_indices(4, 2),
        vec![vec![0, 1], vec![0, 2], vec![0, 3], vec![1, 2], vec![1, 3], vec![2, 3]]
    );
    assert_eq!(combinations_indices(3, 0), vec![Vec::<usize>::new()]);
    assert!(combinations_indices(2, 3).is_empty());
    assert_eq!(combinations_indices(10, 5).len(), 252);
}

#[test]
fn enumerating_a_draw_from_a_full_pile() {
    let draw: Vec<CardInstance> = (1..=6).map(|i| inst(i, "s")).collect();
    let discard = vec![inst(7, "d")];
    let outcomes = enumerate_draw_5(&draw, &discard);
    assert_eq!(outcomes.len(), 6);
    assert_eq!(ids(&outcomes[0].hand), vec![1, 2, 3, 4, 5]);
    assert_eq!(ids(&outcomes[0].new_draw_pile), vec![6]);
    assert_eq!(ids(&outcomes[5].hand), vec![2, 3, 4, 5, 6]);
    assert_eq!(ids(&outcomes[5].new_draw_pile), vec![1]);
    assert!(outcomes.iter().all(|o| o.one_in == 6 && ids(&o.new_discard_pile) == vec![7]));
}

#[test]
fn enumerating_a_draw_that_needs_the_discard_pile() {
    let draw = vec![inst(1, "a")];
    let discard = vec![inst(2, "b"), inst(3, "c"), inst(4, "d")];
    let outcomes = enumerate_draw(&draw, &discard, 3);
    assert_eq!(outcomes.len(), 3);
    assert_eq!(ids(&outcomes[0].hand), vec![1, 2, 3]);
    assert_eq!(ids(&outcomes[0].new_draw_pile), vec![4]);
    assert_eq!(ids(&outcomes[2].hand), vec![1, 3, 4]);
    assert!(outcomes.iter().all(|o| o.one_in == 3 && o.new_discard_pile.is_empty()));
}

fn input<'a>(catalog: &'a CardCatalog, deck: &'a Deck, enemy: &'a EnemyPattern, turns: usize, samples: u32) -> SimulationInput<'a> {
    SimulationInput { catalog, deck, enemy, turns, samples, seed: 1 }
}

#[test]
fn simulate_refuses_unknown_cards_empty_decks_and_no_samples() {
    let catalog = starter_catalog();
    let enemy = EnemyPattern::from_def(EnemyPatternDef { incoming_damage_by_turn: vec![10] });
    let unknown = deck(&[("strike", 2), ("anger", 1)]);
    assert_eq!(
        simulate(input(&catalog, &unknown, &enemy, 1, 10)).unwrap_err(),
        "デッキに未知のcard_idがあります: anger"
    );
    let empty = deck(&[("strike", 0)]);
    assert_eq!(simulate(input(&catalog, &empty, &enemy, 1, 10)).unwrap_err(), "デッキが空です");
    let fine = deck(&[("strike", 5)]);
    assert_eq!(
        simulate(input(&catalog, &fine, &enemy, 1, 0)).unwrap_err(),
        "samplesは1以上にしてください"
    );
}

#[test]
fn simulate_blocks_with_three_defends() {
    let catalog = starter_catalog();
    let enemy = EnemyPattern::from_def(EnemyPatternDef { incoming_damage_by_turn: vec![20] });
    let defends = deck(&[("defend", 5)]);
    let tot = simulate(input(&catalog, &defends, &enemy, 1, 4)).unwrap();
    assert_eq!(tot.samples, 4);
    assert_eq!(tot.turn1_block, 60);
    assert_eq!(tot.total_block, 60);
    assert_eq!(tot.total_damage, 0);
    assert_eq!(tot.total_taken, 20);
}

#[test]
fn simulate_opens_with_bash_before_another_attack() {
    let catalog = starter_catalog();
    let enemy = EnemyPattern::from_def(EnemyPatternDef { incoming_damage_by_turn: vec![5] });
    let d = deck(&[("strike", 4), ("bash", 1)]);
    let tot = simulate(input(&catalog, &d, &enemy, 1, 3)).unwrap();
    // bash 8, then a strike against a vulnerable enemy: 9
    assert_eq!(tot.turn1_damage, 3 * 17);
    assert_eq!(tot.total_taken, 3 * 5);
}

#[test]
fn simulate_uses_effects_over_plain_fields() {
    let mut pommel = card("pommel", CardKind::Attack, 1, 0, 0, 0);
    pommel.effects = vec![CardEffect::Damage { amount: 9, hits: 2 }, CardEffect::GainEnergy { amount: 1 }];
    let mut offering = card("offering", CardKind::Skill, 0, 0, 0, 0);
    offering.effects = vec![CardEffect::LoseHp { amount: 6 }, CardEffect::GainEnergy { amount: 2 }];
    let catalog = CardCatalog::from_defs(vec![pommel, offering]);
    let enemy = EnemyPattern::from_def(EnemyPatternDef { incoming_damage_by_turn: vec![] });
    let d = deck(&[("pommel", 4), ("offering", 1)]);
    let tot = simulate(input(&catalog, &d, &enemy, 1, 1)).unwrap();
    // energy 3: the four pommels (attacks first), each gaining its energy back,
    // then the offering: 4 * 18 damage, 6 hit points lost.
    assert_eq!(tot.turn1_damage, 72);
    assert_eq!(tot.total_taken, 6);
}

#[test]
fn reshuffling_changes_the_order_of_the_discard_pile() {
    let mut draw: Vec<CardInstance> = vec![];
    let mut discard: Vec<CardInstance> = (0..10).map(|i| inst(i, "strike")).collect();
    let mut rng = StdRng::seed_from_u64(7);
    let hand = draw_hand_random_n(&mut draw, &mut discard, 10, &mut rng);
    let drawn = ids(&hand);
    assert_ne!(drawn, vec![9, 8, 7, 6, 5, 4, 3, 2, 1, 0]);
    let mut sorted = drawn.clone();
    sorted.sort();
    assert_eq!(sorted, (0..10).collect::<Vec<u32>>());
    assert!(draw.is_empty());
    assert!(discard.is_empty());
}

#[test]
fn simulate_reports_an_overflowing_turn() {
    let mut huge = card("huge", CardKind::Attack, 1, 0, 0, 0);
    huge.effects = vec![CardEffect::Damage { amount: i32::MAX, hits: 2 }];
    let catalog = CardCatalog::from_defs(vec![huge]);
    let enemy = EnemyPattern::from_def(EnemyPatternDef { incoming_damage_by_turn: vec![] });
    let d = deck(&[("huge", 1)]);
    assert_eq!(
        simulate(input(&catalog, &d, &enemy, 1, 1)).unwrap_err(),
        "シミュレーション中に数値が範囲を超えました"
    );
}

#[test]
fn simulate_reports_an_unknown_card_drawn_into_the_hand() {
    let mut maker = card("maker", CardKind::Skill, 0, 0, 0, 0);
    maker.effects = vec![
        CardEffect::AddCopyToDiscard { card_id: "ghost".to_string(), upgraded: false, count: 5 },
        CardEffect::Draw { count: 1 },
    ];
    let catalog = CardCatalog::from_defs(vec![maker]);
    let enemy = EnemyPattern::from_def(EnemyPatternDef { incoming_damage_by_turn: vec![] });
    let d = deck(&[("maker", 1)]);
    assert_eq!(
        simulate(input(&catalog, &d, &enemy, 1, 1)).unwrap_err(),
        "手札に未知のcard_idがあります"
    );
}

#[test]
fn simulate_keeps_the_deck_from_turn_to_turn() {
    // Five defends: every turn draws all five back and plays three.
    let catalog = starter_catalog();
    let enemy = EnemyPattern::from_def(EnemyPatternDef { incoming_damage_by_turn: vec![10, 20, 30] });
    let defends = deck(&[("defend", 5)]);
    let tot = simulate(input(&catalog, &defends, &enemy, 3, 2)).unwrap();
    assert_eq!(tot.total_block, 2 * 45);
    assert_eq!(tot.turn1_block, 2 * 15);
    assert_eq!(tot.total_taken, 2 * (0 + 5 + 15));
}

#[test]
fn a_self_exhausting_card_leaves_the_deck_for_later_turns() {
    let mut flash = card("flash", CardKind::Attack, 0, 0, 0, 0);
    flash.effects = vec![CardEffect::Damage { amount: 10, hits: 1 }, CardEffect::ExhaustSelf];
    let catalog = CardCatalog::from_defs(vec![card("strike", CardKind::Attack, 1, 6, 0, 0), flash]);
    let enemy = EnemyPattern::from_def(EnemyPatternDef { incoming_damage_by_turn: vec![] });
    let d = deck(&[("strike", 4), ("flash", 1)]);
    let tot = simulate(input(&catalog, &d, &enemy, 2, 1)).unwrap();
    // turn 1: flash and three strikes; turn 2: only the four strikes come back
    assert_eq!(tot.turn1_damage, 28);
    assert_eq!(tot.total_damage, 28 + 18);
}

#[test]
fn simulate_with_no_turns_sums_nothing() {
    let catalog = starter_catalog();
    let enemy = EnemyPattern::from_def(EnemyPatternDef { incoming_damage_by_turn: vec![10] });
    let d = deck(&[("strike", 5), ("bash", 1)]);
    let tot = simulate(input(&catalog, &d, &enemy, 0, 7)).unwrap();
    assert_eq!(tot.samples, 7);
    assert_eq!(
        (tot.turn1_damage, tot.turn1_block, tot.total_damage, tot.total_block, tot.total_taken),
        (0, 0, 0, 0, 0)
    );
}

#[test]
fn the_starter_turn_bashes_then_strikes() {
    let catalog = starter_catalog();
    let enemy = EnemyPattern::from_def(EnemyPatternDef { incoming_damage_by_turn: vec![10] });
    let d = deck(&[("strike", 2), ("defend", 2), ("bash", 1)]);
    let tot = simulate(input(&catalog, &d, &enemy, 1, 1)).unwrap();
    // bash 8, then a strike against the vulnerable enemy: 9; no energy is left to block
    assert_eq!(tot.turn1_damage, 17);
    assert_eq!(tot.turn1_block, 0);
    assert_eq!(tot.total_taken, 10);
}

#[test]
fn simulate_with_a_given_generator_matches_the_seeded_one() {
    let catalog = starter_catalog();
    let enemy = EnemyPattern::from_def(EnemyPatternDef { incoming_damage_by_turn: vec![6, 12, 8] });
    let d = deck(&[("strike", 5), ("defend", 4), ("bash", 1)]);
    let seeded = simulate(input(&catalog, &d, &enemy, 3, 20)).unwrap();
    let mut rng = StdRng::seed_from_u64(1);
    let given = simulate_with_rng(input(&catalog, &d, &enemy, 3, 20), &mut rng).unwrap();
    assert_eq!(seeded, given);
}

#[test]
fn sweep_simulates_each_selected_card_added_once() {
    let mut anger = card("anger", CardKind::Attack, 0, 6, 0, 0);
    anger.rarity = Some(CardRarity::Common);
    let mut armor = card("armor", CardKind::Skill, 1, 0, 8, 0);
    armor.rarity = Some(CardRarity::Rare);
    let catalog = CardCatalog::from_defs(vec![card("strike", CardKind::Attack, 1, 6, 0, 0), anger, armor]);
    let enemy = EnemyPattern::from_def(EnemyPatternDef { incoming_damage_by_turn: vec![7] });
    let base = deck(&[("strike", 4)]);
    let selection = SweepSelection::from_flags(true, false, false, false);
    let rows = sweep_simulations(&catalog, &base, &enemy, 1, 2, 1, &selection).unwrap();
    assert_eq!(rows.len(), 1);
    assert_eq!(rows[0].0, "anger");
    let with_anger = deck(&[("strike", 4), ("anger", 1)]);
    assert_eq!(rows[0].1, simulate(input(&catalog, &with_anger, &enemy, 1, 2)).unwrap());
    // every card is drawn: anger (free) and three strikes
    assert_eq!(rows[0].1.turn1_damage, 2 * 24);
}
