use card_sim::model::{
    CardCatalog, CardDef, CardEffect, CardKind, CardRarity, Deck, DeckCardDef, DeckDef, EnemyPattern,
    EnemyPatternDef, EnemyStatus, Vulnerable,
};

fn card(id: &str, kind: CardKind, cost: u8, damage: i32, block: i32, vulnerable: u8) -> CardDef {
    CardDef {
        id: id.to_string(),
        name: id.to_uppercase(),
        kind,
        rarity: Some(CardRarity::Starter),
        cost,
        base_damage: damage,
        base_block: block,
        apply_vulnerable: vulnerable,
        text: None,
        effects: vec![],
        upgraded_cost: None,
        upgraded_base_damage: None,
        upgraded_base_block: None,
        upgraded_apply_vulnerable: None,
        upgraded_text: None,
        upgraded_effects: None,
        draw: 0,
        add_block_on_attack_play: 0,
    }
}

fn line(id: &str, count: u32, upgraded: bool) -> DeckCardDef {
    DeckCardDef { id: id.to_string(), count, upgraded }
}

fn lines(deck: &Deck) -> Vec<(String, u32, bool)> {
    deck.cards.iter().map(|c| (c.id.clone(), c.count, c.upgraded)).collect()
}

#[test]
fn vulnerable_counts_down_to_zero() {
    let mut v = Vulnerable::new(2);
    assert!(v.is_active());
    v.tick_end_of_turn();
    assert_eq!(v.turns, 1);
    v.tick_end_of_turn();
    assert_eq!(v.turns, 0);
    assert!(!v.is_active());
    v.tick_end_of_turn();
    assert_eq!(v.turns, 0);
}

#[test]
fn enemy_status_starts_without_vulnerable() {
    assert_eq!(EnemyStatus::new().vulnerable.turns, 0);
}

#[test]
fn upgraded_values_replace_plain_ones_where_given() {
    let mut c = card("bash", CardKind::Attack, 2, 8, 0, 2);
    c.upgraded_base_damage = Some(10);
    c.upgraded_apply_vulnerable = Some(3);
    c.upgraded_effects = Some(vec![CardEffect::Damage { amount: 10, hits: 1 }]);
    assert_eq!(c.cost_for(false), 2);
    assert_eq!(c.cost_for(true), 2);
    assert_eq!(c.base_damage_for(false), 8);
    assert_eq!(c.base_damage_for(true), 10);
    assert_eq!(c.base_block_for(true), 0);
    assert_eq!(c.apply_vulnerable_for(false), 2);
    assert_eq!(c.apply_vulnerable_for(true), 3);
    assert_eq!(c.effects_for(false).len(), 0);
    assert_eq!(c.effects_for(true).len(), 1);
    c.upgraded_cost = Some(1);
    assert_eq!(c.cost_for(true), 1);
}

#[test]
fn catalog_keeps_the_last_definition_of_an_id() {
    let catalog = CardCatalog::from_defs(vec![
        card("strike", CardKind::Attack, 1, 6, 0, 0),
        card("defend", CardKind::Skill, 1, 0, 5, 0),
        card("strike", CardKind::Attack, 1, 9, 0, 0),
    ]);
    assert_eq!(catalog.get("strike").unwrap().base_damage, 9);
    assert_eq!(catalog.get("defend").unwrap().base_block, 5);
    assert!(catalog.get("bash").is_none());
    let all = catalog.iter();
    assert_eq!(all.len(), 2);
    let mut ids: Vec<String> = all.iter().map(|(id, _)| (*id).clone()).collect();
    ids.sort();
    assert_eq!(ids, vec!["defend".to_string(), "strike".to_string()]);
}

#[test]
fn add_one_counts_up_the_plain_line_or_appends_one() {
    let mut deck = Deck::from_def(DeckDef { cards: vec![line("strike", 5, false), line("bash", 1, true)] });
    deck.add_one("strike");
    deck.add_one("bash");
    deck.add_one("anger");
    assert_eq!(
        lines(&deck),
        vec![
            ("strike".to_string(), 6, false),
            ("bash".to_string(), 1, true),
            ("bash".to_string(), 1, false),
            ("anger".to_string(), 1, false),
        ]
    );
}

#[test]
fn remove_one_takes_from_the_first_line_of_the_card() {
    let mut deck = Deck::from_def(DeckDef {
        cards: vec![line("strike", 2, false), line("bash", 1, false), line("strike", 1, true)],
    });
    deck.remove_one("strike");
    assert_eq!(lines(&deck)[0], ("strike".to_string(), 1, false));
    deck.remove_one("strike");
    assert_eq!(
        lines(&deck),
        vec![("bash".to_string(), 1, false), ("strike".to_string(), 1, true)]
    );
    deck.remove_one("missing");
    assert_eq!(lines(&deck).len(), 2);
}

#[test]
fn upgrade_one_moves_a_copy_to_an_upgraded_line() {
    let mut deck = Deck::from_def(DeckDef { cards: vec![line("strike", 2, false), line("bash", 1, false)] });
    deck.upgrade_one("strike");
    assert_eq!(
        lines(&deck),
        vec![
            ("strike".to_string(), 1, false),
            ("bash".to_string(), 1, false),
            ("strike".to_string(), 1, true),
        ]
    );
    deck.upgrade_one("bash");
    assert_eq!(
        lines(&deck),
        vec![("strike".to_string(), 1, false), ("strike".to_string(), 1, true), ("bash".to_string(), 1, true)]
    );
    // The first line of bash is now upgraded: nothing changes.
    deck.upgrade_one("bash");
    assert_eq!(lines(&deck).len(), 3);
    // A card the deck lacks is added upgraded.
    deck.upgrade_one("anger");
    assert_eq!(lines(&deck)[3], ("anger".to_string(), 1, true));
}

#[test]
fn upgrade_one_leaves_an_empty_line_alone() {
    let mut deck = Deck::from_def(DeckDef { cards: vec![line("strike", 0, false)] });
    deck.upgrade_one("strike");
    assert_eq!(lines(&deck), vec![("strike".to_string(), 0, false)]);
}

#[test]
fn add_then_remove_of_a_new_card_restores_the_deck() {
    let mut deck = Deck::from_def(DeckDef { cards: vec![line("strike", 5, false), line("defend", 4, false)] });
    let before = lines(&deck);
    deck.add_one("anger");
    deck.remove_one("anger");
    assert_eq!(lines(&deck), before);
}

#[test]
fn enemy_damage_is_zero_after_the_pattern() {
    let enemy = EnemyPattern::from_def(EnemyPatternDef { incoming_damage_by_turn: vec![6, 11, 0] });
    assert_eq!(enemy.incoming_damage(0), 6);
    assert_eq!(enemy.incoming_damage(1), 11);
    assert_eq!(enemy.incoming_damage(2), 0);
    assert_eq!(enemy.incoming_damage(3), 0);
}

#[test]
fn k_ticks_take_the_counter_down_by_k_but_not_below_zero() {
    for t in [0u8, 1, 3, 200, 255] {
        for k in 0u32..260 {
            let mut v = Vulnerable::new(t);
            for _ in 0..k {
                v.tick_end_of_turn();
            }
            assert_eq!(v.turns as u32, (t as u32).saturating_sub(k));
            assert_eq!(v.is_active(), t as u32 > k);
        }
    }
}
