use card_sim::cli::{apply_mutations, parse_format, sanitize_for_filename, OutputFormat};
use card_sim::model::{CardDef, CardEffect, CardKind, Deck, DeckCardDef, DeckDef};
use card_sim::report::{escape_csv_field, insight_from_changes, supported_level, SupportedLevel};

fn card_with(effects: Vec<CardEffect>, upgraded: Option<Vec<CardEffect>>) -> CardDef {
    CardDef {
        id: "x".to_string(),
        name: "X".to_string(),
        kind: CardKind::Skill,
        rarity: None,
        cost: 1,
        base_damage: 0,
        base_block: 0,
        apply_vulnerable: 0,
        text: None,
        effects,
        upgraded_cost: None,
        upgraded_base_damage: None,
        upgraded_base_block: None,
        upgraded_apply_vulnerable: None,
        upgraded_text: None,
        upgraded_effects: upgraded,
        draw: 0,
        add_block_on_attack_play: 0,
    }
}

#[test]
fn supported_level_of_cards() {
    assert_eq!(supported_level(&card_with(vec![CardEffect::Block { amount: 5 }], None)), SupportedLevel::Supported);
    assert_eq!(
        supported_level(&card_with(vec![], Some(vec![CardEffect::Unsupported { reason: "x".to_string() }]))),
        SupportedLevel::Unsupported
    );
    assert_eq!(
        supported_level(&card_with(vec![CardEffect::Unsupported { reason: "y".to_string() }], None)),
        SupportedLevel::Unsupported
    );
}

#[test]
fn csv_fields_are_quoted_only_when_needed() {
    assert_eq!(escape_csv_field("Bash"), "Bash");
    assert_eq!(escape_csv_field("a,b"), "\"a,b\"");
    assert_eq!(escape_csv_field("say \"hi\""), "\"say \"\"hi\"\"\"");
    assert_eq!(escape_csv_field("two\nlines"), "\"two\nlines\"");
    assert_eq!(escape_csv_field("強打"), "強打");
    assert_eq!(escape_csv_field(""), "");
}

#[test]
fn insight_labels() {
    assert_eq!(insight_from_changes(true, true, true), "被ダメ改善+火力改善+防御改善");
    assert_eq!(insight_from_changes(false, true, false), "火力改善");
    assert_eq!(insight_from_changes(true, false, true), "被ダメ改善+防御改善");
    assert_eq!(insight_from_changes(false, false, false), "変化小/悪化");
}

#[test]
fn output_formats() {
    assert_eq!(parse_format("table").unwrap(), OutputFormat::Table);
    assert_eq!(parse_format("tsv").unwrap(), OutputFormat::Tsv);
    assert_eq!(parse_format("json").unwrap(), OutputFormat::Json);
    assert_eq!(parse_format("csv").unwrap_err(), "formatは table|tsv|json から選んでください");
}

#[test]
fn mutations_apply_adds_then_removal_then_upgrade() {
    let deck = Deck::from_def(DeckDef {
        cards: vec![DeckCardDef { id: "strike".to_string(), count: 5, upgraded: false }],
    });
    let d = apply_mutations(
        deck,
        &vec!["anger".to_string(), "strike".to_string()],
        &Some("strike".to_string()),
        &Some("anger".to_string()),
    );
    let lines: Vec<(String, u32, bool)> = d.cards.iter().map(|c| (c.id.clone(), c.count, c.upgraded)).collect();
    assert_eq!(lines, vec![("strike".to_string(), 5, false), ("anger".to_string(), 1, true)]);
}

#[test]
fn filenames_keep_only_safe_characters() {
    assert_eq!(sanitize_for_filename("dummy_3turn.v2-a"), "dummy_3turn.v2-a");
    assert_eq!(sanitize_for_filename("a b/c:強"), "a_b_c__");
    assert_eq!(sanitize_for_filename(&sanitize_for_filename("x y")), "x_y");
}
