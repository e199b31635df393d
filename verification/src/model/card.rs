use vstd::prelude::*;

verus! {

/// The identifier of a card in a catalog (for example `"bash"`).
pub type CardId = String;

#[derive(Debug, Clone, Copy, PartialEq, Eq, Structural)]
pub enum CardRarity {
    Starter,
    Common,
    Uncommon,
    Rare,
    Ancient,
    Event,
    Shop,
    Special,
    Colorless,
    Status,
}

#[derive(Debug, Clone, Copy, PartialEq, Eq, Structural)]
pub enum CardKind {
    Attack,
    Skill,
    Curse,
    Power,
}

/// One effect of playing a card.
#[derive(Debug)]
#[allow(inconsistent_fields)]
pub enum CardEffect {
    Damage { amount: i32, hits: u8 },
    Block { amount: i32 },
    ApplyVulnerable { turns: u8 },
    Draw { count: u8 },
    GainEnergy { amount: u8 },
    GainStrengthThisTurn { amount: i32 },
    GainStrength { amount: i32 },
    LoseHp { amount: i32 },
    AddCopyToDiscard { card_id: CardId, upgraded: bool, count: u8 },
    ExhaustSelf,
    PutDiscardOnTop { count: u8 },
    Unsupported { reason: String },
}

impl Clone for CardEffect {
    fn clone(&self) -> (c: Self)
        ensures
            c == *self,
    {
        match self {
            CardEffect::Damage { amount, hits } => CardEffect::Damage { amount: *amount, hits: *hits },
            CardEffect::Block { amount } => CardEffect::Block { amount: *amount },
            CardEffect::ApplyVulnerable { turns } => CardEffect::ApplyVulnerable { turns: *turns },
            CardEffect::Draw { count } => CardEffect::Draw { count: *count },
            CardEffect::GainEnergy { amount } => CardEffect::GainEnergy { amount: *amount },
            CardEffect::GainStrengthThisTurn { amount } => CardEffect::GainStrengthThisTurn {
                amount: *amount,
            },
            CardEffect::GainStrength { amount } => CardEffect::GainStrength { amount: *amount },
            CardEffect::LoseHp { amount } => CardEffect::LoseHp { amount: *amount },
            CardEffect::AddCopyToDiscard { card_id, upgraded, count } => {
                CardEffect::AddCopyToDiscard {
                    card_id: card_id.clone(),
                    upgraded: *upgraded,
                    count: *count,
                }
            },
            CardEffect::ExhaustSelf => CardEffect::ExhaustSelf,
            CardEffect::PutDiscardOnTop { count } => CardEffect::PutDiscardOnTop { count: *count },
            CardEffect::Unsupported { reason } => CardEffect::Unsupported { reason: reason.clone() },
        }
    }
}

/// The definition of a card. The `upgraded_*` fields, where present, replace
/// the plain values for an upgraded copy of the card.
#[derive(Debug)]
pub struct CardDef {
    pub id: CardId,
    pub name: String,
    pub kind: CardKind,
    pub rarity: Option<CardRarity>,
    pub cost: u8,
    pub base_damage: i32,
    pub base_block: i32,
    pub apply_vulnerable: u8,
    pub text: Option<String>,
    pub effects: Vec<CardEffect>,
    pub upgraded_cost: Option<u8>,
    pub upgraded_base_damage: Option<i32>,
    pub upgraded_base_block: Option<i32>,
    pub upgraded_apply_vulnerable: Option<u8>,
    pub upgraded_text: Option<String>,
    pub upgraded_effects: Option<Vec<CardEffect>>,
    pub draw: u8,
    pub add_block_on_attack_play: i32,
}

/// `upgraded_value` when the copy is upgraded and the card defines one, else `plain`.
pub open spec fn upgrade_or<T>(upgraded: bool, upgraded_value: Option<T>, plain: T) -> T {
    if upgraded {
        match upgraded_value {
            Some(v) => v,
            None => plain,
        }
    } else {
        plain
    }
}

impl CardDef {
    pub open spec fn spec_cost_for(self, upgraded: bool) -> u8 {
        upgrade_or(upgraded, self.upgraded_cost, self.cost)
    }

    pub open spec fn spec_base_damage_for(self, upgraded: bool) -> i32 {
        upgrade_or(upgraded, self.upgraded_base_damage, self.base_damage)
    }

    pub open spec fn spec_base_block_for(self, upgraded: bool) -> i32 {
        upgrade_or(upgraded, self.upgraded_base_block, self.base_block)
    }

    pub open spec fn spec_apply_vulnerable_for(self, upgraded: bool) -> u8 {
        upgrade_or(upgraded, self.upgraded_apply_vulnerable, self.apply_vulnerable)
    }

    pub open spec fn spec_effects_for(self, upgraded: bool) -> Seq<CardEffect> {
        if upgraded && self.upgraded_effects is Some {
            self.upgraded_effects->0@
        } else {
            self.effects@
        }
    }

    pub fn cost_for(&self, upgraded: bool) -> (c: u8)
        ensures
            c == self.spec_cost_for(upgraded),
    {
        if upgraded {
            match self.upgraded_cost {
                Some(c) => c,
                None => self.cost,
            }
        } else {
            self.cost
        }
    }

    pub fn base_damage_for(&self, upgraded: bool) -> (d: i32)
        ensures
            d == self.spec_base_damage_for(upgraded),
    {
        if upgraded {
            match self.upgraded_base_damage {
                Some(d) => d,
                None => self.base_damage,
            }
        } else {
            self.base_damage
        }
    }

    pub fn base_block_for(&self, upgraded: bool) -> (b: i32)
        ensures
            b == self.spec_base_block_for(upgraded),
    {
        if upgraded {
            match self.upgraded_base_block {
                Some(b) => b,
                None => self.base_block,
            }
        } else {
            self.base_block
        }
    }

    pub fn apply_vulnerable_for(&self, upgraded: bool) -> (v: u8)
        ensures
            v == self.spec_apply_vulnerable_for(upgraded),
    {
        if upgraded {
            match self.upgraded_apply_vulnerable {
                Some(v) => v,
                None => self.apply_vulnerable,
            }
        } else {
            self.apply_vulnerable
        }
    }

    pub fn effects_for(&self, upgraded: bool) -> (e: &[CardEffect])
        ensures
            e@ == self.spec_effects_for(upgraded),
    {
        if upgraded {
            if let Some(e) = &self.upgraded_effects {
                return e.as_slice();
            }
        }
        self.effects.as_slice()
    }
}

/// The card that `defs` defines last under `id`, if any.
pub open spec fn last_def_with_id(defs: Seq<CardDef>, id: Seq<char>) -> Option<CardDef>
    decreases defs.len(),
{
    if defs.len() == 0 {
        None
    } else if defs.last().id@ == id {
        Some(defs.last())
    } else {
        last_def_with_id(defs.drop_last(), id)
    }
}

/// No two definitions share an id.
pub open spec fn ids_unique(defs: Seq<CardDef>) -> bool {
    forall|i: int, j: int| 0 <= i < j < defs.len() ==> defs[i].id@ != defs[j].id@
}

/// A set of card definitions, looked up by id.
#[derive(Debug)]
pub struct CardCatalog {
    defs: Vec<CardDef>,
}

impl CardCatalog {
    /// The definitions that the catalog holds, each id once.
    pub closed spec fn entries(self) -> Seq<CardDef> {
        self.defs@
    }

    /// The definition that the catalog holds under `id`.
    pub open spec fn spec_get(self, id: Seq<char>) -> Option<CardDef> {
        last_def_with_id(self.entries(), id)
    }

    pub open spec fn wf(self) -> bool {
        ids_unique(self.entries())
    }

    /// Builds a catalog; where several definitions share an id, the last one is kept.
    pub fn from_defs(defs: Vec<CardDef>) -> (c: Self)
        ensures
            c.wf(),
            forall|id: Seq<char>| #[trigger] c.spec_get(id) == last_def_with_id(defs@, id),
    {
        let ghost all = defs@;
        let mut rest = defs;
        let mut kept: Vec<CardDef> = Vec::new();
        while rest.len() > 0
            invariant
                rest@ == all.take(rest@.len() as int),
                rest@.len() <= all.len(),
                ids_unique(kept@),
                forall|id: Seq<char>|
                    #![trigger last_def_with_id(all, id)]
                    last_def_with_id(all, id) == match last_def_with_id(kept@, id) {
                        Some(d) => Some(d),
                        None => last_def_with_id(rest@, id),
                    },
            decreases rest.len(),
        {
            let ghost before = rest@;
            let d = rest.pop().unwrap();
            proof {
                assert(rest@ == before.drop_last());
                assert(rest@ == all.take(rest@.len() as int));
            }
            let mut found = false;
            let mut i: usize = 0;
            while i < kept.len()
                invariant
                    i <= kept.len(),
                    found == (exists|j: int| 0 <= j < i && kept@[j].id@ == d.id@),
                decreases kept.len() - i,
            {
                if kept[i].id == d.id {
                    found = true;
                }
                i += 1;
            }
            if !found {
                proof {
                    lemma_last_def_absent(kept@, d.id@);
                }
                let ghost old_kept = kept@;
                kept.push(d);
                proof {
                    assert(kept@.drop_last() == old_kept);
                }
            } else {
                proof {
                    let j = choose|j: int| 0 <= j < kept@.len() && kept@[j].id@ == d.id@;
                    lemma_last_def_present(kept@, j);
                }
            }
        }
        CardCatalog { defs: kept }
    }

    pub fn get(&self, id: &str) -> (r: Option<&CardDef>)
        ensures
            match r {
                Some(d) => self.spec_get(id@) == Some(*d),
                None => self.spec_get(id@) is None,
            },
    {
        let key = String::from_str(id);
        let mut i = self.defs.len();
        assert(self.defs@.take(i as int) == self.defs@);
        while i > 0
            invariant
                i <= self.defs@.len(),
                key@ == id@,
                last_def_with_id(self.defs@, id@) == last_def_with_id(self.defs@.take(i as int), id@),
            decreases i,
        {
            proof {
                assert(self.defs@.take(i as int).drop_last() == self.defs@.take(i - 1));
            }
            if self.defs[i - 1].id == key {
                return Some(&self.defs[i - 1]);
            }
            i -= 1;
        }
        None
    }

    /// All definitions of the catalog.
    pub fn iter(&self) -> (r: Vec<(&CardId, &CardDef)>)
        ensures
            r@.len() == self.entries().len(),
            forall|i: int|
                0 <= i < r@.len() ==> (*r@[i].0 == self.entries()[i].id && *r@[i].1
                    == self.entries()[i]),
    {
        let mut r: Vec<(&CardId, &CardDef)> = Vec::new();
        let mut i: usize = 0;
        while i < self.defs.len()
            invariant
                i <= self.defs@.len(),
                r@.len() == i,
                forall|k: int|
                    0 <= k < i ==> (*r@[k].0 == self.defs@[k].id && *r@[k].1 == self.defs@[k]),
            decreases self.defs@.len() - i,
        {
            let d = &self.defs[i];
            r.push((&d.id, d));
            i += 1;
        }
        r
    }
}

proof fn lemma_last_def_absent(defs: Seq<CardDef>, id: Seq<char>)
    requires
        forall|j: int| 0 <= j < defs.len() ==> defs[j].id@ != id,
    ensures
        last_def_with_id(defs, id) is None,
    decreases defs.len(),
{
    if defs.len() > 0 {
        lemma_last_def_absent(defs.drop_last(), id);
    }
}

proof fn lemma_last_def_present(defs: Seq<CardDef>, j: int)
    requires
        0 <= j < defs.len(),
    ensures
        last_def_with_id(defs, defs[j].id@) is Some,
    decreases defs.len(),
{
    if j < defs.len() - 1 {
        lemma_last_def_present(defs.drop_last(), j);
    }
}

} // verus!
