use vstd::prelude::*;

use crate::model::card::CardDef;
use crate::model::deck::{
    can_add_one, deck_size, lemma_add_one_adds_a_plain_copy, spec_add_one, spec_remove_one,
    spec_upgrade_one, DeckEntry,
};
use crate::model::{CardCatalog, CardRarity, Deck, EnemyPattern};
use crate::sim::expectation::{simulate, simulation_answer, SimulationInput, SimulationTotals};
use crate::text::push_char;

verus! {

/// How the rows of a sweep report are laid out.
#[derive(Debug, Clone, Copy, PartialEq, Eq, Structural)]
pub enum OutputFormat {
    Table,
    Tsv,
    Json,
}

pub open spec fn format_error_message() -> Seq<char> {
    "formatは table|tsv|json から選んでください"@
}

/// Reads an output format name: `table`, `tsv` or `json`.
pub fn parse_format(s: &str) -> (r: Result<OutputFormat, String>)
    ensures
        s@ == "table"@ ==> r == Ok::<OutputFormat, String>(OutputFormat::Table),
        s@ == "tsv"@ ==> r == Ok::<OutputFormat, String>(OutputFormat::Tsv),
        s@ == "json"@ ==> r == Ok::<OutputFormat, String>(OutputFormat::Json),
        s@ != "table"@ && s@ != "tsv"@ && s@ != "json"@ ==> (r matches Err(msg) && msg@
            == format_error_message()),
{
    let key = String::from_str(s);
    proof {
        reveal_strlit("table");
        reveal_strlit("tsv");
        reveal_strlit("json");
        assert("tsv"@.len() == 3 && "table"@.len() == 5 && "json"@.len() == 4);
        assert("tsv"@ != "table"@);
        assert("json"@ != "table"@);
        assert("json"@ != "tsv"@);
    }
    if key == String::from_str("table") {
        Ok(OutputFormat::Table)
    } else if key == String::from_str("tsv") {
        Ok(OutputFormat::Tsv)
    } else if key == String::from_str("json") {
        Ok(OutputFormat::Json)
    } else {
        proof {
            reveal_strlit("formatは table|tsv|json から選んでください");
        }
        Err(String::from_str("formatは table|tsv|json から選んでください"))
    }
}

/// The deck after adding one copy of each of `ids`, in order.
pub open spec fn add_all(s: Seq<DeckEntry>, ids: Seq<String>) -> Seq<DeckEntry>
    decreases ids.len(),
{
    if ids.len() == 0 {
        s
    } else {
        spec_add_one(add_all(s, ids.drop_last()), ids.last()@)
    }
}

/// None of the additions overflows a copy counter.
pub open spec fn can_add_all(s: Seq<DeckEntry>, ids: Seq<String>) -> bool
    decreases ids.len(),
{
    if ids.len() == 0 {
        true
    } else {
        can_add_all(s, ids.drop_last()) && can_add_one(add_all(s, ids.drop_last()), ids.last()@)
    }
}

proof fn lemma_can_add_prefix(s: Seq<DeckEntry>, ids: Seq<String>, k: int)
    requires
        can_add_all(s, ids),
        0 <= k <= ids.len(),
    ensures
        can_add_all(s, ids.take(k)),
    decreases ids.len(),
{
    if k == ids.len() {
        assert(ids.take(k) == ids);
    } else {
        assert(ids.drop_last().take(k) == ids.take(k));
        lemma_can_add_prefix(s, ids.drop_last(), k);
    }
}

/// The deck after the changes asked for on the command line: each added
/// card, then the removal, then the upgrade.
pub open spec fn mutated(
    s: Seq<DeckEntry>,
    adds: Seq<String>,
    remove: Option<String>,
    upgrade: Option<String>,
) -> Seq<DeckEntry> {
    let a = add_all(s, adds);
    let r = match remove {
        Some(id) => spec_remove_one(a, id@),
        None => a,
    };
    match upgrade {
        Some(id) => spec_upgrade_one(r, id@),
        None => r,
    }
}

/// Applies the command line's deck changes: adds one copy of each card of
/// `adds`, removes one copy of `remove`, upgrades one copy of `upgrade`.
pub fn apply_mutations(
    deck: Deck,
    adds: &Vec<String>,
    remove: &Option<String>,
    upgrade: &Option<String>,
) -> (d: Deck)
    requires
        can_add_all(deck@, adds@),
    ensures
        d@ == mutated(deck@, adds@, *remove, *upgrade),
{
    let ghost start = deck@;
    let mut deck = deck;
    let mut i: usize = 0;
    while i < adds.len()
        invariant
            i <= adds@.len(),
            can_add_all(start, adds@),
            deck@ == add_all(start, adds@.take(i as int)),
        decreases adds@.len() - i,
    {
        proof {
            lemma_can_add_prefix(start, adds@, i + 1);
            assert(adds@.take(i + 1).drop_last() == adds@.take(i as int));
        }
        deck.add_one(adds[i].as_str());
        i += 1;
    }
    assert(adds@.take(adds@.len() as int) == adds@);
    if let Some(id) = remove {
        deck.remove_one(id.as_str());
    }
    if let Some(id) = upgrade {
        deck.upgrade_one(id.as_str());
    }
    deck
}

pub open spec fn filename_char(c: char) -> char {
    if ('a' <= c && c <= 'z') || ('A' <= c && c <= 'Z') || ('0' <= c && c <= '9') || c == '-' || c
        == '_' || c == '.' {
        c
    } else {
        '_'
    }
}

/// `s` with every character other than an ASCII letter, a digit, `-`, `_`
/// or `.` replaced by `_`.
pub fn sanitize_for_filename(s: &str) -> (r: String)
    ensures
        r@ == s@.map_values(|c: char| filename_char(c)),
{
    let n = s.unicode_len();
    let mut r = String::new();
    let mut i: usize = 0;
    while i < n
        invariant
            n == s@.len(),
            i <= n,
            r@ == s@.take(i as int).map_values(|c: char| filename_char(c)),
        decreases n - i,
    {
        let c = s.get_char(i);
        let d = if ('a' <= c && c <= 'z') || ('A' <= c && c <= 'Z') || ('0' <= c && c <= '9') || c
            == '-' || c == '_' || c == '.' {
            c
        } else {
            '_'
        };
        push_char(&mut r, d);
        assert(r@ =~= s@.take(i + 1).map_values(|c: char| filename_char(c)));
        i += 1;
    }
    assert(s@.take(n as int) == s@);
    r
}


/// Which rarities a sweep goes through.
#[derive(Debug, Clone, Copy, PartialEq, Eq, Structural)]
pub struct SweepSelection {
    pub common: bool,
    pub uncommon: bool,
    pub rare: bool,
}

impl SweepSelection {
    /// The selection that the sweep flags ask for; `all` asks for every rarity.
    pub fn from_flags(common: bool, uncommon: bool, rare: bool, all: bool) -> (s: Self)
        ensures
            s.common == (common || all),
            s.uncommon == (uncommon || all),
            s.rare == (rare || all),
    {
        SweepSelection { common: common || all, uncommon: uncommon || all, rare: rare || all }
    }

    pub fn any(&self) -> (b: bool)
        ensures
            b == (self.common || self.uncommon || self.rare),
    {
        self.common || self.uncommon || self.rare
    }

    pub open spec fn spec_selects(self, rarity: Option<CardRarity>) -> bool {
        match rarity {
            Some(CardRarity::Common) => self.common,
            Some(CardRarity::Uncommon) => self.uncommon,
            Some(CardRarity::Rare) => self.rare,
            _ => false,
        }
    }

    /// Whether a card of this rarity is swept.
    pub fn selects(&self, rarity: Option<CardRarity>) -> (b: bool)
        ensures
            b == self.spec_selects(rarity),
    {
        match rarity {
            Some(CardRarity::Common) => self.common,
            Some(CardRarity::Uncommon) => self.uncommon,
            Some(CardRarity::Rare) => self.rare,
            _ => false,
        }
    }

    pub open spec fn spec_label(self) -> Seq<char> {
        let parts = (if self.common {
            seq!["common"@]
        } else {
            Seq::empty()
        }) + (if self.uncommon {
            seq!["uncommon"@]
        } else {
            Seq::empty()
        }) + (if self.rare {
            seq!["rare"@]
        } else {
            Seq::empty()
        });
        crate::report::sweep::join(parts, "-"@)
    }

    /// The selected rarities joined by `-`, for titles and file names.
    pub fn label(&self) -> (r: String)
        ensures
            r@ == self.spec_label(),
    {
        let ghost mut done: Seq<Seq<char>> = Seq::empty();
        let mut r = String::new();
        let mut n: usize = 0;
        if self.common {
            r.append("common");
            n += 1;
            proof {
                done = done.push("common"@);
                assert(r@ =~= crate::report::sweep::join(done, "-"@));
            }
        }
        if self.uncommon {
            let ghost before = done;
            if n > 0 {
                r.append("-");
            }
            r.append("uncommon");
            n += 1;
            proof {
                done = done.push("uncommon"@);
                assert(done.drop_last() == before);
                assert(r@ =~= crate::report::sweep::join(done, "-"@));
            }
        }
        if self.rare {
            let ghost before = done;
            if n > 0 {
                r.append("-");
            }
            r.append("rare");
            n += 1;
            proof {
                done = done.push("rare"@);
                assert(done.drop_last() == before);
                assert(r@ =~= crate::report::sweep::join(done, "-"@));
            }
        }
        proof {
            let parts = (if self.common {
                seq!["common"@]
            } else {
                Seq::empty()
            }) + (if self.uncommon {
                seq!["uncommon"@]
            } else {
                Seq::empty()
            }) + (if self.rare {
                seq!["rare"@]
            } else {
                Seq::empty()
            });
            assert(done =~= parts);
            if n == 0 {
                assert(parts.len() == 0);
            }
        }
        r
    }
}

/// Sanitizing a name that was already sanitized changes nothing.
pub proof fn lemma_sanitize_idempotent(s: Seq<char>)
    ensures
        s.map_values(|c: char| filename_char(c)).map_values(|c: char| filename_char(c))
            == s.map_values(|c: char| filename_char(c)),
{
    assert(s.map_values(|c: char| filename_char(c)).map_values(|c: char| filename_char(c))
        =~= s.map_values(|c: char| filename_char(c)));
}

/// The ids of the definitions that the selection sweeps, in order.
pub open spec fn swept_ids(defs: Seq<CardDef>, selection: SweepSelection) -> Seq<Seq<char>>
    decreases defs.len(),
{
    if defs.len() == 0 {
        Seq::empty()
    } else {
        let rest = swept_ids(defs.drop_last(), selection);
        if selection.spec_selects(defs.last().rarity) {
            rest.push(defs.last().id@)
        } else {
            rest
        }
    }
}

/// Simulates, for each card of the catalog that the selection sweeps, in
/// the catalog's order, the deck `base` with one more plain copy of that
/// card; each simulation gets the same turns, samples and seed. The answer
/// lists each swept id with its totals, or is the first refusal.
pub fn sweep_simulations(
    catalog: &CardCatalog,
    base: &Deck,
    enemy: &EnemyPattern,
    turns: usize,
    samples: u32,
    seed: u64,
    selection: &SweepSelection,
) -> (r: Result<Vec<(String, SimulationTotals)>, String>)
    requires
        deck_size(base@) + 1 < u32::MAX,
        forall|k: int|
            0 <= k < catalog.entries().len() ==> can_add_one(base@, #[trigger] catalog.entries()[k].id@),
    ensures
        r matches Ok(rows) ==> {
            let ids = swept_ids(catalog.entries(), *selection);
            &&& rows@.len() == ids.len()
            &&& forall|j: int|
                0 <= j < rows@.len() ==> (#[trigger] rows@[j]).0@ == ids[j] && simulation_answer(
                    *catalog,
                    spec_add_one(base@, ids[j]),
                    *enemy,
                    turns,
                    samples,
                    Ok(rows@[j].1),
                )
        },
        r matches Err(msg) ==> exists|j: int|
            0 <= j < swept_ids(catalog.entries(), *selection).len() && simulation_answer(
                *catalog,
                spec_add_one(base@, #[trigger] swept_ids(catalog.entries(), *selection)[j]),
                *enemy,
                turns,
                samples,
                Err(msg),
            ),
{
    let defs = catalog.iter();
    let ghost entries = catalog.entries();
    let mut rows: Vec<(String, SimulationTotals)> = Vec::new();
    let mut i: usize = 0;
    while i < defs.len()
        invariant
            i <= defs@.len(),
            defs@.len() == entries.len(),
            entries == catalog.entries(),
            forall|k: int|
                0 <= k < defs@.len() ==> (*defs@[k].0 == entries[k].id && *defs@[k].1 == entries[k]),
            deck_size(base@) + 1 < u32::MAX,
            forall|k: int| 0 <= k < entries.len() ==> can_add_one(base@, #[trigger] entries[k].id@),
            rows@.len() == swept_ids(entries.take(i as int), *selection).len(),
            forall|j: int|
                0 <= j < rows@.len() ==> (#[trigger] rows@[j]).0@ == swept_ids(
                    entries.take(i as int),
                    *selection,
                )[j] && simulation_answer(
                    *catalog,
                    spec_add_one(base@, rows@[j].0@),
                    *enemy,
                    turns,
                    samples,
                    Ok(rows@[j].1),
                ),
        decreases defs@.len() - i,
    {
        proof {
            assert(entries.take(i + 1).drop_last() == entries.take(i as int));
        }
        let (id, def) = defs[i];
        if selection.selects(def.rarity) {
            let mut deck = base.clone();
            assert(deck@ == base@);
            proof {
                assert(can_add_one(base@, entries[i as int].id@));
                lemma_add_one_adds_a_plain_copy(base@, id@);
            }
            deck.add_one(id.as_str());
            let input = SimulationInput { catalog, deck: &deck, enemy, turns, samples, seed };
            let answer = simulate(input);
            match answer {
                Ok(tot) => {
                    let ghost before = rows@;
                    rows.push((id.clone(), tot));
                    proof {
                        let n = before.len() as int;
                        let pre = swept_ids(entries.take(i as int), *selection);
                        assert(swept_ids(entries.take(i + 1), *selection) == pre.push(id@));
                        assert forall|j: int| 0 <= j < rows@.len() implies (#[trigger] rows@[j]).0@
                            == pre.push(id@)[j] && simulation_answer(
                            *catalog,
                            spec_add_one(base@, rows@[j].0@),
                            *enemy,
                            turns,
                            samples,
                            Ok(rows@[j].1),
                        ) by {
                            if j < n {
                                assert(rows@[j] == before[j]);
                            }
                        }
                    }
                },
                Err(msg) => {
                    proof {
                        let n = rows@.len() as int;
                        assert(swept_ids(entries.take(i + 1), *selection) == swept_ids(
                            entries.take(i as int),
                            *selection,
                        ).push(id@));
                        lemma_swept_prefix(entries, *selection, i as int);
                        assert(swept_ids(entries.take(i + 1), *selection)[n] == id@);
                        assert(swept_ids(entries, *selection)[n] == id@);
                    }
                    return Err(msg);
                },
            }
        } else {
            proof {
                assert(swept_ids(entries.take(i + 1), *selection) == swept_ids(
                    entries.take(i as int),
                    *selection,
                ));
            }
        }
        i += 1;
    }
    proof {
        assert(entries.take(defs@.len() as int) == entries);
    }
    Ok(rows)
}

/// The swept ids of a prefix of the definitions begin the swept ids of all.
proof fn lemma_swept_prefix(defs: Seq<CardDef>, selection: SweepSelection, i: int)
    requires
        0 <= i < defs.len(),
    ensures
        swept_ids(defs.take(i + 1), selection).len() <= swept_ids(defs, selection).len(),
        forall|j: int|
            0 <= j < swept_ids(defs.take(i + 1), selection).len() ==> #[trigger] swept_ids(
                defs.take(i + 1),
                selection,
            )[j] == swept_ids(defs, selection)[j],
    decreases defs.len(),
{
    if i + 1 < defs.len() {
        lemma_swept_prefix(defs.drop_last(), selection, i);
        assert(defs.drop_last().take(i + 1) == defs.take(i + 1));
    } else {
        assert(defs.take(i + 1) == defs);
    }
}

/// The ids of the definitions whose rarity is `r`, in order.
pub open spec fn ids_of_rarity(defs: Seq<CardDef>, r: CardRarity) -> Seq<Seq<char>>
    decreases defs.len(),
{
    if defs.len() == 0 {
        Seq::empty()
    } else if defs.last().rarity == Some(r) {
        ids_of_rarity(defs.drop_last(), r).push(defs.last().id@)
    } else {
        ids_of_rarity(defs.drop_last(), r)
    }
}

/// A sweep asked for one rarity alone (common, uncommon or rare) goes
/// through exactly the cards of that rarity, in the catalog's order.
pub proof fn lemma_single_rarity_sweep(defs: Seq<CardDef>, r: CardRarity)
    requires
        r == CardRarity::Common || r == CardRarity::Uncommon || r == CardRarity::Rare,
    ensures
        swept_ids(
            defs,
            SweepSelection {
                common: r == CardRarity::Common,
                uncommon: r == CardRarity::Uncommon,
                rare: r == CardRarity::Rare,
            },
        ) == ids_of_rarity(defs, r),
    decreases defs.len(),
{
    if defs.len() > 0 {
        lemma_single_rarity_sweep(defs.drop_last(), r);
    }
}

/// A sweep asked for no rarity goes through no card, and one asked for all
/// three goes through every common, uncommon and rare card and no other.
pub proof fn lemma_sweep_none_or_all(defs: Seq<CardDef>, k: int)
    requires
        0 <= k < defs.len(),
    ensures
        swept_ids(defs, SweepSelection { common: false, uncommon: false, rare: false }).len() == 0,
        (defs[k].rarity == Some(CardRarity::Common) || defs[k].rarity == Some(CardRarity::Uncommon)
            || defs[k].rarity == Some(CardRarity::Rare)) <==> swept_ids(
            defs.take(k + 1),
            SweepSelection { common: true, uncommon: true, rare: true },
        ).len() == swept_ids(
            defs.take(k),
            SweepSelection { common: true, uncommon: true, rare: true },
        ).len() + 1,
{
    lemma_sweep_nothing(defs);
    assert(defs.take(k + 1).drop_last() == defs.take(k));
}

proof fn lemma_sweep_nothing(defs: Seq<CardDef>)
    ensures
        swept_ids(defs, SweepSelection { common: false, uncommon: false, rare: false }).len() == 0,
    decreases defs.len(),
{
    if defs.len() > 0 {
        lemma_sweep_nothing(defs.drop_last());
    }
}

} // verus!
