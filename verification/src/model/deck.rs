use vstd::multiset::Multiset;
use vstd::prelude::*;

use super::card::CardId;

verus! {

/// `count` copies of one card, upgraded or not.
#[derive(Debug, PartialEq, Eq)]
pub struct DeckCardDef {
    pub id: CardId,
    pub count: u32,
    pub upgraded: bool,
}

/// A deck line as a plain value: card id, number of copies, upgraded.
pub type DeckEntry = (Seq<char>, u32, bool);

impl View for DeckCardDef {
    type V = DeckEntry;

    open spec fn view(&self) -> DeckEntry {
        (self.id@, self.count, self.upgraded)
    }
}

impl Clone for DeckCardDef {
    fn clone(&self) -> (c: Self)
        ensures
            c == *self,
    {
        DeckCardDef { id: self.id.clone(), count: self.count, upgraded: self.upgraded }
    }
}

/// A deck as read from its definition file.
#[derive(Debug, PartialEq, Eq)]
pub struct DeckDef {
    pub cards: Vec<DeckCardDef>,
}

/// A deck: lines of card copies, in order.
#[derive(Debug, PartialEq, Eq)]
pub struct Deck {
    pub cards: Vec<DeckCardDef>,
}

impl Clone for Deck {
    fn clone(&self) -> (d: Self)
        ensures
            d.cards@ == self.cards@,
    {
        let mut cards: Vec<DeckCardDef> = Vec::new();
        let mut i: usize = 0;
        while i < self.cards.len()
            invariant
                i <= self.cards@.len(),
                cards@ == self.cards@.take(i as int),
            decreases self.cards@.len() - i,
        {
            cards.push(self.cards[i].clone());
            assert(cards@ =~= self.cards@.take(i + 1));
            i += 1;
        }
        assert(self.cards@.take(self.cards@.len() as int) == self.cards@);
        Deck { cards }
    }
}

pub open spec fn deck_entries(cards: Seq<DeckCardDef>) -> Seq<DeckEntry> {
    cards.map_values(|c: DeckCardDef| c@)
}

impl View for Deck {
    type V = Seq<DeckEntry>;

    open spec fn view(&self) -> Seq<DeckEntry> {
        deck_entries(self.cards@)
    }
}

/// `i` is the first line of `s` for card `id` (plain copies only, when `plain_only`).
pub open spec fn is_first_line(s: Seq<DeckEntry>, id: Seq<char>, plain_only: bool, i: int) -> bool {
    &&& 0 <= i < s.len()
    &&& s[i].0 == id
    &&& (plain_only ==> !s[i].2)
    &&& forall|j: int| 0 <= j < i ==> !(s[j].0 == id && (plain_only ==> !s[j].2))
}

/// The first line of `s` for card `id` (plain copies only, when `plain_only`).
pub open spec fn first_line(s: Seq<DeckEntry>, id: Seq<char>, plain_only: bool) -> Option<int> {
    if exists|i: int| is_first_line(s, id, plain_only, i) {
        Some(choose|i: int| is_first_line(s, id, plain_only, i))
    } else {
        None
    }
}

/// The deck after adding one plain copy of `id`: the first plain line of
/// `id` gains a copy, or a new line with one copy is appended.
pub open spec fn spec_add_one(s: Seq<DeckEntry>, id: Seq<char>) -> Seq<DeckEntry> {
    match first_line(s, id, true) {
        Some(i) => s.update(i, (id, (s[i].1 + 1) as u32, false)),
        None => s.push((id, 1u32, false)),
    }
}

/// Adding one copy of `id` does not overflow the copy counter.
pub open spec fn can_add_one(s: Seq<DeckEntry>, id: Seq<char>) -> bool {
    match first_line(s, id, true) {
        Some(i) => s[i].1 < u32::MAX,
        None => true,
    }
}

/// The deck after taking one copy out of line `i`; a line with one copy or
/// none goes away.
pub open spec fn take_copy_from_line(s: Seq<DeckEntry>, i: int) -> Seq<DeckEntry> {
    if s[i].1 > 1 {
        s.update(i, (s[i].0, (s[i].1 - 1) as u32, s[i].2))
    } else {
        s.remove(i)
    }
}

/// The deck after removing one copy of `id` from its first line, if it has one.
pub open spec fn spec_remove_one(s: Seq<DeckEntry>, id: Seq<char>) -> Seq<DeckEntry> {
    match first_line(s, id, false) {
        Some(i) => take_copy_from_line(s, i),
        None => s,
    }
}

/// The deck after upgrading one copy of `id`. Where the first line of `id`
/// is already upgraded, or holds no copy, nothing changes; otherwise one
/// copy leaves it and an upgraded line of one copy is appended. Where the
/// deck has no line of `id`, an upgraded copy is added.
pub open spec fn spec_upgrade_one(s: Seq<DeckEntry>, id: Seq<char>) -> Seq<DeckEntry> {
    match first_line(s, id, false) {
        Some(i) => if s[i].2 || s[i].1 == 0 {
            s
        } else {
            take_copy_from_line(s, i).push((id, 1u32, true))
        },
        None => s.push((id, 1u32, true)),
    }
}

/// The copies that the deck lines stand for, in order: card id and upgraded.
pub open spec fn expand_lines(s: Seq<DeckEntry>) -> Seq<(Seq<char>, bool)>
    decreases s.len(),
{
    if s.len() == 0 {
        Seq::empty()
    } else {
        expand_lines(s.drop_last()) + Seq::new(s.last().1 as nat, |k: int| (s.last().0, s.last().2))
    }
}

/// The number of cards in a deck.
pub open spec fn deck_size(s: Seq<DeckEntry>) -> nat {
    expand_lines(s).len()
}

/// Finds the first line for `key`, plain copies only when `plain_only`.
fn find_line(cards: &Vec<DeckCardDef>, key: &String, plain_only: bool) -> (r: Option<usize>)
    ensures
        match r {
            Some(i) => first_line(deck_entries(cards@), key@, plain_only) == Some(i as int),
            None => first_line(deck_entries(cards@), key@, plain_only) is None,
        },
{
    let ghost s = deck_entries(cards@);
    let mut i: usize = 0;
    while i < cards.len()
        invariant
            i <= cards@.len(),
            s == deck_entries(cards@),
            forall|j: int| 0 <= j < i ==> !(s[j].0 == key@ && (plain_only ==> !s[j].2)),
        decreases cards@.len() - i,
    {
        if cards[i].id == *key && (!plain_only || !cards[i].upgraded) {
            proof {
                assert(is_first_line(s, key@, plain_only, i as int));
                let k = choose|k: int| is_first_line(s, key@, plain_only, k);
                assert(k == i);
            }
            return Some(i);
        }
        i += 1;
    }
    None
}

/// Takes one copy out of line `i`, removing the line where it held one copy or none.
fn take_copy(cards: &mut Vec<DeckCardDef>, i: usize)
    requires
        i < old(cards)@.len(),
    ensures
        deck_entries(final(cards)@) == take_copy_from_line(deck_entries(old(cards)@), i as int),
{
    let ghost s = deck_entries(cards@);
    if cards[i].count > 1 {
        let line = DeckCardDef {
            id: cards[i].id.clone(),
            count: cards[i].count - 1,
            upgraded: cards[i].upgraded,
        };
        cards.set(i, line);
        assert(deck_entries(cards@) =~= take_copy_from_line(s, i as int));
    } else {
        cards.remove(i);
        assert(deck_entries(cards@) =~= take_copy_from_line(s, i as int));
    }
}

impl Deck {
    pub fn from_def(def: DeckDef) -> (d: Self)
        ensures
            d.cards@ == def.cards@,
    {
        Self { cards: def.cards }
    }

    /// Adds one plain copy of `id`.
    pub fn add_one(&mut self, id: &str)
        requires
            can_add_one(old(self)@, id@),
        ensures
            final(self)@ == spec_add_one(old(self)@, id@),
    {
        let ghost s = self@;
        let key = String::from_str(id);
        match find_line(&self.cards, &key, true) {
            Some(i) => {
                let line = DeckCardDef { id: key, count: self.cards[i].count + 1, upgraded: false };
                self.cards.set(i, line);
                assert(self@ =~= spec_add_one(s, id@));
            },
            None => {
                self.cards.push(DeckCardDef { id: key, count: 1, upgraded: false });
                assert(self@ =~= spec_add_one(s, id@));
            },
        }
    }

    /// Removes one copy of `id` from the first line that holds that card.
    pub fn remove_one(&mut self, id: &str)
        ensures
            final(self)@ == spec_remove_one(old(self)@, id@),
    {
        let key = String::from_str(id);
        if let Some(i) = find_line(&self.cards, &key, false) {
            take_copy(&mut self.cards, i);
        }
    }

    /// Turns one copy of `id` into an upgraded copy.
    pub fn upgrade_one(&mut self, id: &str)
        ensures
            final(self)@ == spec_upgrade_one(old(self)@, id@),
    {
        let ghost s = self@;
        let key = String::from_str(id);
        if let Some(i) = find_line(&self.cards, &key, false) {
            if self.cards[i].upgraded {
                return;
            }
            if self.cards[i].count == 0 {
                return;
            }
            take_copy(&mut self.cards, i);
            let ghost mid = self@;
            self.cards.push(DeckCardDef { id: key, count: 1, upgraded: true });
            assert(self@ =~= mid.push((id@, 1u32, true)));
        } else {
            self.cards.push(DeckCardDef { id: key, count: 1, upgraded: true });
            assert(self@ =~= spec_upgrade_one(s, id@));
        }
    }
}


/// The copies that one line stands for.
pub open spec fn line_copies(e: DeckEntry) -> Seq<(Seq<char>, bool)> {
    Seq::new(e.1 as nat, |k: int| (e.0, e.2))
}

/// The cards a deck stands for, counted by card id and upgraded flag.
pub open spec fn deck_cards(s: Seq<DeckEntry>) -> Multiset<(Seq<char>, bool)> {
    expand_lines(s).to_multiset()
}

proof fn lemma_expand_concat(s: Seq<DeckEntry>, t: Seq<DeckEntry>)
    ensures
        expand_lines(s + t) == expand_lines(s) + expand_lines(t),
    decreases t.len(),
{
    if t.len() == 0 {
        assert(s + t =~= s);
        assert(expand_lines(s) + expand_lines(t) =~= expand_lines(s));
    } else {
        assert((s + t).drop_last() =~= s + t.drop_last());
        lemma_expand_concat(s, t.drop_last());
        assert(expand_lines(s + t) =~= expand_lines(s) + expand_lines(t));
    }
}

proof fn lemma_expand_split(s: Seq<DeckEntry>, i: int)
    requires
        0 <= i < s.len(),
    ensures
        deck_cards(s) == deck_cards(s.take(i)).add(line_copies(s[i]).to_multiset()).add(
            deck_cards(s.skip(i + 1)),
        ),
{
    broadcast use vstd::seq_lib::lemma_multiset_commutative;

    assert(s =~= s.take(i) + seq![s[i]] + s.skip(i + 1));
    lemma_expand_concat(s.take(i) + seq![s[i]], s.skip(i + 1));
    lemma_expand_concat(s.take(i), seq![s[i]]);
    assert(seq![s[i]].drop_last() =~= Seq::<DeckEntry>::empty());
    assert(seq![s[i]].last() == s[i]);
    assert(expand_lines(Seq::<DeckEntry>::empty()) == Seq::<(Seq<char>, bool)>::empty());
    assert(expand_lines(seq![s[i]]) =~= line_copies(s[i]));
}

proof fn lemma_line_one_more(e: DeckEntry, c: u32)
    requires
        c == e.1 + 1,
    ensures
        line_copies((e.0, c, e.2)).to_multiset() == line_copies(e).to_multiset().insert((e.0, e.2)),
{
    broadcast use vstd::seq_lib::group_to_multiset_ensures;

    assert(line_copies((e.0, c, e.2)) =~= line_copies(e).push((e.0, e.2)));
}

/// Adding a card to a deck adds exactly one plain copy of it to the cards
/// the deck stands for.
pub proof fn lemma_add_one_adds_a_plain_copy(s: Seq<DeckEntry>, id: Seq<char>)
    requires
        can_add_one(s, id),
    ensures
        deck_cards(spec_add_one(s, id)) == deck_cards(s).insert((id, false)),
        deck_size(spec_add_one(s, id)) == deck_size(s) + 1,
{
    broadcast use vstd::seq_lib::group_to_multiset_ensures, vstd::multiset::group_multiset_axioms;

    let after = spec_add_one(s, id);
    match first_line(s, id, true) {
        Some(i) => {
            let i = choose|i: int| is_first_line(s, id, true, i);
            let x = (id, (s[i].1 + 1) as u32, false);
            lemma_expand_split(s, i);
            lemma_expand_split(after, i);
            assert(after.take(i) =~= s.take(i));
            assert(after.skip(i + 1) =~= s.skip(i + 1));
            lemma_line_one_more(s[i], x.1);
            assert(deck_cards(after) =~= deck_cards(s).insert((id, false)));
        },
        None => {
            assert(after.drop_last() == s);
            assert(line_copies((id, 1u32, false)) =~= seq![(id, false)]);
            vstd::seq_lib::lemma_multiset_commutative(expand_lines(s), seq![(id, false)]);
            assert(deck_cards(after) =~= deck_cards(s).insert((id, false)));
        },
    }
    assert(deck_cards(after).len() == deck_cards(s).len() + 1);
}

proof fn lemma_take_copy_takes_one(s: Seq<DeckEntry>, i: int)
    requires
        0 <= i < s.len(),
    ensures
        deck_cards(take_copy_from_line(s, i)) == (if s[i].1 > 0 {
            deck_cards(s).remove((s[i].0, s[i].2))
        } else {
            deck_cards(s)
        }),
{
    broadcast use vstd::seq_lib::group_to_multiset_ensures, vstd::multiset::group_multiset_axioms;

    let after = take_copy_from_line(s, i);
    lemma_expand_split(s, i);
    if s[i].1 > 1 {
        let x = (s[i].0, (s[i].1 - 1) as u32, s[i].2);
        lemma_expand_split(after, i);
        assert(after.take(i) =~= s.take(i));
        assert(after.skip(i + 1) =~= s.skip(i + 1));
        lemma_line_one_more(x, s[i].1);
        assert(deck_cards(after) =~= deck_cards(s).remove((s[i].0, s[i].2)));
    } else {
        assert(after =~= s.take(i) + s.skip(i + 1));
        lemma_expand_concat(s.take(i), s.skip(i + 1));
        vstd::seq_lib::lemma_multiset_commutative(expand_lines(s.take(i)), expand_lines(s.skip(i + 1)));
        if s[i].1 == 1 {
            assert(line_copies(s[i]) =~= seq![(s[i].0, s[i].2)]);
            assert(deck_cards(after) =~= deck_cards(s).remove((s[i].0, s[i].2)));
        } else {
            assert(line_copies(s[i]) =~= Seq::<(Seq<char>, bool)>::empty());
            assert(deck_cards(after) =~= deck_cards(s));
        }
    }
}

/// Removing a card from a deck takes one copy out of the first line of that
/// card (upgraded or not, as that line is); a deck without the card stays
/// as it is.
pub proof fn lemma_remove_one_takes_a_copy(s: Seq<DeckEntry>, id: Seq<char>)
    ensures
        match first_line(s, id, false) {
            Some(i) => deck_cards(spec_remove_one(s, id)) == (if s[i].1 > 0 {
                deck_cards(s).remove((id, s[i].2))
            } else {
                deck_cards(s)
            }),
            None => spec_remove_one(s, id) == s,
        },
{
    if let Some(i) = first_line(s, id, false) {
        let j = choose|j: int| is_first_line(s, id, false, j);
        lemma_take_copy_takes_one(s, j);
    }
}

/// Upgrading a card turns one plain copy of it into an upgraded copy, where
/// the first line of the card holds plain copies; where the deck has no
/// line of the card, an upgraded copy is added; otherwise nothing changes.
pub proof fn lemma_upgrade_one_upgrades_a_copy(s: Seq<DeckEntry>, id: Seq<char>)
    ensures
        match first_line(s, id, false) {
            Some(i) => if !s[i].2 && s[i].1 > 0 {
                &&& deck_cards(spec_upgrade_one(s, id)) == deck_cards(s).remove((id, false)).insert(
                    (id, true),
                )
                &&& deck_size(spec_upgrade_one(s, id)) == deck_size(s)
            } else {
                spec_upgrade_one(s, id) == s
            },
            None => deck_cards(spec_upgrade_one(s, id)) == deck_cards(s).insert((id, true)),
        },
{
    broadcast use vstd::seq_lib::group_to_multiset_ensures, vstd::multiset::group_multiset_axioms;

    let after = spec_upgrade_one(s, id);
    match first_line(s, id, false) {
        Some(i) => {
            let j = choose|j: int| is_first_line(s, id, false, j);
            if !s[j].2 && s[j].1 > 0 {
                let mid = take_copy_from_line(s, j);
                lemma_take_copy_takes_one(s, j);
                assert(after.drop_last() == mid);
                assert(line_copies((id, 1u32, true)) =~= seq![(id, true)]);
                assert(expand_lines(after) == expand_lines(mid) + seq![(id, true)]);
                vstd::seq_lib::lemma_multiset_commutative(expand_lines(mid), seq![(id, true)]);
                assert(deck_cards(after) =~= deck_cards(s).remove((id, false)).insert((id, true)));
                assert(deck_cards(s).count((id, false)) > 0) by {
                    lemma_expand_split(s, j);
                    assert(line_copies(s[j])[0] == (id, false));
                    assert(line_copies(s[j]).to_multiset().count((id, false)) > 0);
                }
                assert(deck_cards(after).len() == deck_cards(s).len());
            }
        },
        None => {
            assert(after.drop_last() == s);
            assert(line_copies((id, 1u32, true)) =~= seq![(id, true)]);
            vstd::seq_lib::lemma_multiset_commutative(expand_lines(s), seq![(id, true)]);
            assert(deck_cards(after) =~= deck_cards(s).insert((id, true)));
        },
    }
}

/// Adding a card that the deck does not hold and then removing it gives
/// back the deck.
pub proof fn lemma_add_then_remove_restores(s: Seq<DeckEntry>, id: Seq<char>)
    requires
        forall|i: int| 0 <= i < s.len() ==> s[i].0 != id,
    ensures
        spec_remove_one(spec_add_one(s, id), id) == s,
{
    assert(first_line(s, id, true) is None);
    let a = spec_add_one(s, id);
    assert(a == s.push((id, 1u32, false)));
    assert(is_first_line(a, id, false, s.len() as int));
    let j = choose|j: int| is_first_line(a, id, false, j);
    assert(j == s.len());
    assert(a.remove(j) =~= s);
}

} // verus!
