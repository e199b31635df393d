use rand::rngs::StdRng;
use vstd::prelude::*;

use crate::model::deck::{
    can_add_one, deck_size, expand_lines, lemma_add_one_adds_a_plain_copy,
    spec_add_one, DeckEntry,
};
use crate::model::{CardCatalog, Deck};

use super::combinatorics::{
    binomial, combinations_indices, falling, index_lists, is_combination, lists_combinations, min_nat,
    n_choose_k,
};
use super::rng::shuffle_pile;

verus! {

broadcast use vstd::seq_lib::group_to_multiset_ensures, vstd::seq_lib::lemma_multiset_commutative,
    vstd::multiset::group_multiset_axioms;

/// One physical copy of a card in a combat.
#[derive(Debug, PartialEq, Eq, Hash)]
pub struct CardInstance {
    pub instance_id: u32,
    pub card_id: String,
    pub upgraded: bool,
}

impl Clone for CardInstance {
    fn clone(&self) -> (c: Self)
        ensures
            c == *self,
    {
        CardInstance {
            instance_id: self.instance_id,
            card_id: self.card_id.clone(),
            upgraded: self.upgraded,
        }
    }
}

/// Card id and upgraded flag of each instance.
pub open spec fn instance_cards(pile: Seq<CardInstance>) -> Seq<(Seq<char>, bool)> {
    pile.map_values(|c: CardInstance| (c.card_id@, c.upgraded))
}

proof fn lemma_expand_prefix_len(s: Seq<DeckEntry>, i: int)
    requires
        0 <= i <= s.len(),
    ensures
        expand_lines(s.take(i)).len() <= expand_lines(s).len(),
    decreases s.len(),
{
    if i < s.len() {
        assert(s.drop_last().take(i) == s.take(i));
        lemma_expand_prefix_len(s.drop_last(), i);
    } else {
        assert(s.take(i) == s);
    }
}

/// Lays the deck out as a draw pile: each copy becomes an instance, numbered
/// from 1 in deck order.
pub fn build_draw_pile(deck: &Deck) -> (out: Vec<CardInstance>)
    requires
        deck_size(deck@) < u32::MAX,
    ensures
        instance_cards(out@) == expand_lines(deck@),
        forall|j: int| 0 <= j < out@.len() ==> #[trigger] out@[j].instance_id == j + 1,
{
    let ghost s = deck@;
    let mut next_id: u32 = 1;
    let mut out: Vec<CardInstance> = Vec::new();
    let mut li: usize = 0;
    while li < deck.cards.len()
        invariant
            s == deck@,
            deck_size(s) < u32::MAX,
            li <= s.len(),
            instance_cards(out@) == expand_lines(s.take(li as int)),
            next_id == out@.len() + 1,
            forall|j: int| 0 <= j < out@.len() ==> #[trigger] out@[j].instance_id == j + 1,
        decreases s.len() - li,
    {
        let c = &deck.cards[li];
        let ghost before = out@;
        proof {
            assert(s.take(li + 1).drop_last() == s.take(li as int));
            assert(s.take(li + 1).last() == s[li as int]);
            lemma_expand_prefix_len(s, li + 1);
        }
        let mut k: u32 = 0;
        while k < c.count
            invariant
                s == deck@,
                deck_size(s) < u32::MAX,
                li < s.len(),
                *c == deck.cards@[li as int],
                k <= c.count,
                out@.len() == before.len() + k,
                before.len() + c.count == expand_lines(s.take(li + 1)).len(),
                expand_lines(s.take(li + 1)).len() <= deck_size(s),
                instance_cards(out@) == instance_cards(before) + Seq::new(
                    k as nat,
                    |m: int| (c.id@, c.upgraded),
                ),
                next_id == out@.len() + 1,
                forall|j: int| 0 <= j < out@.len() ==> #[trigger] out@[j].instance_id == j + 1,
            decreases c.count - k,
        {
            let ghost prev = out@;
            out.push(CardInstance { instance_id: next_id, card_id: c.id.clone(), upgraded: c.upgraded });
            assert(instance_cards(out@) =~= instance_cards(before) + Seq::new(
                (k + 1) as nat,
                |m: int| (c.id@, c.upgraded),
            )) by {
                assert(instance_cards(out@) =~= instance_cards(prev).push((c.id@, c.upgraded)));
            }
            next_id += 1;
            k += 1;
        }
        li += 1;
    }
    assert(s.take(s.len() as int) == s);
    out
}

/// Every line of the deck names a card of the catalog.
pub open spec fn all_cards_known(catalog: CardCatalog, s: Seq<DeckEntry>) -> bool {
    forall|i: int| 0 <= i < s.len() ==> (#[trigger] catalog.spec_get(s[i].0)) is Some
}

/// The first line of the deck whose card the catalog does not know.
pub open spec fn is_first_unknown(catalog: CardCatalog, s: Seq<DeckEntry>, i: int) -> bool {
    &&& 0 <= i < s.len()
    &&& catalog.spec_get(s[i].0) is None
    &&& all_cards_known(catalog, s.take(i))
}

pub open spec fn unknown_card_message(id: Seq<char>) -> Seq<char> {
    "デッキに未知のcard_idがあります: "@ + id
}

/// Checks that the catalog knows every card of the deck; otherwise names the
/// first unknown card.
pub fn validate_deck(deck: &Deck, catalog: &CardCatalog) -> (r: Result<(), String>)
    ensures
        r is Ok <==> all_cards_known(*catalog, deck@),
        r matches Err(msg) ==> exists|i: int|
            is_first_unknown(*catalog, deck@, i) && msg@ == unknown_card_message(deck@[i].0),
{
    let ghost s = deck@;
    let mut i: usize = 0;
    while i < deck.cards.len()
        invariant
            s == deck@,
            i <= s.len(),
            all_cards_known(*catalog, s.take(i as int)),
        decreases s.len() - i,
    {
        let c = &deck.cards[i];
        if catalog.get(c.id.as_str()).is_none() {
            let msg = String::from_str("デッキに未知のcard_idがあります: ").concat(c.id.as_str());
            proof {
                reveal_strlit("デッキに未知のcard_idがあります: ");
                assert(is_first_unknown(*catalog, s, i as int));
            }
            return Err(msg);
        }
        proof {
            assert forall|j: int| 0 <= j < i + 1 implies (#[trigger] catalog.spec_get(
                s.take(i + 1)[j].0,
            )) is Some by {
                if j < i {
                    assert(s.take(i + 1)[j] == s.take(i as int)[j]);
                }
            }
        }
        i += 1;
    }
    assert(s.take(s.len() as int) == s);
    Ok(())
}

/// Draws `n` cards from the top (the end) of the draw pile. Whenever the draw
/// pile runs out, the discard pile is shuffled and becomes the draw pile;
/// drawing stops early when both are empty.
fn draw_hand_random(
    draw_pile: &mut Vec<CardInstance>,
    discard_pile: &mut Vec<CardInstance>,
    n: usize,
    rng: &mut StdRng,
) -> (hand: Vec<CardInstance>)
    ensures
        hand@.len() == (if n <= old(draw_pile)@.len() + old(discard_pile)@.len() {
            n as nat
        } else {
            old(draw_pile)@.len() + old(discard_pile)@.len()
        }),
        hand@.to_multiset().add(final(draw_pile)@.to_multiset()).add(
            final(discard_pile)@.to_multiset(),
        ) == old(draw_pile)@.to_multiset().add(old(discard_pile)@.to_multiset()),
        n <= old(draw_pile)@.len() ==> {
            &&& hand@ == old(draw_pile)@.skip(old(draw_pile)@.len() - n).reverse()
            &&& final(draw_pile)@ == old(draw_pile)@.take(old(draw_pile)@.len() - n)
            &&& final(discard_pile)@ == old(discard_pile)@
        },
        n > old(draw_pile)@.len() ==> {
            &&& hand@.take(old(draw_pile)@.len() as int) == old(draw_pile)@.reverse()
            &&& final(discard_pile)@.len() == 0
        },
{
    let ghost d0 = draw_pile@;
    let ghost x0 = discard_pile@;
    let ghost total = d0.to_multiset().add(x0.to_multiset());
    let ghost mut reshuffled = false;
    let mut hand: Vec<CardInstance> = Vec::new();
    let mut i: usize = 0;
    while i < n
        invariant
            i <= n,
            hand@.len() == i,
            hand@.to_multiset().add(draw_pile@.to_multiset()).add(discard_pile@.to_multiset())
                == total,
            total == d0.to_multiset().add(x0.to_multiset()),
            d0 == old(draw_pile)@,
            x0 == old(discard_pile)@,
            !reshuffled ==> {
                &&& i <= d0.len()
                &&& draw_pile@ == d0.take(d0.len() - i)
                &&& discard_pile@ == x0
                &&& hand@ == d0.skip(d0.len() - i).reverse()
            },
            reshuffled ==> {
                &&& i >= d0.len()
                &&& n > d0.len()
                &&& discard_pile@.len() == 0
                &&& hand@.take(d0.len() as int) == d0.reverse()
            },
        decreases n - i,
    {
        if draw_pile.len() == 0 {
            if discard_pile.len() == 0 {
                proof {
                    assert(total.len() == hand@.len());
                    assert(total.len() == d0.len() + x0.len());
                    if !reshuffled {
                        assert(d0.skip(0) == d0);
                    }
                }
                return hand;
            }
            proof {
                if !reshuffled {
                    assert(d0.skip(0) == d0);
                }
            }
            shuffle_pile(discard_pile, rng);
            draw_pile.append(discard_pile);
            proof {
                reshuffled = true;
            }
        }
        let ghost h = hand@;
        let ghost dp = draw_pile@;
        let c = draw_pile.pop().unwrap();
        hand.push(c);
        proof {
            assert(dp == draw_pile@.push(c));
            if !reshuffled {
                assert(hand@ =~= d0.skip(d0.len() - (i + 1)).reverse());
                assert(draw_pile@ =~= d0.take(d0.len() - (i + 1)));
            } else {
                assert(hand@.take(d0.len() as int) =~= h.take(d0.len() as int));
            }
        }
        i += 1;
    }
    proof {
        assert(total.len() == d0.len() + x0.len());
        if !reshuffled {
            assert(hand@.len() == n);
        }
    }
    hand
}

/// Draws a hand of five cards (see `draw_hand_random_n`).
pub fn draw_hand_random_5(
    draw_pile: &mut Vec<CardInstance>,
    discard_pile: &mut Vec<CardInstance>,
    rng: &mut StdRng,
) -> (hand: Vec<CardInstance>)
    ensures
        hand@.len() == (if 5 <= old(draw_pile)@.len() + old(discard_pile)@.len() {
            5
        } else {
            old(draw_pile)@.len() + old(discard_pile)@.len()
        }),
        hand@.to_multiset().add(final(draw_pile)@.to_multiset()).add(
            final(discard_pile)@.to_multiset(),
        ) == old(draw_pile)@.to_multiset().add(old(discard_pile)@.to_multiset()),
        5 <= old(draw_pile)@.len() ==> {
            &&& hand@ == old(draw_pile)@.skip(old(draw_pile)@.len() - 5).reverse()
            &&& final(draw_pile)@ == old(draw_pile)@.take(old(draw_pile)@.len() - 5)
            &&& final(discard_pile)@ == old(discard_pile)@
        },
        5 > old(draw_pile)@.len() ==> {
            &&& hand@.take(old(draw_pile)@.len() as int) == old(draw_pile)@.reverse()
            &&& final(discard_pile)@.len() == 0
        },
{
    draw_hand_random(draw_pile, discard_pile, 5, rng)
}

/// Draws `n` cards from the top (the end) of the draw pile, shuffling the
/// discard pile into the draw pile whenever the draw pile runs out. The hand
/// lists the cards in the order drawn; no card is lost or made up.
pub fn draw_hand_random_n(
    draw_pile: &mut Vec<CardInstance>,
    discard_pile: &mut Vec<CardInstance>,
    n: usize,
    rng: &mut StdRng,
) -> (hand: Vec<CardInstance>)
    ensures
        hand@.len() == (if n <= old(draw_pile)@.len() + old(discard_pile)@.len() {
            n as nat
        } else {
            old(draw_pile)@.len() + old(discard_pile)@.len()
        }),
        hand@.to_multiset().add(final(draw_pile)@.to_multiset()).add(
            final(discard_pile)@.to_multiset(),
        ) == old(draw_pile)@.to_multiset().add(old(discard_pile)@.to_multiset()),
        n <= old(draw_pile)@.len() ==> {
            &&& hand@ == old(draw_pile)@.skip(old(draw_pile)@.len() - n).reverse()
            &&& final(draw_pile)@ == old(draw_pile)@.take(old(draw_pile)@.len() - n)
            &&& final(discard_pile)@ == old(discard_pile)@
        },
        n > old(draw_pile)@.len() ==> {
            &&& hand@.take(old(draw_pile)@.len() as int) == old(draw_pile)@.reverse()
            &&& final(discard_pile)@.len() == 0
        },
{
    draw_hand_random(draw_pile, discard_pile, n, rng)
}


/// The cards of `pile` whose positions are not in `taken`, in order.
pub open spec fn without_positions(pile: Seq<CardInstance>, taken: Seq<int>) -> Seq<CardInstance>
    decreases pile.len(),
{
    if pile.len() == 0 {
        Seq::empty()
    } else {
        without_positions(pile.drop_last(), taken) + if taken.contains(pile.len() - 1) {
            Seq::empty()
        } else {
            seq![pile.last()]
        }
    }
}

/// One equally likely way a draw can go: the hand drawn, the piles after it,
/// and the number of such ways.
#[derive(Debug)]
pub struct DrawOutcome {
    pub hand: Vec<CardInstance>,
    pub new_draw_pile: Vec<CardInstance>,
    pub new_discard_pile: Vec<CardInstance>,
    pub one_in: u128,
}

/// `o` is the outcome of drawing `n` cards where the combination `c` is
/// picked: from the draw pile when it holds enough cards; otherwise the
/// whole draw pile and then `c` from the reshuffled discard pile.
pub open spec fn is_draw_outcome(
    draw: Seq<CardInstance>,
    discard: Seq<CardInstance>,
    n: int,
    c: Seq<int>,
    o: DrawOutcome,
) -> bool {
    if draw.len() >= n {
        &&& o.hand@ == c.map_values(|m: int| draw[m])
        &&& o.new_draw_pile@ == without_positions(draw, c)
        &&& o.new_discard_pile@ == discard
        &&& o.one_in == binomial(draw.len(), n as nat)
    } else {
        &&& o.hand@ == draw + c.map_values(|m: int| discard[m])
        &&& o.new_draw_pile@ == without_positions(discard, c)
        &&& o.new_discard_pile@.len() == 0
        &&& o.one_in == binomial(discard.len(), (n - draw.len()) as nat)
    }
}

/// The pile the combinations are picked from, and how many are picked.
pub open spec fn draw_source(draw: Seq<CardInstance>, discard: Seq<CardInstance>, n: int) -> (int, int) {
    if draw.len() >= n {
        (draw.len() as int, n)
    } else {
        (discard.len() as int, n - draw.len())
    }
}

/// `pile` without the positions that `taken` marks.
fn keep_unmarked(pile: &[CardInstance], taken: &Vec<bool>, Ghost(c): Ghost<Seq<int>>) -> (r: Vec<
    CardInstance,
>)
    requires
        taken@.len() == pile@.len(),
        forall|m: int| 0 <= m < pile@.len() ==> (taken@[m] <==> c.contains(m)),
    ensures
        r@ == without_positions(pile@, c),
{
    let mut r: Vec<CardInstance> = Vec::new();
    let mut i: usize = 0;
    while i < pile.len()
        invariant
            i <= pile@.len(),
            taken@.len() == pile@.len(),
            forall|m: int| 0 <= m < pile@.len() ==> (taken@[m] <==> c.contains(m)),
            r@ == without_positions(pile@.take(i as int), c),
        decreases pile@.len() - i,
    {
        let ghost t = pile@.take(i + 1);
        proof {
            assert(t.drop_last() == pile@.take(i as int));
            assert(t.last() == pile@[i as int]);
        }
        if !taken[i] {
            r.push(pile[i].clone());
        }
        assert(r@ =~= without_positions(t, c));
        i += 1;
    }
    assert(pile@.take(pile@.len() as int) == pile@);
    r
}

/// Picks the cards at `idxs` out of `pile`: the picked cards in order, and
/// the marks of the picked positions.
fn pick(pile: &[CardInstance], idxs: &Vec<usize>, Ghost(c): Ghost<Seq<int>>, Ghost(k): Ghost<int>) -> (r: (
    Vec<CardInstance>,
    Vec<bool>,
))
    requires
        c == super::combinatorics::index_seq(idxs@),
        is_combination(pile@.len() as int, k, c),
    ensures
        r.0@ == c.map_values(|m: int| pile@[m]),
        r.1@.len() == pile@.len(),
        forall|m: int| 0 <= m < pile@.len() ==> (r.1@[m] <==> c.contains(m)),
{
    let mut keep_out: Vec<bool> = Vec::new();
    let mut j: usize = 0;
    while j < pile.len()
        invariant
            j <= pile@.len(),
            keep_out@.len() == j,
            forall|m: int| 0 <= m < j ==> !keep_out@[m],
        decreases pile@.len() - j,
    {
        keep_out.push(false);
        j += 1;
    }
    let mut hand: Vec<CardInstance> = Vec::new();
    let mut q: usize = 0;
    while q < idxs.len()
        invariant
            c == super::combinatorics::index_seq(idxs@),
            is_combination(pile@.len() as int, k, c),
            q <= idxs@.len(),
            keep_out@.len() == pile@.len(),
            hand@ == c.take(q as int).map_values(|m: int| pile@[m]),
            forall|m: int| 0 <= m < pile@.len() ==> (keep_out@[m] <==> c.take(q as int).contains(m)),
        decreases idxs@.len() - q,
    {
        let i = idxs[q];
        proof {
            assert(c[q as int] == i);
        }
        hand.push(pile[i].clone());
        keep_out.set(i, true);
        proof {
            let t = c.take(q + 1);
            assert(t =~= c.take(q as int).push(i as int));
            assert(hand@ =~= t.map_values(|m: int| pile@[m]));
            assert forall|m: int| 0 <= m < pile@.len() implies (keep_out@[m] <==> t.contains(m)) by {
                if m == i {
                    assert(t[q as int] == m);
                } else {
                    if t.contains(m) {
                        let z = choose|z: int| 0 <= z < t.len() && t[z] == m;
                        assert(c.take(q as int)[z] == m);
                    }
                    if c.take(q as int).contains(m) {
                        let z = choose|z: int| 0 <= z < q && c.take(q as int)[z] == m;
                        assert(t[z] == m);
                    }
                }
            }
        }
        q += 1;
    }
    assert(c.take(c.len() as int) == c);
    (hand, keep_out)
}

/// Every equally likely way of drawing `n` cards: when the draw pile holds
/// at least `n`, each choice of `n` of its cards; otherwise the whole draw
/// pile followed by each choice of the missing cards from the discard pile,
/// which becomes the draw pile. Each way comes with the number of ways.
pub fn enumerate_draw(draw_pile: &[CardInstance], discard_pile: &[CardInstance], n: usize) -> (out:
    Vec<DrawOutcome>)
    requires
        ({
            let (m, k) = draw_source(draw_pile@, discard_pile@, n as int);
            k <= m ==> falling(m, min_nat(k as nat, (m - k) as nat)) <= u128::MAX
        }),
    ensures
        ({
            let (m, k) = draw_source(draw_pile@, discard_pile@, n as int);
            &&& out@.len() == binomial(m as nat, k as nat)
            &&& exists|l: Seq<Seq<int>>|
                {
                    &&& lists_combinations(m, k, l)
                    &&& l.len() == out@.len()
                    &&& forall|q: int|
                        0 <= q < l.len() ==> is_draw_outcome(
                            draw_pile@,
                            discard_pile@,
                            n as int,
                            #[trigger] l[q],
                            out@[q],
                        )
                }
        }),
{
    let available = draw_pile.len();
    let from_draw = available >= n;
    let (source, take): (&[CardInstance], usize) = if from_draw {
        (draw_pile, n)
    } else {
        (discard_pile, n - available)
    };
    let ghost l_src = source@;
    let one_in = n_choose_k(source.len(), take);
    let combos = combinations_indices(source.len(), take);
    let ghost l = index_lists(combos@);
    let mut out: Vec<DrawOutcome> = Vec::new();
    let mut q: usize = 0;
    while q < combos.len()
        invariant
            l == index_lists(combos@),
            lists_combinations(source@.len() as int, take as int, l),
            q <= combos@.len(),
            out@.len() == q,
            from_draw == (draw_pile@.len() >= n),
            from_draw ==> source@ == draw_pile@ && take == n,
            !from_draw ==> source@ == discard_pile@ && take == n - draw_pile@.len(),
            one_in == binomial(source@.len() as nat, take as nat),
            forall|z: int|
                0 <= z < q ==> is_draw_outcome(draw_pile@, discard_pile@, n as int, #[trigger] l[z], out@[z]),
        decreases combos@.len() - q,
    {
        let ghost c = l[q as int];
        proof {
            assert(is_combination(source@.len() as int, take as int, c));
        }
        let (picked, marks) = pick(source, &combos[q], Ghost(c), Ghost(take as int));
        let rest = keep_unmarked(source, &marks, Ghost(c));
        let outcome = if from_draw {
            DrawOutcome {
                hand: picked,
                new_draw_pile: rest,
                new_discard_pile: super::evaluate::clone_slice(discard_pile),
                one_in,
            }
        } else {
            let mut hand = super::evaluate::clone_slice(draw_pile);
            let mut picked = picked;
            hand.append(&mut picked);
            DrawOutcome { hand, new_draw_pile: rest, new_discard_pile: Vec::new(), one_in }
        };
        out.push(outcome);
        proof {
            assert(out@[q as int] == outcome);
        }
        q += 1;
    }
    out
}

/// Every equally likely way of drawing a hand of five (see `enumerate_draw`).
pub fn enumerate_draw_5(draw_pile: &[CardInstance], discard_pile: &[CardInstance]) -> (out: Vec<
    DrawOutcome,
>)
    requires
        ({
            let (m, k) = draw_source(draw_pile@, discard_pile@, 5);
            k <= m ==> falling(m, min_nat(k as nat, (m - k) as nat)) <= u128::MAX
        }),
    ensures
        ({
            let (m, k) = draw_source(draw_pile@, discard_pile@, 5);
            &&& out@.len() == binomial(m as nat, k as nat)
            &&& exists|l: Seq<Seq<int>>|
                {
                    &&& lists_combinations(m, k, l)
                    &&& l.len() == out@.len()
                    &&& forall|q: int|
                        0 <= q < l.len() ==> is_draw_outcome(
                            draw_pile@,
                            discard_pile@,
                            5,
                            #[trigger] l[q],
                            out@[q],
                        )
                }
        }),
{
    enumerate_draw(draw_pile, discard_pile, 5)
}


/// The draw pile of a deck with one more card added holds exactly one more
/// card than the deck's draw pile: a plain copy of the added card.
pub proof fn lemma_added_card_joins_draw_pile(
    deck: Seq<DeckEntry>,
    id: Seq<char>,
    pile: Seq<CardInstance>,
    pile_added: Seq<CardInstance>,
)
    requires
        can_add_one(deck, id),
        instance_cards(pile) == expand_lines(deck),
        instance_cards(pile_added) == expand_lines(spec_add_one(deck, id)),
    ensures
        instance_cards(pile_added).to_multiset() == instance_cards(pile).to_multiset().insert(
            (id, false),
        ),
        pile_added.len() == pile.len() + 1,
{
    lemma_add_one_adds_a_plain_copy(deck, id);
    assert(instance_cards(pile).len() == pile.len());
    assert(instance_cards(pile_added).len() == pile_added.len());
}

} // verus!
