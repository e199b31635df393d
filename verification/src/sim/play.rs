use vstd::prelude::*;

use crate::model::{CardCatalog, CardKind};

use super::combat_state::CombatState;
use super::combinatorics::{lemma_distinct_in_range_len, lex_lt, strictly_sorted};
use super::draw::CardInstance;
use super::evaluate::{can_play, clone_pile, spec_can_play};
use super::expectation::{cost_of, kind_of, pile_known};

verus! {

/// One way to play part of a hand: the cards in the order played, and the
/// energy they cost together.
#[derive(Debug)]
pub struct PlaySequence {
    pub played_in_order: Vec<CardInstance>,
    pub energy_spent: u8,
}

fn card_cost(catalog: &CardCatalog, inst: &CardInstance) -> (c: u8)
    requires
        catalog.spec_get(inst.card_id@) is Some,
    ensures
        c == cost_of(*catalog, *inst),
{
    catalog.get(inst.card_id.as_str()).unwrap().cost_for(inst.upgraded)
}

fn card_kind(catalog: &CardCatalog, inst: &CardInstance) -> (k: CardKind)
    requires
        catalog.spec_get(inst.card_id@) is Some,
    ensures
        k == kind_of(*catalog, *inst),
{
    catalog.get(inst.card_id.as_str()).unwrap().kind
}

/// The energy that the hand cards at `order` cost together.
pub open spec fn order_cost(catalog: CardCatalog, hand: Seq<CardInstance>, order: Seq<int>) -> int
    decreases order.len(),
{
    if order.len() == 0 {
        0
    } else {
        order_cost(catalog, hand, order.drop_last()) + cost_of(catalog, hand[order.last()])
    }
}

/// `order` lists distinct hand cards, each playable, that together cost at
/// most `energy`.
pub open spec fn is_legal_order(
    catalog: CardCatalog,
    hand: Seq<CardInstance>,
    energy: int,
    order: Seq<int>,
) -> bool {
    &&& order.no_duplicates()
    &&& forall|m: int|
        0 <= m < order.len() ==> 0 <= #[trigger] order[m] < hand.len() && spec_can_play(
            kind_of(catalog, hand[order[m]]),
        )
    &&& order_cost(catalog, hand, order) <= energy
}

/// `l` lists every legal play order of the hand once, in lexicographic order.
pub open spec fn lists_play_orders(
    catalog: CardCatalog,
    hand: Seq<CardInstance>,
    energy: int,
    l: Seq<Seq<int>>,
) -> bool {
    &&& strictly_sorted(l)
    &&& forall|k: int| 0 <= k < l.len() ==> is_legal_order(catalog, hand, energy, #[trigger] l[k])
    &&& forall|s: Seq<int>| is_legal_order(catalog, hand, energy, s) ==> #[trigger] l.contains(s)
}

/// `ps` plays the hand cards at `order`.
pub open spec fn describes(
    catalog: CardCatalog,
    hand: Seq<CardInstance>,
    order: Seq<int>,
    ps: PlaySequence,
) -> bool {
    &&& ps.played_in_order@ == order.map_values(|m: int| hand[m])
    &&& ps.energy_spent == order_cost(catalog, hand, order)
}

/// `s` extends `cur` by at least one card.
pub open spec fn extends(cur: Seq<int>, s: Seq<int>) -> bool {
    s.len() > cur.len() && s.take(cur.len() as int) == cur
}

/// `chunk` lists, once each and in lexicographic order, the legal orders
/// that extend `cur` and whose next card is below `bound`.
pub open spec fn lists_extensions(
    catalog: CardCatalog,
    hand: Seq<CardInstance>,
    energy: int,
    cur: Seq<int>,
    bound: int,
    chunk: Seq<Seq<int>>,
) -> bool {
    &&& strictly_sorted(chunk)
    &&& forall|k: int|
        0 <= k < chunk.len() ==> {
            &&& is_legal_order(catalog, hand, energy, #[trigger] chunk[k])
            &&& extends(cur, chunk[k])
            &&& chunk[k][cur.len() as int] < bound
        }
    &&& forall|s: Seq<int>|
        is_legal_order(catalog, hand, energy, s) && extends(cur, s) && s[cur.len() as int] < bound
            ==> #[trigger] chunk.contains(s)
}

proof fn lemma_order_cost_prefix(catalog: CardCatalog, hand: Seq<CardInstance>, s: Seq<int>, k: int)
    requires
        0 <= k <= s.len(),
    ensures
        order_cost(catalog, hand, s.take(k)) <= order_cost(catalog, hand, s),
    decreases s.len(),
{
    if k < s.len() {
        lemma_order_cost_prefix(catalog, hand, s.drop_last(), k);
        assert(s.drop_last().take(k) == s.take(k));
    } else {
        assert(s.take(k) == s);
    }
}

/// Appends every legal extension of the played prefix `cur`, depth first.
fn extend_sequences(
    catalog: &CardCatalog,
    hand: &[CardInstance],
    used: &mut Vec<bool>,
    energy_left: u8,
    cur: &mut Vec<CardInstance>,
    out: &mut Vec<PlaySequence>,
    energy_spent: u8,
    Ghost(energy): Ghost<int>,
    Ghost(cur_idx): Ghost<Seq<int>>,
) -> (chunk: Ghost<Seq<Seq<int>>>)
    requires
        pile_known(*catalog, hand@),
        old(used)@.len() == hand@.len(),
        is_legal_order(*catalog, hand@, energy, cur_idx),
        forall|m: int| 0 <= m < hand@.len() ==> (old(used)@[m] <==> cur_idx.contains(m)),
        old(cur)@ == cur_idx.map_values(|m: int| hand@[m]),
        energy_spent == order_cost(*catalog, hand@, cur_idx),
        energy_spent + energy_left == energy,
        energy <= u8::MAX,
    ensures
        final(used)@ == old(used)@,
        final(cur)@ == old(cur)@,
        lists_extensions(*catalog, hand@, energy, cur_idx, hand@.len() as int, chunk@),
        final(out)@.len() == old(out)@.len() + chunk@.len(),
        forall|k: int| 0 <= k < old(out)@.len() ==> final(out)@[k] == old(out)@[k],
        forall|k: int|
            0 <= k < chunk@.len() ==> describes(
                *catalog,
                hand@,
                #[trigger] chunk@[k],
                final(out)@[old(out)@.len() + k],
            ),
    decreases hand@.len() - cur_idx.len(),
{
    let ghost h = hand@;
    let ghost f = |m: int| h[m];
    let ghost out0 = out@;
    let ghost mut acc: Seq<Seq<int>> = Seq::empty();
    proof {
        lemma_distinct_in_range_len(cur_idx, h.len() as int);
    }
    let mut i: usize = 0;
    while i < hand.len()
        invariant
            h == hand@,
            pile_known(*catalog, h),
            used@.len() == h.len(),
            used@ == old(used)@,
            is_legal_order(*catalog, h, energy, cur_idx),
            forall|m: int| 0 <= m < h.len() ==> (used@[m] <==> cur_idx.contains(m)),
            cur@ == cur_idx.map_values(f),
            energy_spent == order_cost(*catalog, h, cur_idx),
            energy_spent + energy_left == energy,
            energy <= u8::MAX,
            cur_idx.len() <= h.len(),
            i <= h.len(),
            lists_extensions(*catalog, h, energy, cur_idx, i as int, acc),
            out@.len() == out0.len() + acc.len(),
            forall|k: int| 0 <= k < out0.len() ==> out@[k] == out0[k],
            forall|k: int|
                0 <= k < acc.len() ==> describes(*catalog, h, #[trigger] acc[k], out@[out0.len() + k]),
            f == (|m: int| h[m]),
        decreases h.len() - i,
    {
        proof {
            assert(catalog.spec_get(h[i as int].card_id@) is Some);
        }
        let ghost next = cur_idx.push(i as int);
        if used[i] || !can_play(card_kind(catalog, &hand[i])) || card_cost(catalog, &hand[i])
            > energy_left {
            proof {
                assert forall|s: Seq<int>|
                    is_legal_order(*catalog, h, energy, s) && extends(cur_idx, s) && s[cur_idx.len() as int]
                        < i + 1 implies #[trigger] acc.contains(s) by {
                    if s[cur_idx.len() as int] == i {
                        let p = s.take(cur_idx.len() as int + 1);
                        assert(p == next);
                        if used@[i as int] {
                            assert(cur_idx.contains(i as int));
                            let q = choose|q: int| 0 <= q < cur_idx.len() && cur_idx[q] == i;
                            assert(s.take(cur_idx.len() as int)[q] == cur_idx[q]);
                            assert(s[q] == i);
                            assert(s[cur_idx.len() as int] == i);
                            assert(false);
                        } else if !spec_can_play(kind_of(*catalog, h[i as int])) {
                            assert(s[cur_idx.len() as int] == i);
                            assert(false);
                        } else {
                            lemma_order_cost_prefix(*catalog, h, s, cur_idx.len() as int + 1);
                            assert(p.drop_last() == cur_idx);
                            assert(false);
                        }
                    }
                }
            }
        } else {
            let c = card_cost(catalog, &hand[i]);
            used.set(i, true);
            cur.push(hand[i].clone());
            out.push(PlaySequence { played_in_order: clone_pile(cur), energy_spent: energy_spent + c });
            proof {
                assert(next.drop_last() == cur_idx);
                assert(cur@ =~= next.map_values(f));
                assert forall|a: int, b: int| 0 <= a < b < next.len() implies next[a] != next[b] by {
                    if b == next.len() - 1 {
                        assert(next[a] == cur_idx[a]);
                        assert(cur_idx.contains(next[a]));
                    }
                }
                assert(is_legal_order(*catalog, h, energy, next));
                lemma_distinct_in_range_len(next, h.len() as int);
                assert forall|m: int| 0 <= m < h.len() implies (used@[m] <==> next.contains(m)) by {
                    if m == i {
                        assert(next[next.len() - 1] == m);
                    } else {
                        if next.contains(m) {
                            let q = choose|q: int| 0 <= q < next.len() && next[q] == m;
                            assert(cur_idx[q] == m);
                        }
                        if cur_idx.contains(m) {
                            let q = choose|q: int| 0 <= q < cur_idx.len() && cur_idx[q] == m;
                            assert(next[q] == m);
                        }
                    }
                }
            }
            let ghost out_mid = out@;
            let sub = extend_sequences(
                catalog,
                hand,
                used,
                energy_left - c,
                cur,
                out,
                energy_spent + c,
                Ghost(energy),
                Ghost(next),
            );
            cur.pop();
            used.set(i, false);
            proof {
                assert(used@ =~= old(used)@);
                let b = sub@;
                let old_acc = acc;
                acc = old_acc.push(next) + b;
                assert(cur@ =~= cur_idx.map_values(f));
                assert forall|m: int| 0 <= m < h.len() implies (used@[m] <==> cur_idx.contains(m)) by {
                    if m == i {
                        assert(!cur_idx.contains(m));
                    }
                }
                // ordering of the new chunk
                assert forall|x: int, y: int| 0 <= x < y < acc.len() implies lex_lt(
                    #[trigger] acc[x],
                    #[trigger] acc[y],
                ) by {
                    let n = cur_idx.len() as int;
                    if y < old_acc.len() {
                        assert(acc[x] == old_acc[x] && acc[y] == old_acc[y]);
                    } else if x >= old_acc.len() + 1 {
                        assert(acc[x] == b[x - old_acc.len() - 1] && acc[y] == b[y - old_acc.len() - 1]);
                    } else if x == old_acc.len() {
                        let by = b[y - old_acc.len() - 1];
                        assert(acc[y] == by);
                        assert(extends(next, by));
                        assert(acc[x] == next);
                    } else {
                        let ax = old_acc[x];
                        assert(acc[x] == ax);
                        let ay = acc[y];
                        assert(ax.take(n) == cur_idx);
                        if y == old_acc.len() {
                            assert(ay == next);
                            assert(next.take(n) == cur_idx);
                        } else {
                            let by = b[y - old_acc.len() - 1];
                            assert(ay == by);
                            assert(by.take(n + 1) == next);
                            assert(by.take(n) == by.take(n + 1).take(n));
                            assert(by[n] == next[n]);
                        }
                        assert(ax.take(n) == ay.take(n));
                        assert(ax[n] < ay[n]);
                    }
                }
                assert forall|k: int| 0 <= k < acc.len() implies {
                    &&& is_legal_order(*catalog, h, energy, #[trigger] acc[k])
                    &&& extends(cur_idx, acc[k])
                    &&& acc[k][cur_idx.len() as int] < i + 1
                } by {
                    let n = cur_idx.len() as int;
                    if k < old_acc.len() {
                        assert(acc[k] == old_acc[k]);
                    } else if k == old_acc.len() {
                        assert(acc[k] == next);
                        assert(next.take(n) == cur_idx);
                    } else {
                        let bk = b[k - old_acc.len() - 1];
                        assert(acc[k] == bk);
                        assert(bk.take(n + 1) == next);
                        assert(bk.take(n) == bk.take(n + 1).take(n));
                        assert(bk[n] == next[n]);
                    }
                }
                assert forall|s: Seq<int>|
                    is_legal_order(*catalog, h, energy, s) && extends(cur_idx, s) && s[cur_idx.len() as int]
                        < i + 1 implies #[trigger] acc.contains(s) by {
                    let n = cur_idx.len() as int;
                    if s[n] < i {
                        assert(old_acc.contains(s));
                        let q = choose|q: int| 0 <= q < old_acc.len() && old_acc[q] == s;
                        assert(acc[q] == s);
                    } else {
                        assert(s.take(n + 1) =~= next);
                        if s.len() == n + 1 {
                            assert(s =~= next);
                            assert(acc[old_acc.len() as int] == s);
                        } else {
                            assert(extends(next, s));
                            assert(b.contains(s));
                            let q = choose|q: int| 0 <= q < b.len() && b[q] == s;
                            assert(acc[old_acc.len() + 1 + q] == s);
                        }
                    }
                }
                assert forall|k: int| 0 <= k < acc.len() implies describes(
                    *catalog,
                    h,
                    #[trigger] acc[k],
                    out@[out0.len() + k],
                ) by {
                    if k < old_acc.len() {
                        assert(acc[k] == old_acc[k]);
                        assert(out@[out0.len() + k] == out_mid[out0.len() + k]);
                    } else if k == old_acc.len() {
                        assert(acc[k] == next);
                        assert(out@[out0.len() + k] == out_mid[out0.len() + k]);
                    } else {
                        assert(acc[k] == b[k - old_acc.len() - 1]);
                    }
                }
            }
        }
        i += 1;
    }
    Ghost(acc)
}

/// Every way to play the hand within `energy`: each ordered choice of
/// distinct playable cards whose costs add up to at most `energy`, listed
/// once in lexicographic order of hand positions, starting with playing
/// nothing.
pub fn enumerate_play_sequences(catalog: &CardCatalog, hand: &[CardInstance], energy: u8) -> (out: Vec<
    PlaySequence,
>)
    requires
        pile_known(*catalog, hand@),
    ensures
        exists|l: Seq<Seq<int>>|
            {
                &&& lists_play_orders(*catalog, hand@, energy as int, l)
                &&& l.len() == out@.len()
                &&& forall|k: int|
                    0 <= k < l.len() ==> describes(*catalog, hand@, #[trigger] l[k], out@[k])
            },
{
    let ghost h = hand@;
    let mut out: Vec<PlaySequence> = Vec::new();
    out.push(PlaySequence { played_in_order: Vec::new(), energy_spent: 0 });
    let mut used: Vec<bool> = Vec::new();
    let mut i: usize = 0;
    while i < hand.len()
        invariant
            i <= h.len(),
            h == hand@,
            used@.len() == i,
            forall|m: int| 0 <= m < i ==> !used@[m],
        decreases h.len() - i,
    {
        used.push(false);
        i += 1;
    }
    let mut cur: Vec<CardInstance> = Vec::new();
    let ghost empty = Seq::<int>::empty();
    proof {
        assert(cur@ =~= empty.map_values(|m: int| h[m]));
        assert(is_legal_order(*catalog, h, energy as int, empty));
    }
    let chunk = extend_sequences(
        catalog,
        hand,
        &mut used,
        energy,
        &mut cur,
        &mut out,
        0,
        Ghost(energy as int),
        Ghost(empty),
    );
    proof {
        let l = seq![empty] + chunk@;
        assert(describes(*catalog, h, empty, out@[0])) by {
            assert(out@[0].played_in_order@ =~= empty.map_values(|m: int| h[m]));
        }
        assert forall|x: int, y: int| 0 <= x < y < l.len() implies lex_lt(
            #[trigger] l[x],
            #[trigger] l[y],
        ) by {
            if x == 0 {
                assert(l[y] == chunk@[y - 1]);
                assert(l[y].take(0) =~= empty);
            } else {
                assert(l[x] == chunk@[x - 1] && l[y] == chunk@[y - 1]);
            }
        }
        assert forall|k: int| 0 <= k < l.len() implies is_legal_order(
            *catalog,
            h,
            energy as int,
            #[trigger] l[k],
        ) by {
            if k > 0 {
                assert(l[k] == chunk@[k - 1]);
            }
        }
        assert forall|s: Seq<int>| is_legal_order(*catalog, h, energy as int, s) implies #[trigger] l.contains(
            s,
        ) by {
            if s.len() == 0 {
                assert(s =~= empty);
                assert(l[0] == s);
            } else {
                assert(s.take(0) =~= empty);
                assert(extends(empty, s));
                assert(s[0] < h.len());
                assert(chunk@.contains(s));
                let q = choose|q: int| 0 <= q < chunk@.len() && chunk@[q] == s;
                assert(l[q + 1] == s);
            }
        }
        assert forall|k: int| 0 <= k < l.len() implies describes(*catalog, h, #[trigger] l[k], out@[k]) by {
            if k > 0 {
                assert(l[k] == chunk@[k - 1]);
            }
        }
        assert(lists_play_orders(*catalog, h, energy as int, l));
    }
    out
}

/// At the end of a turn the hand goes onto the discard pile.
pub fn end_turn_discard_all_hand(state: &mut CombatState, hand: &[CardInstance])
    ensures
        final(state).discard_pile@ == old(state).discard_pile@ + hand@,
        final(state).draw_pile@ == old(state).draw_pile@,
        final(state).exhaust_pile@ == old(state).exhaust_pile@,
        final(state).enemy_status == old(state).enemy_status,
        final(state).player_strength == old(state).player_strength,
{
    let ghost start = state.discard_pile@;
    let mut i: usize = 0;
    while i < hand.len()
        invariant
            i <= hand@.len(),
            state.discard_pile@ == start + hand@.take(i as int),
            state.draw_pile@ == old(state).draw_pile@,
            state.exhaust_pile@ == old(state).exhaust_pile@,
            state.enemy_status == old(state).enemy_status,
            state.player_strength == old(state).player_strength,
            start == old(state).discard_pile@,
        decreases hand@.len() - i,
    {
        state.discard_pile.push(hand[i].clone());
        assert(state.discard_pile@ =~= start + hand@.take(i + 1));
        i += 1;
    }
    assert(hand@.take(hand@.len() as int) == hand@);
}

} // verus!
