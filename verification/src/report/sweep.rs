use vstd::prelude::*;

use crate::model::{CardDef, CardEffect};
use crate::text::push_char;

verus! {

/// How far the simulator models a card's effects.
#[derive(Debug, Clone, Copy, PartialEq, Eq, Structural)]
pub enum SupportedLevel {
    Supported,
    Partial,
    Unsupported,
}

pub open spec fn is_unsupported(e: CardEffect) -> bool {
    e is Unsupported
}

/// The card, plain or upgraded, has an effect that the simulator does not model.
pub open spec fn spec_has_unsupported_effect(def: CardDef) -> bool {
    ||| exists|i: int| 0 <= i < def.effects@.len() && is_unsupported(#[trigger] def.effects@[i])
    ||| (def.upgraded_effects matches Some(u) && exists|i: int|
        0 <= i < u@.len() && is_unsupported(#[trigger] u@[i]))
}

fn any_unsupported(effects: &Vec<CardEffect>) -> (b: bool)
    ensures
        b == exists|i: int| 0 <= i < effects@.len() && is_unsupported(#[trigger] effects@[i]),
{
    let mut i: usize = 0;
    while i < effects.len()
        invariant
            i <= effects@.len(),
            forall|j: int| 0 <= j < i ==> !is_unsupported(#[trigger] effects@[j]),
        decreases effects@.len() - i,
    {
        if let CardEffect::Unsupported { .. } = &effects[i] {
            return true;
        }
        i += 1;
    }
    false
}

fn has_unsupported_effect(def: &CardDef) -> (b: bool)
    ensures
        b == spec_has_unsupported_effect(*def),
{
    if any_unsupported(&def.effects) {
        return true;
    }
    match &def.upgraded_effects {
        Some(u) => any_unsupported(u),
        None => false,
    }
}

/// Every effect but `Unsupported` is modelled by the simulator.
fn is_effect_supported_now(e: &CardEffect) -> (b: bool)
    ensures
        b == !is_unsupported(*e),
{
    match e {
        CardEffect::Unsupported { .. } => false,
        _ => true,
    }
}

fn all_supported(effects: &Vec<CardEffect>) -> (b: bool)
    ensures
        b == forall|i: int| 0 <= i < effects@.len() ==> !is_unsupported(#[trigger] effects@[i]),
{
    let mut i: usize = 0;
    while i < effects.len()
        invariant
            i <= effects@.len(),
            forall|j: int| 0 <= j < i ==> !is_unsupported(#[trigger] effects@[j]),
        decreases effects@.len() - i,
    {
        if !is_effect_supported_now(&effects[i]) {
            return false;
        }
        i += 1;
    }
    true
}

/// A card is unsupported when it, plain or upgraded, has an unsupported
/// effect, and supported otherwise. (Since every other effect is modelled,
/// `Partial` is never the answer.)
pub fn supported_level(def: &CardDef) -> (l: SupportedLevel)
    ensures
        l == (if spec_has_unsupported_effect(*def) {
            SupportedLevel::Unsupported
        } else {
            SupportedLevel::Supported
        }),
{
    if has_unsupported_effect(def) {
        return SupportedLevel::Unsupported;
    }
    let base_ok = all_supported(&def.effects);
    let upg_ok = match &def.upgraded_effects {
        Some(u) => all_supported(u),
        None => true,
    };
    if base_ok && upg_ok {
        SupportedLevel::Supported
    } else {
        SupportedLevel::Partial
    }
}

/// A field must be quoted in CSV when it holds a comma, a quote or a line break.
pub open spec fn needs_quoting(s: Seq<char>) -> bool {
    s.contains(',') || s.contains('"') || s.contains('\n') || s.contains('\r')
}

/// `s` with each `"` doubled.
pub open spec fn double_quotes(s: Seq<char>) -> Seq<char>
    decreases s.len(),
{
    if s.len() == 0 {
        Seq::empty()
    } else {
        double_quotes(s.drop_last()) + if s.last() == '"' {
            seq!['"', '"']
        } else {
            seq![s.last()]
        }
    }
}

/// The CSV form of a field (RFC 4180): quoted, with inner quotes doubled,
/// where it needs quoting; as it is otherwise.
pub open spec fn csv_field(s: Seq<char>) -> Seq<char> {
    if needs_quoting(s) {
        seq!['"'] + double_quotes(s) + seq!['"']
    } else {
        s
    }
}

pub fn escape_csv_field(s: &str) -> (r: String)
    ensures
        r@ == csv_field(s@),
{
    let n = s.unicode_len();
    let mut doubled = String::new();
    let mut must_quote = false;
    let mut i: usize = 0;
    while i < n
        invariant
            n == s@.len(),
            i <= n,
            doubled@ == double_quotes(s@.take(i as int)),
            must_quote == needs_quoting(s@.take(i as int)),
        decreases n - i,
    {
        let c = s.get_char(i);
        proof {
            let t = s@.take(i + 1);
            assert(t.drop_last() == s@.take(i as int));
            assert(t.last() == c);
            assert(t == s@.take(i as int).push(c));
            assert forall|x: char| t.contains(x) <==> (s@.take(i as int).contains(x) || x == c) by {
                if t.contains(x) {
                    let q = choose|q: int| 0 <= q < t.len() && t[q] == x;
                    if q < i {
                        assert(s@.take(i as int)[q] == x);
                    }
                }
                if x == c {
                    assert(t[i as int] == x);
                }
                if s@.take(i as int).contains(x) {
                    let q = choose|q: int| 0 <= q < i && s@.take(i as int)[q] == x;
                    assert(t[q] == x);
                }
            }
        }
        if c == ',' || c == '"' || c == '\n' || c == '\r' {
            must_quote = true;
        }
        push_char(&mut doubled, c);
        if c == '"' {
            push_char(&mut doubled, '"');
        }
        proof {
            let t = s@.take(i + 1);
            assert(doubled@ =~= double_quotes(t));
        }
        i += 1;
    }
    assert(s@.take(n as int) == s@);
    if !must_quote {
        return String::from_str(s);
    }
    let mut r = String::new();
    push_char(&mut r, '"');
    r.append(doubled.as_str());
    push_char(&mut r, '"');
    assert(r@ =~= csv_field(s@));
    r
}

/// `parts` joined with `sep` between neighbours.
pub open spec fn join(parts: Seq<Seq<char>>, sep: Seq<char>) -> Seq<char>
    decreases parts.len(),
{
    if parts.len() == 0 {
        Seq::empty()
    } else if parts.len() == 1 {
        parts[0]
    } else {
        join(parts.drop_last(), sep) + sep + parts.last()
    }
}

/// The tags of where a change helped: less damage taken, more damage dealt,
/// more block.
pub open spec fn insight_tags(taken_better: bool, damage_better: bool, block_better: bool) -> Seq<
    Seq<char>,
> {
    (if taken_better {
        seq!["被ダメ改善"@]
    } else {
        Seq::empty()
    }) + (if damage_better {
        seq!["火力改善"@]
    } else {
        Seq::empty()
    }) + (if block_better {
        seq!["防御改善"@]
    } else {
        Seq::empty()
    })
}

pub open spec fn insight_text(taken_better: bool, damage_better: bool, block_better: bool) -> Seq<
    char,
> {
    let tags = insight_tags(taken_better, damage_better, block_better);
    if tags.len() == 0 {
        "変化小/悪化"@
    } else {
        join(tags, "+"@)
    }
}

/// A rough label of where a change to the deck helped, from whether damage
/// taken went down, damage dealt went up and block went up.
pub fn insight_from_changes(taken_better: bool, damage_better: bool, block_better: bool) -> (r:
    String)
    ensures
        r@ == insight_text(taken_better, damage_better, block_better),
{
    let ghost tags = insight_tags(taken_better, damage_better, block_better);
    let mut r = String::new();
    let mut n: usize = 0;
    let ghost mut done: Seq<Seq<char>> = Seq::empty();
    if taken_better {
        r.append("被ダメ改善");
        n += 1;
        proof {
            done = done.push("被ダメ改善"@);
            reveal_strlit("被ダメ改善");
            assert(r@ =~= join(done, "+"@));
        }
    }
    if damage_better {
        let ghost before = done;
        if n > 0 {
            r.append("+");
        }
        r.append("火力改善");
        n += 1;
        proof {
            done = done.push("火力改善"@);
            assert(done.drop_last() == before);
            assert(r@ =~= join(done, "+"@));
        }
    }
    if block_better {
        let ghost before = done;
        if n > 0 {
            r.append("+");
        }
        r.append("防御改善");
        n += 1;
        proof {
            done = done.push("防御改善"@);
            assert(done.drop_last() == before);
            assert(r@ =~= join(done, "+"@));
        }
    }
    proof {
        assert(done =~= tags);
    }
    if n == 0 {
        proof {
            reveal_strlit("変化小/悪化");
        }
        return String::from_str("変化小/悪化");
    }
    r
}

proof fn lemma_join_ends_with_last(parts: Seq<Seq<char>>, sep: Seq<char>)
    requires
        parts.len() > 0,
    ensures
        join(parts, sep).len() >= parts.last().len(),
        join(parts, sep).subrange(
            join(parts, sep).len() - parts.last().len(),
            join(parts, sep).len() as int,
        ) == parts.last(),
{
    if parts.len() > 1 {
        let a = join(parts.drop_last(), sep) + sep;
        assert(join(parts, sep) == a + parts.last());
        assert((a + parts.last()).subrange(a.len() as int, (a + parts.last()).len() as int)
            =~= parts.last());
    } else {
        assert(parts[0] == parts.last());
        assert(parts[0].subrange(0, parts[0].len() as int) =~= parts[0]);
    }
}

/// The insight label ends with the tag 防御改善 exactly when block went up,
/// whatever happened to damage taken and damage dealt; it is 変化小/悪化
/// exactly when none of the three improved.
pub proof fn lemma_insight_labels(taken_better: bool, damage_better: bool, block_better: bool)
    ensures
        ({
            let s = insight_text(taken_better, damage_better, block_better);
            (s.len() >= 4 && s.subrange(s.len() - 4, s.len() as int) == "防御改善"@)
                == block_better
        }),
        (insight_text(taken_better, damage_better, block_better) == "変化小/悪化"@) == (
        !taken_better && !damage_better && !block_better),
{
    reveal_strlit("防御改善");
    reveal_strlit("火力改善");
    reveal_strlit("被ダメ改善");
    reveal_strlit("変化小/悪化");
    let tags = insight_tags(taken_better, damage_better, block_better);
    let s = insight_text(taken_better, damage_better, block_better);
    if tags.len() == 0 {
        assert(s == "変化小/悪化"@);
        assert(s.subrange(2, 6) != "防御改善"@) by {
            assert(s.subrange(2, 6)[3] == '化');
        }
    } else {
        lemma_join_ends_with_last(tags, "+"@);
        let last = tags.last();
        assert(s.len() >= last.len());
        assert(s.subrange(s.len() - last.len(), s.len() as int) == last);
        assert(last.last() == '善');
        assert(s.last() == '善') by {
            assert(s.subrange(s.len() - last.len(), s.len() as int)[last.len() - 1] == last.last());
        }
        assert(s != "変化小/悪化"@) by {
            assert("変化小/悪化"@.last() == '化');
        }
        if block_better {
            assert(last == "防御改善"@);
        } else {
            if damage_better {
                assert(last == "火力改善"@);
                assert(s.subrange(s.len() - 4, s.len() as int)[0] == '火');
            } else {
                assert(last == "被ダメ改善"@);
                assert(s.subrange(s.len() - 5, s.len() as int) == last);
                assert(s.subrange(s.len() - 4, s.len() as int)[0] == s.subrange(
                    s.len() - 5,
                    s.len() as int,
                )[1]);
                assert(s.subrange(s.len() - 4, s.len() as int)[0] == 'ダ');
            }
        }
    }
}

} // verus!
