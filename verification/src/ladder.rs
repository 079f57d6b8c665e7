//! One side of a book: levels in ascending order of price, one per price.
//!
//! A ladder is modelled as a map from the price, in units of 10^-28, to the
//! level held there. A price that is already held keeps the digits it was first
//! held with; only its quantity changes.

use vstd::prelude::*;

use crate::event::Level;
use crate::price::Qty;

verus! {

/// Whether the prices strictly increase.
pub open spec fn ascending(s: Seq<Level>) -> bool {
    forall|i: int, j: int|
        0 <= i < j < s.len() ==> #[trigger] s[i].price.units() < #[trigger] s[j].price.units()
}

/// Whether some level has the price.
pub open spec fn holds_price(s: Seq<Level>, at: int) -> bool {
    exists|i: int| 0 <= i < s.len() && #[trigger] s[i].price.units() == at
}

/// Where the level with the price stands.
pub open spec fn place_of(s: Seq<Level>, at: int) -> int {
    choose|i: int| 0 <= i < s.len() && #[trigger] s[i].price.units() == at
}

/// The levels by price.
pub open spec fn by_price(s: Seq<Level>) -> Map<int, Level> {
    Map::new(|at: int| holds_price(s, at), |at: int| s[place_of(s, at)])
}

/// A level put into a map: its quantity replaces the one held at that price.
pub open spec fn with_level(m: Map<int, Level>, l: Level) -> Map<int, Level> {
    let at = l.price.units();
    if m.contains_key(at) {
        m.insert(at, Level { price: m[at].price, qty: l.qty })
    } else {
        m.insert(at, l)
    }
}

/// An update of a map: a zero quantity removes the level, any other sets it.
pub open spec fn updated(m: Map<int, Level>, l: Level) -> Map<int, Level> {
    if l.qty.deletes() {
        m.remove(l.price.units())
    } else {
        with_level(m, l)
    }
}

/// The updates in order.
pub open spec fn all_updated(m: Map<int, Level>, updates: Seq<Level>) -> Map<int, Level>
    decreases updates.len(),
{
    if updates.len() == 0 {
        m
    } else {
        updated(all_updated(m, updates.drop_last()), updates.last())
    }
}

/// The levels of a snapshot, those of no quantity left out.
pub open spec fn listed(levels: Seq<Level>) -> Map<int, Level>
    decreases levels.len(),
{
    if levels.len() == 0 {
        Map::empty()
    } else if levels.last().qty.deletes() {
        listed(levels.drop_last())
    } else {
        with_level(listed(levels.drop_last()), levels.last())
    }
}

/// The map of an ascending ladder holds each of its levels, and nothing else.
pub proof fn lemma_by_price(s: Seq<Level>)
    requires
        ascending(s),
    ensures
        forall|i: int|
            0 <= i < s.len() ==> by_price(s).contains_key((#[trigger] s[i]).price.units())
                && by_price(s)[s[i].price.units()] == s[i],
        forall|at: int|
            #[trigger] by_price(s).contains_key(at) ==> 0 <= place_of(s, at) < s.len()
                && s[place_of(s, at)].price.units() == at,
{
    assert forall|i: int| 0 <= i < s.len() implies by_price(s).contains_key(
        (#[trigger] s[i]).price.units(),
    ) && by_price(s)[s[i].price.units()] == s[i] by {
        let at = s[i].price.units();
        assert(holds_price(s, at));
        let k = place_of(s, at);
        assert(0 <= k < s.len() && s[k].price.units() == at);
        assert(k == i) by {
            if k < i {
                assert(s[k].price.units() < s[i].price.units());
            } else if i < k {
                assert(s[i].price.units() < s[k].price.units());
            }
        }
    }
}

/// Two ascending ladders with the same levels by price are the same ladder.
pub proof fn law_ladder_is_its_map(a: Seq<Level>, b: Seq<Level>)
    requires
        ascending(a),
        ascending(b),
        by_price(a) == by_price(b),
    ensures
        a == b,
    decreases a.len(),
{
    lemma_by_price(a);
    lemma_by_price(b);
    if a.len() == 0 {
        if b.len() > 0 {
            assert(by_price(a).contains_key(b[0].price.units()));
        }
        assert(a =~= b);
    } else {
        if b.len() == 0 {
            assert(by_price(b).contains_key(a[0].price.units()));
        }
        let x = a.last();
        let y = b.last();
        // Each last level is the highest of both ladders, so they are one.
        let i = place_of(b, x.price.units());
        let j = place_of(a, y.price.units());
        assert(by_price(b).contains_key(x.price.units()));
        assert(by_price(a).contains_key(y.price.units()));
        assert(b[i].price.units() == x.price.units());
        assert(a[j].price.units() == y.price.units());
        assert(x.price.units() == y.price.units()) by {
            if i < b.len() - 1 {
                assert(b[i].price.units() < b[b.len() - 1].price.units());
                if j < a.len() - 1 {
                    assert(a[j].price.units() < a[a.len() - 1].price.units());
                }
            }
        }
        assert(by_price(a)[a[a.len() - 1].price.units()] == x);
        assert(by_price(b)[b[b.len() - 1].price.units()] == y);
        assert(x == y);
        let a0 = a.drop_last();
        let b0 = b.drop_last();
        lemma_without_last(a);
        lemma_without_last(b);
        law_ladder_is_its_map(a0, b0);
        assert(a =~= a0.push(x));
        assert(b =~= b0.push(y));
    }
}

/// Dropping the highest level of a ladder removes its price from the map.
pub proof fn lemma_without_last(s: Seq<Level>)
    requires
        ascending(s),
        s.len() > 0,
    ensures
        ascending(s.drop_last()),
        by_price(s.drop_last()) == by_price(s).remove(s.last().price.units()),
{
    let t = s.drop_last();
    lemma_by_price(s);
    assert forall|i: int, j: int| 0 <= i < j < t.len() implies #[trigger] t[i].price.units()
        < #[trigger] t[j].price.units() by {
        assert(s[i].price.units() < s[j].price.units());
    }
    lemma_by_price(t);
    let top = s.last().price.units();
    assert forall|at: int| by_price(t).contains_key(at) == by_price(s).remove(top).contains_key(
        at,
    ) by {
        if by_price(t).contains_key(at) {
            let k = place_of(t, at);
            assert(t[k] == s[k]);
            assert(s[k].price.units() < s[s.len() - 1].price.units());
            assert(by_price(s).contains_key(s[k].price.units()));
        }
        if by_price(s).remove(top).contains_key(at) {
            let k = place_of(s, at);
            assert(s[k].price.units() == at);
            assert(k < s.len() - 1);
            assert(t[k] == s[k]);
            assert(by_price(t).contains_key(t[k].price.units()));
        }
    }
    assert forall|at: int| #[trigger] by_price(t).contains_key(at) implies by_price(t)[at]
        == by_price(s)[at] by {
        let k = place_of(t, at);
        assert(t[k] == s[k]);
        assert(by_price(s)[s[k].price.units()] == s[k]);
    }
    assert(by_price(t) =~= by_price(s).remove(top));
}

/// The number of levels priced below the given price.
fn place(ladder: &Vec<Level>, level: &Level) -> (i: usize)
    requires
        ascending(ladder@),
    ensures
        i <= ladder@.len(),
        forall|k: int| 0 <= k < i ==> (#[trigger] ladder@[k]).price.units() < level.price.units(),
        forall|k: int|
            i <= k < ladder@.len() ==> (#[trigger] ladder@[k]).price.units()
                >= level.price.units(),
{
    let mut i: usize = 0;
    while i < ladder.len() && ladder[i].price.below(&level.price)
        invariant
            i <= ladder@.len(),
            forall|k: int| 0 <= k < i ==> (#[trigger] ladder@[k]).price.units() < level.price.units(),
        decreases ladder@.len() - i,
    {
        i += 1;
    }
    assert forall|k: int| i <= k < ladder@.len() implies (#[trigger] ladder@[k]).price.units()
        >= level.price.units() by {
        if i < k {
            assert(ladder@[i as int].price.units() < ladder@[k].price.units());
        }
    }
    i
}

/// A level whose quantity is replaced stays where it is.
proof fn lemma_replaced(before: Seq<Level>, i: int, l: Level)
    requires
        ascending(before),
        0 <= i < before.len(),
        l.price.units() == before[i].price.units(),
    ensures
        ascending(before.update(i, l)),
        by_price(before.update(i, l)) == by_price(before).insert(l.price.units(), l),
        by_price(before).contains_key(l.price.units()),
        by_price(before)[l.price.units()] == before[i],
{
    let after = before.update(i, l);
    let at = l.price.units();
    lemma_by_price(before);
    assert forall|a: int, b: int| 0 <= a < b < after.len() implies #[trigger] after[a].price.units()
        < #[trigger] after[b].price.units() by {
        assert(before[a].price.units() < before[b].price.units());
    }
    lemma_by_price(after);
    assert forall|u: int| #[trigger] by_price(after).contains_key(u) == by_price(
        before,
    ).contains_key(u) by {
        if by_price(after).contains_key(u) {
            let k = place_of(after, u);
            assert(before[k].price.units() == u);
        }
        if by_price(before).contains_key(u) {
            let k = place_of(before, u);
            assert(after[k].price.units() == u);
        }
    }
    assert forall|u: int| by_price(after).contains_key(u) implies #[trigger] by_price(after)[u]
        == by_price(before).insert(at, l)[u] by {
        let k = place_of(after, u);
        assert(after[k].price.units() == u);
        assert(by_price(after)[u] == after[k]);
        if k != i {
            assert(after[k] == before[k]);
            assert(by_price(before)[before[k].price.units()] == before[k]);
            if k < i {
                assert(before[k].price.units() < before[i].price.units());
            } else {
                assert(before[i].price.units() < before[k].price.units());
            }
        }
    }
    assert(by_price(after) =~= by_price(before).insert(at, l));
}

/// A level at a new price goes between the lower and the higher ones.
proof fn lemma_inserted(before: Seq<Level>, i: int, l: Level)
    requires
        ascending(before),
        0 <= i <= before.len(),
        forall|k: int| 0 <= k < i ==> (#[trigger] before[k]).price.units() < l.price.units(),
        forall|k: int|
            i <= k < before.len() ==> (#[trigger] before[k]).price.units() > l.price.units(),
    ensures
        ascending(before.insert(i, l)),
        by_price(before.insert(i, l)) == by_price(before).insert(l.price.units(), l),
        !by_price(before).contains_key(l.price.units()),
{
    let after = before.insert(i, l);
    let at = l.price.units();
    lemma_by_price(before);
    assert(!by_price(before).contains_key(at)) by {
        if by_price(before).contains_key(at) {
            let k = place_of(before, at);
            assert(before[k].price.units() == at);
        }
    }
    assert forall|k: int| 0 <= k < after.len() && k != i implies #[trigger] after[k] == before[if k
        < i {
        k
    } else {
        k - 1
    }] by {}
    assert forall|a: int, b: int| 0 <= a < b < after.len() implies #[trigger] after[a].price.units()
        < #[trigger] after[b].price.units() by {
        let pa = if a < i { a } else { a - 1 };
        let pb = if b < i { b } else { b - 1 };
        if a == i {
            assert(after[b] == before[pb]);
        } else if b == i {
            assert(after[a] == before[pa]);
        } else {
            assert(before[pa].price.units() < before[pb].price.units());
        }
    }
    lemma_by_price(after);
    assert forall|u: int| #[trigger] by_price(after).contains_key(u) == by_price(before).insert(
        at,
        l,
    ).contains_key(u) by {
        if by_price(after).contains_key(u) {
            let k = place_of(after, u);
            assert(after[k].price.units() == u);
            if k != i {
                let p = if k < i { k } else { k - 1 };
                assert(after[k] == before[p]);
                assert(by_price(before).contains_key(before[p].price.units()));
            }
        }
        if u == at {
            assert(after[i] == l);
        }
        if by_price(before).contains_key(u) {
            let p = place_of(before, u);
            let k = if p < i { p } else { p + 1 };
            assert(after[k] == before[p]);
        }
    }
    assert forall|u: int| by_price(after).contains_key(u) implies #[trigger] by_price(after)[u]
        == by_price(before).insert(at, l)[u] by {
        let k = place_of(after, u);
        assert(after[k].price.units() == u);
        assert(by_price(after)[u] == after[k]);
        if k != i {
            let p = if k < i { k } else { k - 1 };
            assert(after[k] == before[p]);
            assert(by_price(before)[before[p].price.units()] == before[p]);
        }
    }
    assert(by_price(after) =~= by_price(before).insert(at, l));
}

/// Sets the quantity at a level's price.
pub fn set_level(ladder: &mut Vec<Level>, level: Level)
    requires
        ascending(old(ladder)@),
    ensures
        ascending(final(ladder)@),
        by_price(final(ladder)@) == with_level(by_price(old(ladder)@), level),
{
    let ghost before = ladder@;
    let i: usize = place(ladder, &level);
    if i < ladder.len() && ladder[i].price.same(&level.price) {
        let kept = ladder[i].price;
        let replaced = Level { price: kept, qty: level.qty };
        proof {
            lemma_replaced(before, i as int, replaced);
        }
        ladder.set(i, replaced);
    } else {
        proof {
            assert forall|k: int| i <= k < before.len() implies (#[trigger] before[k]).price.units()
                > level.price.units() by {
                if i < k {
                    assert(before[i as int].price.units() < before[k].price.units());
                }
            }
            lemma_inserted(before, i as int, level);
        }
        ladder.insert(i, level);
    }
}

/// Puts a level at its price, digits and all, whatever was there.
pub fn put_level(ladder: &mut Vec<Level>, level: Level)
    requires
        ascending(old(ladder)@),
    ensures
        ascending(final(ladder)@),
        by_price(final(ladder)@) == by_price(old(ladder)@).insert(level.price.units(), level),
{
    let ghost before = ladder@;
    let i: usize = place(ladder, &level);
    if i < ladder.len() && ladder[i].price.same(&level.price) {
        proof {
            lemma_replaced(before, i as int, level);
        }
        ladder.set(i, level);
    } else {
        proof {
            assert forall|k: int| i <= k < before.len() implies (#[trigger] before[k]).price.units()
                > level.price.units() by {
                if i < k {
                    assert(before[i as int].price.units() < before[k].price.units());
                }
            }
            lemma_inserted(before, i as int, level);
        }
        ladder.insert(i, level);
    }
}

/// The ascending levels of a map.
pub open spec fn ladder_of(m: Map<int, Level>) -> Seq<Level> {
    choose|s: Seq<Level>| ascending(s) && #[trigger] by_price(s) == m
}

/// An ascending ladder is the ladder of its map.
pub proof fn lemma_ladder_of(s: Seq<Level>)
    requires
        ascending(s),
    ensures
        ladder_of(by_price(s)) == s,
{
    let t = ladder_of(by_price(s));
    assert(ascending(t) && by_price(t) == by_price(s));
    law_ladder_is_its_map(s, t);
}

/// Removes the level at a price, if there is one.
pub fn remove_level(ladder: &mut Vec<Level>, level: &Level)
    requires
        ascending(old(ladder)@),
    ensures
        ascending(final(ladder)@),
        by_price(final(ladder)@) == by_price(old(ladder)@).remove(level.price.units()),
{
    let ghost before = ladder@;
    let ghost at = level.price.units();
    let i: usize = place(ladder, level);
    proof {
        lemma_by_price(before);
    }
    if i < ladder.len() && ladder[i].price.same(&level.price) {
        ladder.remove(i);
        proof {
            let after = ladder@;
            assert(after == before.remove(i as int));
            assert forall|a: int, b: int| 0 <= a < b < after.len() implies #[trigger] after[a].price.units()
                < #[trigger] after[b].price.units() by {
                let pa = if a < i { a } else { a + 1 };
                let pb = if b < i { b } else { b + 1 };
                assert(before[pa].price.units() < before[pb].price.units());
            }
            lemma_by_price(after);
            assert forall|u: int| by_price(after).contains_key(u) == by_price(before).remove(
                at,
            ).contains_key(u) by {
                if by_price(after).contains_key(u) {
                    let k = place_of(after, u);
                    let p = if k < i { k } else { k + 1 };
                    assert(after[k] == before[p]);
                    assert(by_price(before).contains_key(before[p].price.units()));
                    if p < i {
                        assert(before[p].price.units() < before[i as int].price.units());
                    } else {
                        assert(before[i as int].price.units() < before[p].price.units());
                    }
                }
                if by_price(before).remove(at).contains_key(u) {
                    let p = place_of(before, u);
                    assert(p != i);
                    let k = if p < i { p } else { p - 1 };
                    assert(after[k] == before[p]);
                    assert(by_price(after).contains_key(after[k].price.units()));
                }
            }
            assert forall|u: int| by_price(after).contains_key(u) implies #[trigger] by_price(after)[u]
                == by_price(before)[u] by {
                let k = place_of(after, u);
                let p = if k < i { k } else { k + 1 };
                assert(by_price(after)[after[k].price.units()] == after[k]);
                assert(after[k] == before[p]);
                assert(by_price(before)[before[p].price.units()] == before[p]);
            }
            assert(by_price(after) =~= by_price(before).remove(at));
        }
    } else {
        proof {
            assert(!by_price(before).contains_key(at)) by {
                if by_price(before).contains_key(at) {
                    let k = place_of(before, at);
                    assert(before[k].price.units() == at);
                    if i < k {
                        assert(before[i as int].price.units() < before[k].price.units());
                    }
                }
            }
            assert(by_price(before) =~= by_price(before).remove(at));
        }
    }
}

/// Applies incremental updates in order. Zero quantity deletes the level.
pub fn apply_levels(ladder: &mut Vec<Level>, updates: &[Level])
    requires
        ascending(old(ladder)@),
    ensures
        ascending(final(ladder)@),
        by_price(final(ladder)@) == all_updated(by_price(old(ladder)@), updates@),
{
    let ghost start = by_price(ladder@);
    let mut i: usize = 0;
    while i < updates.len()
        invariant
            i <= updates@.len(),
            ascending(ladder@),
            by_price(ladder@) == all_updated(start, updates@.take(i as int)),
        decreases updates@.len() - i,
    {
        let level = updates[i];
        if level.qty.is_delete() {
            remove_level(ladder, &level);
        } else {
            set_level(ladder, level);
        }
        i += 1;
        assert(updates@.take(i as int).drop_last() =~= updates@.take(i - 1));
    }
    assert(updates@.take(updates@.len() as int) =~= updates@);
}

/// The ladder that a snapshot lists.
pub fn from_listing(levels: &[Level]) -> (ladder: Vec<Level>)
    ensures
        ascending(ladder@),
        by_price(ladder@) == listed(levels@),
{
    let mut ladder: Vec<Level> = Vec::new();
    assert(by_price(ladder@) =~= Map::empty());
    let mut i: usize = 0;
    while i < levels.len()
        invariant
            i <= levels@.len(),
            ascending(ladder@),
            by_price(ladder@) == listed(levels@.take(i as int)),
        decreases levels@.len() - i,
    {
        let level = levels[i];
        if !level.qty.is_delete() {
            set_level(&mut ladder, level);
        }
        i += 1;
        assert(levels@.take(i as int).drop_last() =~= levels@.take(i - 1));
    }
    assert(levels@.take(levels@.len() as int) =~= levels@);
    ladder
}

/// Keeps the `max` highest levels.
pub fn keep_highest(ladder: &mut Vec<Level>, max: usize)
    requires
        ascending(old(ladder)@),
    ensures
        ascending(final(ladder)@),
        final(ladder)@ == highest(old(ladder)@, max as nat),
{
    let ghost before = ladder@;
    assert(before.skip(0) =~= before);
    while ladder.len() > max
        invariant
            ascending(ladder@),
            ladder@.len() <= before.len(),
            ladder@ == before.skip(before.len() - ladder@.len()),
            before.len() > max ==> ladder@.len() >= max,
            before.len() <= max ==> ladder@ == before,
        decreases ladder@.len(),
    {
        let ghost now = ladder@;
        ladder.remove(0);
        assert(ladder@ =~= before.skip(before.len() - ladder@.len()));
        assert forall|i: int, j: int| 0 <= i < j < ladder@.len() implies #[trigger] ladder@[i].price.units()
            < #[trigger] ladder@[j].price.units() by {
            assert(now[i + 1].price.units() < now[j + 1].price.units());
        }
    }
    assert(ladder@ =~= highest(before, max as nat));
}

/// Keeps the `max` lowest levels.
pub fn keep_lowest(ladder: &mut Vec<Level>, max: usize)
    requires
        ascending(old(ladder)@),
    ensures
        ascending(final(ladder)@),
        final(ladder)@ == lowest(old(ladder)@, max as nat),
{
    let ghost before = ladder@;
    ladder.truncate(max);
    proof {
        assert(ladder@ =~= lowest(before, max as nat));
        assert forall|i: int, j: int| 0 <= i < j < ladder@.len() implies #[trigger] ladder@[i].price.units()
            < #[trigger] ladder@[j].price.units() by {
            assert(before[i].price.units() < before[j].price.units());
        }
    }
}

/// The `n` highest levels of a ladder, still ascending.
pub open spec fn highest(s: Seq<Level>, n: nat) -> Seq<Level> {
    if s.len() <= n {
        s
    } else {
        s.skip(s.len() - n)
    }
}

/// The `n` lowest levels of a ladder.
pub open spec fn lowest(s: Seq<Level>, n: nat) -> Seq<Level> {
    if s.len() <= n {
        s
    } else {
        s.take(n as int)
    }
}

/// Whether an update is the last of some that names a price.
pub open spec fn decides(updates: Seq<Level>, at: int, i: int) -> bool {
    &&& 0 <= i < updates.len()
    &&& updates[i].price.units() == at
    &&& forall|j: int| i < j < updates.len() ==> (#[trigger] updates[j]).price.units() != at
}

/// Whether no update names a price.
pub open spec fn unnamed(updates: Seq<Level>, at: int) -> bool {
    forall|j: int| 0 <= j < updates.len() ==> (#[trigger] updates[j]).price.units() != at
}

/// Whether a side holds a quantity at a price.
pub open spec fn holds_quantity(s: Seq<Level>, at: int, qty: Qty) -> bool {
    exists|i: int| 0 <= i < s.len() && (#[trigger] s[i]).price.units() == at && s[i].qty == qty
}

/// Whether a side holds at a price what updates leave there: where one names the
/// price, the last of them decides, and where none does, it holds what it held.
pub open spec fn settled_at(
    before: Seq<Level>,
    updates: Seq<Level>,
    after: Seq<Level>,
    at: int,
) -> bool {
    &&& unnamed(updates, at) ==> forall|l: Level|
        l.price.units() == at ==> (#[trigger] after.contains(l) <==> before.contains(l))
    &&& forall|i: int| #[trigger]
        decides(updates, at, i) ==> if updates[i].qty.units() == 0 {
            !holds_price(after, at)
        } else {
            holds_quantity(after, at, updates[i].qty)
        }
}

/// Whether levels stand under their own prices.
spec fn keyed(m: Map<int, Level>) -> bool {
    forall|at: int| #[trigger] m.contains_key(at) ==> m[at].price.units() == at
}

proof fn lemma_last_update(m: Map<int, Level>, updates: Seq<Level>, at: int)
    requires
        keyed(m),
    ensures
        keyed(all_updated(m, updates)),
        unnamed(updates, at) ==> {
            &&& all_updated(m, updates).contains_key(at) <==> m.contains_key(at)
            &&& m.contains_key(at) ==> all_updated(m, updates)[at] == m[at]
        },
        forall|i: int| #[trigger] decides(updates, at, i) ==> if updates[i].qty.deletes() {
            !all_updated(m, updates).contains_key(at)
        } else {
            all_updated(m, updates).contains_key(at) && all_updated(m, updates)[at].qty
                == updates[i].qty
        },
    decreases updates.len(),
{
    if updates.len() > 0 {
        let fewer = updates.drop_last();
        lemma_last_update(m, fewer, at);
        if unnamed(updates, at) {
            assert forall|j: int| 0 <= j < fewer.len() implies (#[trigger] fewer[j]).price.units()
                != at by {
                assert(updates[j].price.units() != at);
            }
            assert(updates[updates.len() - 1].price.units() != at);
        }
        assert forall|i: int| #[trigger] decides(updates, at, i) implies if updates[i].qty.deletes() {
            !all_updated(m, updates).contains_key(at)
        } else {
            all_updated(m, updates).contains_key(at) && all_updated(m, updates)[at].qty
                == updates[i].qty
        } by {
            if i < updates.len() - 1 {
                assert(updates[updates.len() - 1].price.units() != at);
                assert forall|j: int| i < j < fewer.len() implies (
                #[trigger] fewer[j]).price.units() != at by {
                    assert(updates[j].price.units() != at);
                }
                assert(fewer[i] == updates[i]);
                assert(decides(fewer, at, i));
            }
        }
    }
}

/// Every update of a delta counts: at every price the last update that names it
/// decides. A zero quantity leaves no level there, any other leaves a level of that
/// quantity; and a price that no update names holds what it held before, digits
/// and all.
pub proof fn law_the_last_update_decides(
    before: Seq<Level>,
    updates: Seq<Level>,
    after: Seq<Level>,
    at: int,
)
    requires
        ascending(before),
        ascending(after),
        by_price(after) == all_updated(by_price(before), updates),
    ensures
        unnamed(updates, at) ==> forall|l: Level|
            l.price.units() == at ==> (#[trigger] after.contains(l) <==> before.contains(l)),
        forall|i: int| #[trigger] decides(updates, at, i) ==> if updates[i].qty.deletes() {
            !holds_price(after, at)
        } else {
            holds_quantity(after, at, updates[i].qty)
        },
{
    let m = by_price(before);
    lemma_by_price(before);
    lemma_by_price(after);
    assert(keyed(m)) by {
        assert forall|u: int| #[trigger] m.contains_key(u) implies m[u].price.units() == u by {
            assert(m[before[place_of(before, u)].price.units()] == before[place_of(before, u)]);
        }
    }
    lemma_last_update(m, updates, at);
    if unnamed(updates, at) {
        assert forall|l: Level| l.price.units() == at implies (#[trigger] after.contains(l)
            <==> before.contains(l)) by {
            if after.contains(l) {
                let i = choose|i: int| 0 <= i < after.len() && after[i] == l;
                assert(by_price(after)[after[i].price.units()] == l);
                let k = place_of(before, at);
                assert(m[before[k].price.units()] == before[k]);
                assert(before[k] == l);
            }
            if before.contains(l) {
                let i = choose|i: int| 0 <= i < before.len() && before[i] == l;
                assert(m[before[i].price.units()] == l);
                let k = place_of(after, at);
                assert(by_price(after)[after[k].price.units()] == after[k]);
                assert(after[k] == l);
            }
        }
    }
    assert forall|i: int| #[trigger] decides(updates, at, i) implies if updates[i].qty.deletes() {
        !holds_price(after, at)
    } else {
        holds_quantity(after, at, updates[i].qty)
    } by {
        if !updates[i].qty.deletes() {
            let k = place_of(after, at);
            assert(by_price(after)[after[k].price.units()] == after[k]);
            assert(after[k].price.units() == at && after[k].qty == updates[i].qty);
        }
    }
}

/// A price that is held keeps its digits: an update of its quantity leaves them, as
/// long as none deletes it.
pub proof fn law_a_held_price_keeps_its_digits(
    before: Seq<Level>,
    updates: Seq<Level>,
    after: Seq<Level>,
    i: int,
)
    requires
        ascending(before),
        ascending(after),
        by_price(after) == all_updated(by_price(before), updates),
        0 <= i < before.len(),
        forall|j: int|
            0 <= j < updates.len() && (#[trigger] updates[j]).price.units()
                == before[i].price.units() ==> !updates[j].qty.deletes(),
    ensures
        exists|k: int| 0 <= k < after.len() && (#[trigger] after[k]).price == before[i].price,
{
    let at = before[i].price.units();
    lemma_by_price(before);
    lemma_by_price(after);
    lemma_digits_kept(by_price(before), updates, at);
    let k = place_of(after, at);
    assert(by_price(after)[after[k].price.units()] == after[k]);
    assert(by_price(before)[before[i].price.units()] == before[i]);
    assert(after[k].price == before[i].price);
}

proof fn lemma_digits_kept(m: Map<int, Level>, updates: Seq<Level>, at: int)
    requires
        m.contains_key(at),
        forall|j: int|
            0 <= j < updates.len() && (#[trigger] updates[j]).price.units() == at
                ==> !updates[j].qty.deletes(),
    ensures
        all_updated(m, updates).contains_key(at),
        all_updated(m, updates)[at].price == m[at].price,
    decreases updates.len(),
{
    if updates.len() > 0 {
        let fewer = updates.drop_last();
        assert forall|j: int|
            0 <= j < fewer.len() && (#[trigger] fewer[j]).price.units()
                == at implies !fewer[j].qty.deletes() by {
            assert(updates[j].price.units() == at);
        }
        lemma_digits_kept(m, fewer, at);
        assert(updates[updates.len() - 1] == updates.last());
    }
}

/// A price that is new takes the digits of the update that brings it: one that no
/// side held, or that was deleted before.
pub proof fn law_a_new_price_has_its_own_digits(
    before: Seq<Level>,
    updates: Seq<Level>,
    after: Seq<Level>,
    gone: int,
    i: int,
)
    requires
        ascending(before),
        ascending(after),
        by_price(after) == all_updated(by_price(before), updates),
        -1 <= gone < i < updates.len(),
        gone < 0 ==> !holds_price(before, updates[i].price.units()),
        gone >= 0 ==> updates[gone].price.units() == updates[i].price.units()
            && updates[gone].qty.deletes(),
        forall|j: int|
            gone < j < i ==> (#[trigger] updates[j]).price.units() != updates[i].price.units(),
        forall|j: int|
            i <= j < updates.len() && (#[trigger] updates[j]).price.units()
                == updates[i].price.units() ==> !updates[j].qty.deletes(),
    ensures
        exists|k: int| 0 <= k < after.len() && (#[trigger] after[k]).price == updates[i].price,
{
    let at = updates[i].price.units();
    lemma_by_price(before);
    lemma_by_price(after);
    lemma_new_digits(by_price(before), updates, gone, i, updates.len() as int);
    assert(updates.take(updates.len() as int) =~= updates);
    let k = place_of(after, at);
    assert(by_price(after)[after[k].price.units()] == after[k]);
    assert(after[k].price == updates[i].price);
}

proof fn lemma_new_digits(m: Map<int, Level>, updates: Seq<Level>, gone: int, i: int, n: int)
    requires
        -1 <= gone < i < updates.len(),
        gone + 1 <= n <= updates.len(),
        gone < 0 ==> !m.contains_key(updates[i].price.units()),
        gone >= 0 ==> updates[gone].price.units() == updates[i].price.units()
            && updates[gone].qty.deletes(),
        forall|j: int|
            gone < j < i ==> (#[trigger] updates[j]).price.units() != updates[i].price.units(),
        forall|j: int|
            i <= j < updates.len() && (#[trigger] updates[j]).price.units()
                == updates[i].price.units() ==> !updates[j].qty.deletes(),
    ensures
        ({
            let at = updates[i].price.units();
            let now = all_updated(m, updates.take(n));
            &&& n <= i ==> !now.contains_key(at)
            &&& n > i ==> now.contains_key(at) && now[at].price == updates[i].price
        }),
    decreases n,
{
    if n > 0 {
        assert(updates.take(n).drop_last() =~= updates.take(n - 1));
        assert(updates.take(n).last() == updates[n - 1]);
        if n > gone + 1 {
            lemma_new_digits(m, updates, gone, i, n - 1);
        }
    }
}

/// Whether a level is the last of a listing that stands at a price: those of no
/// quantity do not.
pub open spec fn stands_last(levels: Seq<Level>, at: int, i: int) -> bool {
    &&& 0 <= i < levels.len()
    &&& levels[i].price.units() == at
    &&& !levels[i].qty.deletes()
    &&& forall|j: int|
        i < j < levels.len() ==> (#[trigger] levels[j]).price.units() != at
            || levels[j].qty.deletes()
}

/// Whether a level is the first of a listing that stands at a price.
pub open spec fn stands_first(levels: Seq<Level>, at: int, i: int) -> bool {
    &&& 0 <= i < levels.len()
    &&& levels[i].price.units() == at
    &&& !levels[i].qty.deletes()
    &&& forall|j: int|
        0 <= j < i ==> (#[trigger] levels[j]).price.units() != at || levels[j].qty.deletes()
}

proof fn lemma_listed(levels: Seq<Level>, at: int)
    ensures
        keyed(listed(levels)),
        listed(levels).contains_key(at) <==> exists|i: int| #[trigger] stands_last(levels, at, i),
        listed(levels).contains_key(at) <==> exists|i: int| #[trigger] stands_first(levels, at, i),
        forall|i: int| #[trigger]
            stands_last(levels, at, i) ==> listed(levels)[at].qty == levels[i].qty,
        forall|i: int| #[trigger]
            stands_first(levels, at, i) ==> listed(levels)[at].price == levels[i].price,
    decreases levels.len(),
{
    if levels.len() > 0 {
        let fewer = levels.drop_last();
        let n = levels.len() - 1;
        lemma_listed(fewer, at);
        let here = levels[n].price.units() == at && !levels[n].qty.deletes();
        assert forall|i: int| #[trigger] stands_last(fewer, at, i) && !here implies stands_last(
            levels,
            at,
            i,
        ) by {
            assert forall|j: int| i < j < levels.len() implies (
            #[trigger] levels[j]).price.units() != at || levels[j].qty.deletes() by {
                if j < n {
                    assert(fewer[j] == levels[j]);
                }
            }
        }
        assert forall|i: int| #[trigger] stands_last(levels, at, i) implies (if here {
            i == n
        } else {
            stands_last(fewer, at, i)
        }) by {
            if i < n {
                assert(levels[n].price.units() != at || levels[n].qty.deletes());
                assert forall|j: int| i < j < fewer.len() implies (
                #[trigger] fewer[j]).price.units() != at || fewer[j].qty.deletes() by {
                    assert(fewer[j] == levels[j]);
                }
            }
        }
        if here {
            assert(stands_last(levels, at, n));
        }
        assert forall|i: int| #[trigger] stands_first(fewer, at, i) implies stands_first(
            levels,
            at,
            i,
        ) by {
            assert forall|j: int| 0 <= j < i implies (#[trigger] levels[j]).price.units() != at
                || levels[j].qty.deletes() by {
                assert(fewer[j] == levels[j]);
            }
        }
        assert forall|i: int| #[trigger] stands_first(levels, at, i) && i < n implies stands_first(
            fewer,
            at,
            i,
        ) by {
            assert forall|j: int| 0 <= j < i implies (#[trigger] fewer[j]).price.units() != at
                || fewer[j].qty.deletes() by {
                assert(fewer[j] == levels[j]);
            }
        }
        if here && !listed(fewer).contains_key(at) {
            assert forall|j: int| 0 <= j < n implies (#[trigger] levels[j]).price.units() != at
                || levels[j].qty.deletes() by {
                if levels[j].price.units() == at && !levels[j].qty.deletes() {
                    lemma_first_standing(fewer, at, j);
                }
            }
            assert(stands_first(levels, at, n));
        }
        if here && listed(fewer).contains_key(at) {
            let f = choose|i: int| #[trigger] stands_first(fewer, at, i);
            assert(stands_first(levels, at, f));
            assert(!stands_first(levels, at, n)) by {
                assert(levels[f] == fewer[f]);
            }
        }
    }
}

/// Where some level stands at a price, one is the first.
proof fn lemma_first_standing(levels: Seq<Level>, at: int, j: int)
    requires
        0 <= j < levels.len(),
        levels[j].price.units() == at,
        !levels[j].qty.deletes(),
    ensures
        exists|i: int| #[trigger] stands_first(levels, at, i),
    decreases j,
{
    if !stands_first(levels, at, j) {
        let k = choose|k: int|
            0 <= k < j && (#[trigger] levels[k]).price.units() == at && !levels[k].qty.deletes();
        lemma_first_standing(levels, at, k);
    }
}

/// A snapshot is taken as it is listed: a price is held exactly where some level of
/// it stands, with the quantity of the last such level and the digits of the
/// first. Levels of no quantity count for nothing.
pub proof fn law_a_listing_is_taken_whole(levels: Seq<Level>, ladder: Seq<Level>, at: int)
    requires
        ascending(ladder),
        by_price(ladder) == listed(levels),
    ensures
        holds_price(ladder, at) <==> exists|j: int|
            0 <= j < levels.len() && (#[trigger] levels[j]).price.units() == at
                && !levels[j].qty.deletes(),
        forall|i: int| #[trigger]
            stands_last(levels, at, i) ==> holds_quantity(ladder, at, levels[i].qty),
        forall|i: int| #[trigger]
            stands_first(levels, at, i) ==> exists|k: int|
                0 <= k < ladder.len() && (#[trigger] ladder[k]).price == levels[i].price,
{
    lemma_listed(levels, at);
    lemma_by_price(ladder);
    if exists|j: int|
        0 <= j < levels.len() && (#[trigger] levels[j]).price.units() == at
            && !levels[j].qty.deletes() {
        let j = choose|j: int|
            0 <= j < levels.len() && (#[trigger] levels[j]).price.units() == at
                && !levels[j].qty.deletes();
        lemma_first_standing(levels, at, j);
    }
    if holds_price(ladder, at) {
        let i = choose|i: int| #[trigger] stands_first(levels, at, i);
        assert(levels[i].price.units() == at && !levels[i].qty.deletes());
        let k = place_of(ladder, at);
        assert(by_price(ladder)[ladder[k].price.units()] == ladder[k]);
    }
    assert forall|i: int| #[trigger] stands_last(levels, at, i) implies holds_quantity(
        ladder,
        at,
        levels[i].qty,
    ) by {
        let k = place_of(ladder, at);
        assert(by_price(ladder).contains_key(at));
        assert(ladder[k].price.units() == at && ladder[k].qty == levels[i].qty);
    }
    assert forall|i: int| #[trigger] stands_first(levels, at, i) implies exists|k: int|
        0 <= k < ladder.len() && (#[trigger] ladder[k]).price == levels[i].price by {
        let k = place_of(ladder, at);
        assert(by_price(ladder).contains_key(at));
        assert(ladder[k].price == levels[i].price);
    }
}

/// Where a price goes among ascending levels.
proof fn lemma_place(s: Seq<Level>, at: int) -> (i: int)
    requires
        ascending(s),
    ensures
        0 <= i <= s.len(),
        forall|k: int| 0 <= k < i ==> (#[trigger] s[k]).price.units() < at,
        forall|k: int| i <= k < s.len() ==> (#[trigger] s[k]).price.units() >= at,
    decreases s.len(),
{
    if s.len() == 0 {
        0
    } else if s.last().price.units() < at {
        assert forall|k: int| 0 <= k < s.len() implies (#[trigger] s[k]).price.units() < at by {
            if k < s.len() - 1 {
                assert(s[k].price.units() < s[s.len() - 1].price.units());
            }
        }
        s.len() as int
    } else {
        lemma_without_last(s);
        let i = lemma_place(s.drop_last(), at);
        assert forall|k: int| 0 <= k < i implies (#[trigger] s[k]).price.units() < at by {
            assert(s.drop_last()[k] == s[k]);
        }
        assert forall|k: int| i <= k < s.len() implies (#[trigger] s[k]).price.units() >= at by {
            if k < s.len() - 1 {
                assert(s.drop_last()[k] == s[k]);
            }
        }
        i
    }
}

/// A level can be put into any ladder.
pub proof fn lemma_put(s: Seq<Level>, l: Level) -> (t: Seq<Level>)
    requires
        ascending(s),
    ensures
        ascending(t),
        by_price(t) == by_price(s).insert(l.price.units(), l),
{
    let i = lemma_place(s, l.price.units());
    if i < s.len() && s[i].price.units() == l.price.units() {
        lemma_replaced(s, i, l);
        s.update(i, l)
    } else {
        assert forall|k: int| i <= k < s.len() implies (#[trigger] s[k]).price.units()
            > l.price.units() by {
            if i < k {
                assert(s[i].price.units() < s[k].price.units());
            }
        }
        lemma_inserted(s, i, l);
        s.insert(i, l)
    }
}

} // verus!
