use vstd::prelude::*;

use crate::database::{Graph, RecipeDatabase};
use crate::inventory::{add_scaled, craft_outcome, expand, produce, settle, settle_all, Inventory, Outcome};
use crate::item_list::{
    add_entry, find, keys_distinct, lemma_add_entry, lemma_find, lemma_to_map_remove, qty, to_map, Entries, ItemList,
};

verus! {

/// The smaller of two quantities.
pub open spec fn min_nat(a: nat, b: nat) -> nat {
    if a <= b {
        a
    } else {
        b
    }
}

/// Success adds to each planned item that has a recipe exactly its batches
/// times the recipe's yield, and changes no other item.
pub proof fn lemma_produce_adds_yield(g: Graph, l: Map<Seq<char>, nat>, plan: Entries, p: Map<Seq<char>, nat>)
    requires
        keys_distinct(plan),
        produce(g, l, plan) == Some(p),
    ensures
        forall|i: int|
            0 <= i < plan.len() && g.contains_key(#[trigger] plan[i].0) ==> qty(p, plan[i].0) == qty(
                l,
                plan[i].0,
            ) + plan[i].1 * g[plan[i].0].1,
        forall|k: Seq<char>|
            (forall|i: int| 0 <= i < plan.len() && g.contains_key(#[trigger] plan[i].0) ==> plan[i].0 != k)
                ==> qty(p, k) == qty(l, k),
    decreases plan.len(),
{
    if plan.len() > 0 {
        let d = plan.drop_last();
        assert(keys_distinct(d));
        let p0 = produce(g, l, d).unwrap();
        lemma_produce_adds_yield(g, l, d, p0);
        let last = plan.len() - 1;
        assert forall|i: int| 0 <= i < plan.len() && g.contains_key(#[trigger] plan[i].0) implies qty(p, plan[i].0)
            == qty(l, plan[i].0) + plan[i].1 * g[plan[i].0].1 by {
            if i < last {
                assert(d[i] == plan[i]);
                assert(plan[i].0 != plan[last].0);
            } else {
                assert forall|j: int| 0 <= j < d.len() && g.contains_key(#[trigger] d[j].0) implies d[j].0
                    != plan[i].0 by {
                    assert(d[j] == plan[j]);
                }
            }
        }
        assert forall|k: Seq<char>|
            (forall|i: int| 0 <= i < plan.len() && g.contains_key(#[trigger] plan[i].0) ==> plan[i].0 != k)
                implies qty(p, k) == qty(l, k) by {
            assert forall|j: int| 0 <= j < d.len() && g.contains_key(#[trigger] d[j].0) implies d[j].0 != k by {
                assert(d[j] == plan[j]);
            }
        }
    }
}

/// Within a round, each shortfall item loses exactly what can be taken of
/// it: its demand, or all that is on hand when that is less. No other item
/// changes, and no item gains or loses its entry.
pub proof fn lemma_settle_takes(g: Graph, l: Map<Seq<char>, nat>, s: Entries)
    requires
        keys_distinct(s),
        settle(g, l, s) is Some,
    ensures
        settle(g, l, s).unwrap().0.dom() == l.dom(),
        forall|i: int|
            0 <= i < s.len() ==> qty(settle(g, l, s).unwrap().0, #[trigger] s[i].0) == qty(l, s[i].0)
                - min_nat(qty(l, s[i].0), s[i].1),
        forall|k: Seq<char>|
            (forall|i: int| 0 <= i < s.len() ==> #[trigger] s[i].0 != k) ==> qty(settle(g, l, s).unwrap().0, k)
                == qty(l, k),
    decreases s.len(),
{
    if s.len() > 0 {
        let d = s.drop_last();
        assert(keys_distinct(d));
        lemma_settle_takes(g, l, d);
        let r0 = settle(g, l, d).unwrap();
        let r = settle(g, l, s).unwrap();
        let last = s.len() - 1;
        let k = s[last].0;
        assert forall|j: int| 0 <= j < d.len() implies #[trigger] d[j].0 != k by {
            assert(d[j] == s[j]);
        }
        assert(qty(r0.0, k) == qty(l, k));
        assert(r.0.dom() =~= l.dom());
        assert forall|i: int| 0 <= i < s.len() implies qty(r.0, #[trigger] s[i].0) == qty(l, s[i].0) - min_nat(
            qty(l, s[i].0),
            s[i].1,
        ) by {
            if i < last {
                assert(d[i] == s[i]);
                assert(s[i].0 != k);
            }
        }
        assert forall|k2: Seq<char>| (forall|i: int| 0 <= i < s.len() ==> #[trigger] s[i].0 != k2) implies qty(
            r.0,
            k2,
        ) == qty(l, k2) by {
            assert forall|j: int| 0 <= j < d.len() implies #[trigger] d[j].0 != k2 by {
                assert(d[j] == s[j]);
            }
            assert(s[last].0 != k2);
        }
    }
}

/// A failed craft leaves the stock's entries as they were, so crafting the
/// same plan against it again reports the same shortfall.
pub proof fn lemma_failure_repeats(
    before: Inventory,
    after: Inventory,
    plan: ItemList,
    recipes: RecipeDatabase,
)
    requires
        after.items.entries() == before.items.entries(),
        craft_outcome(recipes@, before@, plan.entries(), recipes.count()) is Short,
    ensures
        craft_outcome(recipes@, after@, plan.entries(), recipes.count()) == craft_outcome(
            recipes@,
            before@,
            plan.entries(),
            recipes.count(),
        ),
{
}

/// No recipe of an item of `s` lists `k` among its ingredients.
pub open spec fn not_listed(g: Graph, s: Entries, k: Seq<char>) -> bool {
    forall|j: int, m: int|
        0 <= j < s.len() && g.contains_key(#[trigger] s[j].0) && 0 <= m < g[s[j].0].0.len() ==> #[trigger] g[s[
            j].0].0[m].0 != k
}

/// Adding batches never lowers a quantity, and leaves alone every item that
/// the ingredients do not name.
pub proof fn lemma_add_scaled_qty(s: Entries, ings: Entries, times: nat, k: Seq<char>)
    requires
        keys_distinct(s),
        add_scaled(s, ings, times) is Some,
    ensures
        keys_distinct(add_scaled(s, ings, times).unwrap()),
        qty(to_map(add_scaled(s, ings, times).unwrap()), k) >= qty(to_map(s), k),
        (forall|m: int| 0 <= m < ings.len() ==> #[trigger] ings[m].0 != k) ==> qty(
            to_map(add_scaled(s, ings, times).unwrap()),
            k,
        ) == qty(to_map(s), k),
    decreases ings.len(),
{
    if ings.len() > 0 {
        let d = ings.drop_last();
        lemma_add_scaled_qty(s, d, times, k);
        let p = add_scaled(s, d, times).unwrap();
        lemma_add_entry(p, ings.last().0, ings.last().1 * times);
        if forall|m: int| 0 <= m < ings.len() ==> #[trigger] ings[m].0 != k {
            assert forall|m: int| 0 <= m < d.len() implies #[trigger] d[m].0 != k by {
                assert(d[m] == ings[m]);
            }
            assert(ings[ings.len() - 1].0 != k);
        }
    }
}

/// How a round builds its next shortfall around one item `k`: the next
/// shortfall has distinct identifiers; `k` is absent from it when the round
/// neither holds `k` nor decomposes anything into it; and when `k` has no
/// recipe and the round finds it short, `k` is carried on undecomposed with
/// at least its unmet deficit, and exactly that deficit when no recipe of the
/// round's items lists `k`.
pub proof fn lemma_settle_next(g: Graph, l: Map<Seq<char>, nat>, s: Entries, k: Seq<char>)
    requires
        keys_distinct(s),
        settle(g, l, s) is Some,
    ensures
        keys_distinct(settle(g, l, s).unwrap().1),
        not_listed(g, s, k) && (forall|j: int| 0 <= j < s.len() ==> #[trigger] s[j].0 != k) ==> qty(
            to_map(settle(g, l, s).unwrap().1),
            k,
        ) == 0,
        forall|i: int|
            0 <= i < s.len() && #[trigger] s[i].0 == k && !g.contains_key(k) && qty(l, k) < s[i].1 ==> {
                &&& qty(to_map(settle(g, l, s).unwrap().1), k) >= s[i].1 - qty(l, k)
                &&& not_listed(g, s, k) ==> qty(to_map(settle(g, l, s).unwrap().1), k) == s[i].1 - qty(
                    l,
                    k,
                )
            },
    decreases s.len(),
{
    if s.len() == 0 {
        assert(to_map(Seq::<(Seq<char>, nat)>::empty()) =~= Map::<Seq<char>, nat>::empty());
    } else {
        let d = s.drop_last();
        let last = s.len() - 1;
        assert forall|j: int| 0 <= j < d.len() implies #[trigger] d[j] == s[j] by {}
        assert(keys_distinct(d));
        lemma_settle_next(g, l, d, k);
        lemma_settle_takes(g, l, d);
        let r0 = settle(g, l, d).unwrap();
        let r = settle(g, l, s).unwrap();
        let kl = s[last].0;
        let a = s[last].1;
        let have = qty(r0.0, kl);
        let dl = (a - have) as nat;
        if not_listed(g, s, k) {
            assert forall|j: int, m: int|
                0 <= j < d.len() && g.contains_key(#[trigger] d[j].0) && 0 <= m < g[d[j].0].0.len() implies #[trigger] g[d[
                j].0].0[m].0 != k by {
                assert(d[j] == s[j]);
            }
            assert(not_listed(g, d, k));
        }
        if a <= have {
            assert(r.1 == r0.1);
        } else if g.contains_key(kl) && g[kl].0.len() > 0 {
            lemma_add_scaled_qty(r0.1, g[kl].0, dl, k);
            if not_listed(g, s, k) {
                assert forall|m: int| 0 <= m < g[kl].0.len() implies #[trigger] g[kl].0[m].0 != k by {
                    assert(g[s[last].0].0[m].0 != k);
                }
            }
        } else {
            lemma_add_entry(r0.1, kl, dl);
        }
        assert forall|i: int|
            0 <= i < s.len() && #[trigger] s[i].0 == k && !g.contains_key(k) && qty(l, k) < s[i].1 implies {
                &&& qty(to_map(r.1), k) >= s[i].1 - qty(l, k)
                &&& not_listed(g, s, k) ==> qty(to_map(r.1), k) == s[i].1 - qty(l, k)
            } by {
            if i < last {
                assert(d[i].0 == k);
                assert(kl != k);
            } else {
                assert forall|j: int| 0 <= j < d.len() implies #[trigger] d[j].0 != k by {
                    assert(s[j].0 != s[last].0);
                }
                assert(qty(r0.0, k) == qty(l, k));
            }
        }
        if not_listed(g, s, k) && (forall|j: int| 0 <= j < s.len() ==> #[trigger] s[j].0 != k) {
            assert forall|j: int| 0 <= j < d.len() implies #[trigger] d[j].0 != k by {
                assert(s[j].0 != k);
            }
            assert(kl != k);
        }
    }
}

/// Total quantity of `c` among the ingredient entries `ings`.
pub open spec fn listed(ings: Entries, c: Seq<char>) -> nat
    decreases ings.len(),
{
    if ings.len() == 0 {
        0
    } else {
        listed(ings.drop_last(), c) + if ings.last().0 == c {
            ings.last().1
        } else {
            0
        }
    }
}

/// Whether a round decomposes shortfall entry `x` into its ingredients.
pub open spec fn decomposes(g: Graph, l: Map<Seq<char>, nat>, x: (Seq<char>, nat)) -> bool {
    x.1 > qty(l, x.0) && g.contains_key(x.0) && g[x.0].0.len() > 0
}

/// Whether a round passes anything of shortfall entry `x` on under `c`.
pub open spec fn touches(g: Graph, l: Map<Seq<char>, nat>, x: (Seq<char>, nat), c: Seq<char>) -> bool {
    x.1 > qty(l, x.0) && if decomposes(g, l, x) {
        exists|m: int| 0 <= m < g[x.0].0.len() && #[trigger] g[x.0].0[m].0 == c
    } else {
        x.0 == c
    }
}

/// What a round passes on under `c` for shortfall entry `x`, given the
/// ledger `l` at the start of the round.
pub open spec fn carried(g: Graph, l: Map<Seq<char>, nat>, x: (Seq<char>, nat), c: Seq<char>) -> nat {
    if x.1 <= qty(l, x.0) {
        0
    } else if decomposes(g, l, x) {
        listed(g[x.0].0, c) * (x.1 - qty(l, x.0)) as nat
    } else if x.0 == c {
        (x.1 - qty(l, x.0)) as nat
    } else {
        0
    }
}

/// What a round passes on under `c` for all the entries of `s`.
pub open spec fn carried_total(g: Graph, l: Map<Seq<char>, nat>, s: Entries, c: Seq<char>) -> nat
    decreases s.len(),
{
    if s.len() == 0 {
        0
    } else {
        carried_total(g, l, s.drop_last(), c) + carried(g, l, s.last(), c)
    }
}

pub proof fn lemma_add_scaled_sum(s: Entries, ings: Entries, times: nat, c: Seq<char>)
    requires
        keys_distinct(s),
        add_scaled(s, ings, times) is Some,
    ensures
        qty(to_map(add_scaled(s, ings, times).unwrap()), c) == qty(to_map(s), c) + listed(ings, c) * times,
        to_map(add_scaled(s, ings, times).unwrap()).contains_key(c) == (to_map(s).contains_key(c) || exists|
            m: int,
        | 0 <= m < ings.len() && #[trigger] ings[m].0 == c),
    decreases ings.len(),
{
    if ings.len() == 0 {
        assert(listed(ings, c) == 0);
        assert(0 * times == 0) by (nonlinear_arith);
    } else {
        let d = ings.drop_last();
        lemma_add_scaled_sum(s, d, times, c);
        lemma_add_scaled_qty(s, d, times, c);
        let p = add_scaled(s, d, times).unwrap();
        lemma_add_entry(p, ings.last().0, ings.last().1 * times);
        let x: nat = if ings.last().0 == c { ings.last().1 } else { 0 };
        assert((listed(d, c) + x) * times == listed(d, c) * times + x * times) by (nonlinear_arith);
        if ings.last().0 != c {
            assert(x * times == 0);
        }
        assert(listed(ings, c) == listed(d, c) + x);
        if exists|m: int| 0 <= m < ings.len() && #[trigger] ings[m].0 == c {
            let m = choose|m: int| 0 <= m < ings.len() && #[trigger] ings[m].0 == c;
            if m < d.len() {
                assert(d[m] == ings[m]);
            }
        }
        if exists|m: int| 0 <= m < d.len() && #[trigger] d[m].0 == c {
            let m = choose|m: int| 0 <= m < d.len() && #[trigger] d[m].0 == c;
            assert(d[m] == ings[m]);
        }
    }
}

/// A round's next shortfall, seen as a mapping, and its decision to go on
/// are sums and alternatives over the round's entries.
pub proof fn lemma_settle_sum(g: Graph, l: Map<Seq<char>, nat>, s: Entries, c: Seq<char>)
    requires
        keys_distinct(s),
        settle(g, l, s) is Some,
    ensures
        qty(to_map(settle(g, l, s).unwrap().1), c) == carried_total(g, l, s, c),
        to_map(settle(g, l, s).unwrap().1).contains_key(c) == exists|i: int|
            0 <= i < s.len() && touches(g, l, #[trigger] s[i], c),
        settle(g, l, s).unwrap().2 == exists|i: int| 0 <= i < s.len() && decomposes(g, l, #[trigger] s[i]),
    decreases s.len(),
{
    if s.len() == 0 {
        assert(to_map(Seq::<(Seq<char>, nat)>::empty()) =~= Map::<Seq<char>, nat>::empty());
    } else {
        let d = s.drop_last();
        let last = s.len() - 1;
        assert forall|j: int| 0 <= j < d.len() implies #[trigger] d[j] == s[j] by {}
        assert(keys_distinct(d));
        lemma_settle_sum(g, l, d, c);
        lemma_settle_takes(g, l, d);
        lemma_settle_next(g, l, d, c);
        let r0 = settle(g, l, d).unwrap();
        let x = s[last];
        assert forall|j: int| 0 <= j < d.len() implies #[trigger] d[j].0 != x.0 by {
            assert(s[j].0 != s[last].0);
        }
        assert(qty(r0.0, x.0) == qty(l, x.0));
        let have = qty(l, x.0);
        if x.1 <= have {
        } else if decomposes(g, l, x) {
            lemma_add_scaled_sum(r0.1, g[x.0].0, (x.1 - have) as nat, c);
            assert(listed(g[x.0].0, c) * (x.1 - have) as nat == carried(g, l, x, c));
        } else {
            lemma_add_entry(r0.1, x.0, (x.1 - have) as nat);
        }
        if exists|i: int| 0 <= i < s.len() && touches(g, l, #[trigger] s[i], c) {
            let i = choose|i: int| 0 <= i < s.len() && touches(g, l, #[trigger] s[i], c);
            if i < last {
                assert(touches(g, l, d[i], c));
            }
        }
        if exists|i: int| 0 <= i < d.len() && touches(g, l, #[trigger] d[i], c) {
            let i = choose|i: int| 0 <= i < d.len() && touches(g, l, #[trigger] d[i], c);
            assert(touches(g, l, s[i], c));
        }
        if exists|i: int| 0 <= i < s.len() && decomposes(g, l, #[trigger] s[i]) {
            let i = choose|i: int| 0 <= i < s.len() && decomposes(g, l, #[trigger] s[i]);
            if i < last {
                assert(decomposes(g, l, d[i]));
            }
        }
        if exists|i: int| 0 <= i < d.len() && decomposes(g, l, #[trigger] d[i]) {
            let i = choose|i: int| 0 <= i < d.len() && decomposes(g, l, #[trigger] d[i]);
            assert(decomposes(g, l, s[i]));
        }
    }
}

pub proof fn lemma_carried_total_remove(g: Graph, l: Map<Seq<char>, nat>, s: Entries, j: int, c: Seq<char>)
    requires
        0 <= j < s.len(),
    ensures
        carried_total(g, l, s, c) == carried_total(g, l, s.remove(j), c) + carried(g, l, s[j], c),
    decreases s.len(),
{
    let last = s.len() - 1;
    if j == last {
        assert(s.remove(j) =~= s.drop_last());
    } else {
        let d = s.drop_last();
        lemma_carried_total_remove(g, l, d, j, c);
        assert(s.remove(j).drop_last() =~= d.remove(j));
        assert(s.remove(j).last() == s.last());
    }
}

/// Two entry sequences with distinct identifiers that describe the same
/// mapping hold the same entries.
pub proof fn lemma_same_entries(s1: Entries, s2: Entries, i: int)
    requires
        keys_distinct(s1),
        keys_distinct(s2),
        to_map(s1) == to_map(s2),
        0 <= i < s1.len(),
    ensures
        0 <= find(s2, s1[i].0) < s2.len(),
        s2[find(s2, s1[i].0)] == s1[i],
{
    let k = s1[i].0;
    lemma_find(s1, k);
    lemma_find(s2, k);
    assert(to_map(s1).contains_key(k));
    assert(find(s1, k) == i);
    assert(to_map(s1)[k] == s1[i].1);
    let j = find(s2, k);
    assert(to_map(s2)[k] == s2[j].1);
    assert(s2[j].0 == s1[i].0);
    assert(s2[j].1 == s1[i].1);
}

pub proof fn lemma_empty_entries(s1: Entries, s2: Entries)
    requires
        to_map(s1) == to_map(s2),
        s1.len() == 0,
    ensures
        s2.len() == 0,
{
    if s2.len() > 0 {
        lemma_find(s2, s2[0].0);
        assert(to_map(s2).contains_key(s2[0].0));
    }
}

pub proof fn lemma_carried_total_perm(g: Graph, l: Map<Seq<char>, nat>, s1: Entries, s2: Entries, c: Seq<char>)
    requires
        keys_distinct(s1),
        keys_distinct(s2),
        to_map(s1) == to_map(s2),
    ensures
        carried_total(g, l, s1, c) == carried_total(g, l, s2, c),
    decreases s1.len(),
{
    if s1.len() == 0 {
        lemma_empty_entries(s1, s2);
    } else {
        let last = s1.len() - 1;
        lemma_same_entries(s1, s2, last);
        let j = find(s2, s1[last].0);
        lemma_to_map_remove(s1, last);
        assert(s1.remove(last) =~= s1.drop_last());
        lemma_to_map_remove(s2, j);
        lemma_carried_total_perm(g, l, s1.drop_last(), s2.remove(j), c);
        lemma_carried_total_remove(g, l, s2, j, c);
    }
}

/// Every quantity of the entries fits in `usize`.
pub open spec fn fits(e: Entries) -> bool {
    forall|i: int| 0 <= i < e.len() ==> #[trigger] e[i].1 <= usize::MAX
}

pub proof fn lemma_fits_qty(e: Entries, c: Seq<char>)
    requires
        fits(e),
    ensures
        qty(to_map(e), c) <= usize::MAX,
{
    lemma_find(e, c);
}

pub proof fn lemma_add_entry_fits(e: Entries, k: Seq<char>, n: nat)
    requires
        fits(e),
        qty(to_map(e), k) + n <= usize::MAX,
    ensures
        fits(add_entry(e, k, n)),
{
    lemma_find(e, k);
}

/// Adding batches stays within `usize` exactly when every resulting total
/// does.
pub proof fn lemma_add_scaled_fits(s: Entries, ings: Entries, times: nat)
    requires
        keys_distinct(s),
        fits(s),
    ensures
        (add_scaled(s, ings, times) is Some) == (forall|c: Seq<char>|
            qty(to_map(s), c) + #[trigger] listed(ings, c) * times <= usize::MAX),
        add_scaled(s, ings, times) is Some ==> fits(add_scaled(s, ings, times).unwrap()),
    decreases ings.len(),
{
    if ings.len() == 0 {
        assert forall|c: Seq<char>| qty(to_map(s), c) + #[trigger] listed(ings, c) * times <= usize::MAX by {
            lemma_fits_qty(s, c);
            assert(0 * times == 0) by (nonlinear_arith);
        }
    } else {
        let d = ings.drop_last();
        let k = ings.last().0;
        let v = ings.last().1;
        lemma_add_scaled_fits(s, d, times);
        assert forall|c: Seq<char>| #[trigger] listed(d, c) * times <= listed(ings, c) * times by {
            assert(listed(d, c) <= listed(ings, c));
            let a = listed(d, c);
            let b = listed(ings, c);
            assert(a <= b ==> a * times <= b * times) by (nonlinear_arith);
        }
        assert(listed(ings, k) == listed(d, k) + v);
        assert((listed(d, k) + v) * times == listed(d, k) * times + v * times) by (nonlinear_arith);
        if add_scaled(s, d, times) is Some {
            let p = add_scaled(s, d, times).unwrap();
            lemma_add_scaled_qty(s, d, times, k);
            lemma_add_scaled_sum(s, d, times, k);
            if add_scaled(s, ings, times) is Some {
                lemma_add_entry_fits(p, k, v * times);
                lemma_add_entry(p, k, v * times);
                let t = add_entry(p, k, v * times);
                assert forall|c: Seq<char>| qty(to_map(s), c) + #[trigger] listed(ings, c) * times <= usize::MAX by {
                    lemma_add_scaled_sum(s, ings, times, c);
                    lemma_fits_qty(t, c);
                }
            }
        }
    }
}

/// A round stays within `usize` exactly when, for every item, the total it
/// passes on does.
pub proof fn lemma_settle_fits(g: Graph, l: Map<Seq<char>, nat>, s: Entries)
    requires
        keys_distinct(s),
    ensures
        (settle(g, l, s) is Some) == (forall|c: Seq<char>| #[trigger] carried_total(g, l, s, c) <= usize::MAX),
        settle(g, l, s) is Some ==> fits(settle(g, l, s).unwrap().1),
    decreases s.len(),
{
    if s.len() > 0 {
        let d = s.drop_last();
        let last = s.len() - 1;
        let x = s[last];
        assert forall|j: int| 0 <= j < d.len() implies #[trigger] d[j] == s[j] by {}
        assert(keys_distinct(d));
        lemma_settle_fits(g, l, d);
        if settle(g, l, d) is None {
            let c = choose|c: Seq<char>| !(#[trigger] carried_total(g, l, d, c) <= usize::MAX);
            assert(carried_total(g, l, s, c) >= carried_total(g, l, d, c));
        } else {
            let r0 = settle(g, l, d).unwrap();
            lemma_settle_takes(g, l, d);
            lemma_settle_next(g, l, d, x.0);
            assert forall|j: int| 0 <= j < d.len() implies #[trigger] d[j].0 != x.0 by {
                assert(s[j].0 != s[last].0);
            }
            assert(qty(r0.0, x.0) == qty(l, x.0));
            assert forall|c: Seq<char>| #[trigger] qty(to_map(r0.1), c) == carried_total(g, l, d, c) by {
                lemma_settle_sum(g, l, d, c);
            }
            let have = qty(l, x.0);
            assert forall|c: Seq<char>| #[trigger] carried_total(g, l, s, c) == carried_total(g, l, d, c) + carried(
                g,
                l,
                x,
                c,
            ) by {}
            if x.1 <= have {
                assert forall|c: Seq<char>| #[trigger] carried_total(g, l, s, c) <= usize::MAX by {
                    assert(carried_total(g, l, d, c) <= usize::MAX);
                }
            } else if decomposes(g, l, x) {
                let dd = (x.1 - have) as nat;
                let ings = g[x.0].0;
                lemma_add_scaled_fits(r0.1, ings, dd);
                assert forall|c: Seq<char>| #[trigger] carried(g, l, x, c) == listed(ings, c) * dd by {}
                if add_scaled(r0.1, ings, dd) is Some {
                    assert forall|c: Seq<char>| #[trigger] carried_total(g, l, s, c) <= usize::MAX by {
                        assert(qty(to_map(r0.1), c) + listed(ings, c) * dd <= usize::MAX);
                    }
                } else {
                    let c = choose|c: Seq<char>|
                        !(qty(to_map(r0.1), c) + #[trigger] listed(ings, c) * dd <= usize::MAX);
                    assert(carried(g, l, x, c) == listed(ings, c) * dd);
                    assert(qty(to_map(r0.1), c) == carried_total(g, l, d, c));
                    assert(!(carried_total(g, l, s, c) <= usize::MAX));
                }
            } else {
                let dd = (x.1 - have) as nat;
                if qty(to_map(r0.1), x.0) + dd <= usize::MAX {
                    lemma_add_entry_fits(r0.1, x.0, dd);
                    assert forall|c: Seq<char>| #[trigger] carried_total(g, l, s, c) <= usize::MAX by {
                        assert(carried_total(g, l, d, c) <= usize::MAX);
                    }
                } else {
                    assert(!(carried_total(g, l, s, x.0) <= usize::MAX));
                }
            }
        }
    }
}

/// The order in which a round goes through its shortfall entries does not
/// matter: any two orders of the same entries both stay within `usize` or
/// both do not, and then give the same ledger, the same decision on whether
/// to go on, and the same next shortfall as a mapping.
pub proof fn lemma_round_order_independent(g: Graph, l: Map<Seq<char>, nat>, s1: Entries, s2: Entries)
    requires
        keys_distinct(s1),
        keys_distinct(s2),
        to_map(s1) == to_map(s2),
    ensures
        (settle(g, l, s1) is Some) == (settle(g, l, s2) is Some),
        settle(g, l, s1) is Some ==> settle(g, l, s1).unwrap().0 == settle(g, l, s2).unwrap().0,
        settle(g, l, s1) is Some ==> settle(g, l, s1).unwrap().2 == settle(g, l, s2).unwrap().2,
        settle(g, l, s1) is Some ==> to_map(settle(g, l, s1).unwrap().1) == to_map(
            settle(g, l, s2).unwrap().1,
        ),
{
    lemma_settle_fits(g, l, s1);
    lemma_settle_fits(g, l, s2);
    assert forall|c: Seq<char>| #[trigger] carried_total(g, l, s1, c) == carried_total(g, l, s2, c) by {
        lemma_carried_total_perm(g, l, s1, s2, c);
    }
    if settle(g, l, s1) is None {
        let c = choose|c: Seq<char>| !(#[trigger] carried_total(g, l, s1, c) <= usize::MAX);
        assert(!(carried_total(g, l, s2, c) <= usize::MAX));
    }
    if settle(g, l, s2) is None {
        let c = choose|c: Seq<char>| !(#[trigger] carried_total(g, l, s2, c) <= usize::MAX);
        assert(!(carried_total(g, l, s1, c) <= usize::MAX));
    }
    if settle(g, l, s1) is Some {
        lemma_round_same_result(g, l, s1, s2);
    }
}

proof fn lemma_round_same_result(g: Graph, l: Map<Seq<char>, nat>, s1: Entries, s2: Entries)
    requires
        keys_distinct(s1),
        keys_distinct(s2),
        to_map(s1) == to_map(s2),
        settle(g, l, s1) is Some,
        settle(g, l, s2) is Some,
    ensures
        settle(g, l, s1).unwrap().0 == settle(g, l, s2).unwrap().0,
        settle(g, l, s1).unwrap().2 == settle(g, l, s2).unwrap().2,
        to_map(settle(g, l, s1).unwrap().1) == to_map(settle(g, l, s2).unwrap().1),
{
    let r1 = settle(g, l, s1).unwrap();
    let r2 = settle(g, l, s2).unwrap();
    lemma_settle_takes(g, l, s1);
    lemma_settle_takes(g, l, s2);
    assert forall|k: Seq<char>| #[trigger] qty(r1.0, k) == qty(r2.0, k) by {
        if exists|i: int| 0 <= i < s1.len() && #[trigger] s1[i].0 == k {
            let i = choose|i: int| 0 <= i < s1.len() && #[trigger] s1[i].0 == k;
            lemma_same_entries(s1, s2, i);
            let j = find(s2, s1[i].0);
            assert(s2[j].0 == k);
            assert(qty(r1.0, s1[i].0) == qty(l, s1[i].0) - min_nat(qty(l, s1[i].0), s1[i].1));
            assert(qty(r2.0, s2[j].0) == qty(l, s2[j].0) - min_nat(qty(l, s2[j].0), s2[j].1));
        } else if exists|i: int| 0 <= i < s2.len() && #[trigger] s2[i].0 == k {
            let i = choose|i: int| 0 <= i < s2.len() && #[trigger] s2[i].0 == k;
            lemma_same_entries(s2, s1, i);
            let j = find(s1, s2[i].0);
            assert(s1[j].0 == k);
        } else {
            assert(forall|i: int| 0 <= i < s1.len() ==> #[trigger] s1[i].0 != k);
            assert(forall|i: int| 0 <= i < s2.len() ==> #[trigger] s2[i].0 != k);
            assert(qty(r1.0, k) == qty(l, k));
            assert(qty(r2.0, k) == qty(l, k));
        }
    }
    assert forall|k: Seq<char>| r1.0.contains_key(k) implies r1.0[k] == r2.0[k] by {
        assert(qty(r1.0, k) == qty(r2.0, k));
    }
    assert(r1.0 =~= r2.0);
    assert forall|c: Seq<char>| #[trigger] to_map(r1.1).contains_key(c) == to_map(r2.1).contains_key(c) && qty(
        to_map(r1.1),
        c,
    ) == qty(to_map(r2.1), c) by {
        lemma_settle_sum(g, l, s1, c);
        lemma_settle_sum(g, l, s2, c);
        lemma_carried_total_perm(g, l, s1, s2, c);
        if exists|i: int| 0 <= i < s1.len() && touches(g, l, #[trigger] s1[i], c) {
            let i = choose|i: int| 0 <= i < s1.len() && touches(g, l, #[trigger] s1[i], c);
            lemma_same_entries(s1, s2, i);
            let j = find(s2, s1[i].0);
            assert(touches(g, l, s2[j], c));
        }
        if exists|i: int| 0 <= i < s2.len() && touches(g, l, #[trigger] s2[i], c) {
            let i = choose|i: int| 0 <= i < s2.len() && touches(g, l, #[trigger] s2[i], c);
            lemma_same_entries(s2, s1, i);
            let j = find(s1, s2[i].0);
            assert(touches(g, l, s1[j], c));
        }
    }
    assert forall|c: Seq<char>| to_map(r1.1).contains_key(c) implies to_map(r1.1)[c] == to_map(r2.1)[c] by {
        assert(qty(to_map(r1.1), c) == qty(to_map(r2.1), c));
    }
    assert(to_map(r1.1) =~= to_map(r2.1));
    let c0 = Seq::<char>::empty();
    lemma_settle_sum(g, l, s1, c0);
    lemma_settle_sum(g, l, s2, c0);
    if exists|i: int| 0 <= i < s1.len() && decomposes(g, l, #[trigger] s1[i]) {
        let i = choose|i: int| 0 <= i < s1.len() && decomposes(g, l, #[trigger] s1[i]);
        lemma_same_entries(s1, s2, i);
        assert(decomposes(g, l, s2[find(s2, s1[i].0)]));
    }
    if exists|i: int| 0 <= i < s2.len() && decomposes(g, l, #[trigger] s2[i]) {
        let i = choose|i: int| 0 <= i < s2.len() && decomposes(g, l, #[trigger] s2[i]);
        lemma_same_entries(s2, s1, i);
        assert(decomposes(g, l, s1[find(s1, s2[i].0)]));
    }
}

/// Two outcomes agree, a reported shortfall compared as a mapping.
pub open spec fn same_outcome(o1: Outcome, o2: Outcome) -> bool {
    match o1 {
        Outcome::Crafted(a) => o2 is Crafted && o2->Crafted_0 == a,
        Outcome::Short(a) => o2 is Short && to_map(o2->Short_0) == to_map(a),
        Outcome::DepthExceeded => o2 is DepthExceeded,
        Outcome::Overflow => o2 is Overflow,
    }
}

/// Resolution does not depend on the order of the shortfall's entries: two
/// orders of the same shortfall end alike, with the same ledger on success
/// and the same shortfall on failure.
pub proof fn lemma_settle_all_order_independent(
    g: Graph,
    l: Map<Seq<char>, nat>,
    s1: Entries,
    s2: Entries,
    rounds: nat,
)
    requires
        keys_distinct(s1),
        keys_distinct(s2),
        to_map(s1) == to_map(s2),
    ensures
        same_outcome(settle_all(g, l, s1, rounds), settle_all(g, l, s2, rounds)),
    decreases rounds,
{
    if s1.len() == 0 {
        lemma_empty_entries(s1, s2);
    } else if s2.len() == 0 {
        lemma_empty_entries(s2, s1);
    } else {
        lemma_round_order_independent(g, l, s1, s2);
    }
    if s1.len() > 0 && s2.len() > 0 && settle(g, l, s1) is Some {
        let r1 = settle(g, l, s1).unwrap();
        let r2 = settle(g, l, s2).unwrap();
        let c0 = Seq::<char>::empty();
        lemma_settle_next(g, l, s1, c0);
        lemma_settle_next(g, l, s2, c0);
        if r1.1.len() == 0 {
            lemma_empty_entries(r1.1, r2.1);
        }
        if r2.1.len() == 0 {
            lemma_empty_entries(r2.1, r1.1);
        }
        if r1.2 && rounds > 0 {
            lemma_settle_all_order_independent(g, r1.0, r1.1, r2.1, (rounds - 1) as nat);
        }
    }
}

/// Rounds that end in success only ever take from the ledger: every item
/// keeps its entry and none gains.
pub proof fn lemma_settle_all_consumes(g: Graph, l: Map<Seq<char>, nat>, s: Entries, rounds: nat)
    requires
        keys_distinct(s),
        settle_all(g, l, s, rounds) is Crafted,
    ensures
        (settle_all(g, l, s, rounds)->Crafted_0).dom() == l.dom(),
        forall|k: Seq<char>| #[trigger] qty(settle_all(g, l, s, rounds)->Crafted_0, k) <= qty(l, k),
    decreases rounds,
{
    if s.len() > 0 {
        let r = settle(g, l, s).unwrap();
        lemma_settle_takes(g, l, s);
        lemma_settle_next(g, l, s, Seq::<char>::empty());
        assert forall|k: Seq<char>| #[trigger] qty(r.0, k) <= qty(l, k) by {
            if exists|i: int| 0 <= i < s.len() && #[trigger] s[i].0 == k {
                let i = choose|i: int| 0 <= i < s.len() && #[trigger] s[i].0 == k;
                assert(qty(r.0, s[i].0) == qty(l, s[i].0) - min_nat(qty(l, s[i].0), s[i].1));
            } else {
                assert(forall|i: int| 0 <= i < s.len() ==> #[trigger] s[i].0 != k);
            }
        }
        if r.2 && rounds > 0 {
            lemma_settle_all_consumes(g, r.0, r.1, (rounds - 1) as nat);
        }
    }
}

/// A successful craft first consumes ingredients, taking from the ledger and
/// adding nothing, and then adds to each planned item with a recipe exactly
/// its batches times the recipe's yield, changing no other item.
pub proof fn lemma_success_conserves(g: Graph, l: Map<Seq<char>, nat>, plan: Entries, rounds: nat)
    requires
        keys_distinct(plan),
        craft_outcome(g, l, plan, rounds) is Crafted,
    ensures
        ({
            let consumed = settle_all(g, l, expand(g, plan).unwrap(), rounds)->Crafted_0;
            let p = craft_outcome(g, l, plan, rounds)->Crafted_0;
            &&& expand(g, plan) is Some
            &&& settle_all(g, l, expand(g, plan).unwrap(), rounds) is Crafted
            &&& consumed.dom() == l.dom()
            &&& forall|k: Seq<char>| #[trigger] qty(consumed, k) <= qty(l, k)
            &&& forall|i: int|
                0 <= i < plan.len() && g.contains_key(#[trigger] plan[i].0) ==> qty(p, plan[i].0) == qty(
                    consumed,
                    plan[i].0,
                ) + plan[i].1 * g[plan[i].0].1
            &&& forall|k: Seq<char>|
                (forall|i: int| 0 <= i < plan.len() && g.contains_key(#[trigger] plan[i].0) ==> plan[i].0 != k)
                    ==> qty(p, k) == qty(consumed, k)
        }),
{
    let s = expand(g, plan).unwrap();
    lemma_expand_distinct(g, plan);
    lemma_settle_all_consumes(g, l, s, rounds);
    let consumed = settle_all(g, l, s, rounds)->Crafted_0;
    lemma_produce_adds_yield(g, consumed, plan, produce(g, consumed, plan).unwrap());
}

/// The first shortfall has distinct identifiers.
pub proof fn lemma_expand_distinct(g: Graph, plan: Entries)
    requires
        expand(g, plan) is Some,
    ensures
        keys_distinct(expand(g, plan).unwrap()),
    decreases plan.len(),
{
    if plan.len() > 0 {
        lemma_expand_distinct(g, plan.drop_last());
        let k = plan.last().0;
        if g.contains_key(k) {
            lemma_add_scaled_qty(expand(g, plan.drop_last()).unwrap(), g[k].0, plan.last().1, k);
        }
    } else {
        assert(keys_distinct(Seq::<(Seq<char>, nat)>::empty()));
    }
}

/// An item without a recipe that is short in the shortfall is never
/// covered: resolution does not succeed, and when it reports a shortfall
/// the item is in it, undecomposed, with at least its unmet deficit.
pub proof fn lemma_base_item_reported(g: Graph, l: Map<Seq<char>, nat>, s: Entries, rounds: nat, i: int)
    requires
        keys_distinct(s),
        0 <= i < s.len(),
        !g.contains_key(s[i].0),
        qty(l, s[i].0) < s[i].1,
    ensures
        !(settle_all(g, l, s, rounds) is Crafted),
        settle_all(g, l, s, rounds) is Short ==> qty(to_map(settle_all(g, l, s, rounds)->Short_0), s[i].0)
            >= s[i].1 - qty(l, s[i].0),
    decreases rounds,
{
    let k = s[i].0;
    if settle(g, l, s) is Some {
        let r = settle(g, l, s).unwrap();
        lemma_settle_next(g, l, s, k);
        lemma_settle_takes(g, l, s);
        assert(qty(r.0, s[i].0) == qty(l, s[i].0) - min_nat(qty(l, s[i].0), s[i].1));
        assert(qty(to_map(r.1), k) > 0);
        assert(to_map(r.1).contains_key(k));
        lemma_find(r.1, k);
        let j = find(r.1, k);
        assert(r.1[j].1 == qty(to_map(r.1), k));
        if r.2 && rounds > 0 {
            lemma_base_item_reported(g, r.0, r.1, (rounds - 1) as nat, j);
        }
    }
}

} // verus!
