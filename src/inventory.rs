use vstd::prelude::*;

use crate::database::{Graph, RecipeDatabase};
use crate::item_list::{add_entry, find, lemma_find, qty, to_map, Entries, ItemList};

verus! {

/// The ledger after `n` units of `k` are taken from it; an item without an
/// entry keeps having none.
pub open spec fn take_map(m: Map<Seq<char>, nat>, k: Seq<char>, n: nat) -> Map<Seq<char>, nat> {
    if m.contains_key(k) {
        m.insert(k, (m[k] - n) as nat)
    } else {
        m
    }
}

/// The shortfall `s` with `times` batches of the ingredients `ings` added to
/// it, one ingredient after the other; `None` when a quantity outgrows `usize`.
pub open spec fn add_scaled(s: Entries, ings: Entries, times: nat) -> Option<Entries>
    decreases ings.len(),
{
    if ings.len() == 0 {
        Some(s)
    } else {
        match add_scaled(s, ings.drop_last(), times) {
            None => None,
            Some(p) => {
                let k = ings.last().0;
                let n = ings.last().1 * times;
                if qty(to_map(p), k) + n <= usize::MAX {
                    Some(add_entry(p, k, n))
                } else {
                    None
                }
            },
        }
    }
}

/// The first shortfall of a plan: for each planned item that has a recipe,
/// its ingredients times the number of batches.
pub open spec fn expand(g: Graph, plan: Entries) -> Option<Entries>
    decreases plan.len(),
{
    if plan.len() == 0 {
        Some(Seq::empty())
    } else {
        match expand(g, plan.drop_last()) {
            None => None,
            Some(s) => {
                let k = plan.last().0;
                if g.contains_key(k) {
                    add_scaled(s, g[k].0, plan.last().1)
                } else {
                    Some(s)
                }
            },
        }
    }
}

/// One round over the shortfall entries `s`, in order: each entry is taken
/// from the ledger when enough is on hand; otherwise what is on hand is taken
/// and the deficit goes to the next shortfall, as the item's ingredients when
/// it has a recipe with ingredients, else as the item itself. The result is
/// the ledger, the next shortfall, and whether any item was decomposed;
/// `None` when a quantity outgrows `usize`.
pub open spec fn settle(g: Graph, ledger: Map<Seq<char>, nat>, s: Entries) -> Option<
    (Map<Seq<char>, nat>, Entries, bool),
>
    decreases s.len(),
{
    if s.len() == 0 {
        Some((ledger, Seq::empty(), false))
    } else {
        match settle(g, ledger, s.drop_last()) {
            None => None,
            Some(r) => {
                let k = s.last().0;
                let a = s.last().1;
                let have = qty(r.0, k);
                if a <= have {
                    Some((take_map(r.0, k, a), r.1, r.2))
                } else {
                    let l = take_map(r.0, k, have);
                    let d = (a - have) as nat;
                    if g.contains_key(k) && g[k].0.len() > 0 {
                        match add_scaled(r.1, g[k].0, d) {
                            None => None,
                            Some(nx) => Some((l, nx, true)),
                        }
                    } else if qty(to_map(r.1), k) + d <= usize::MAX {
                        Some((l, add_entry(r.1, k, d), r.2))
                    } else {
                        None
                    }
                }
            },
        }
    }
}

/// How a resolution ends.
pub enum Outcome {
    /// Everything was covered; the ledger that results.
    Crafted(Map<Seq<char>, nat>),
    /// A round decomposed nothing and left this shortfall.
    Short(Entries),
    /// More rounds decomposed items than were allowed.
    DepthExceeded,
    /// A quantity outgrew `usize`.
    Overflow,
}

/// Rounds repeated from shortfall `s` until it is empty or a round decomposes
/// nothing, with at most `rounds` rounds that decompose followed by more work.
pub open spec fn settle_all(g: Graph, ledger: Map<Seq<char>, nat>, s: Entries, rounds: nat) -> Outcome
    decreases rounds,
{
    if s.len() == 0 {
        Outcome::Crafted(ledger)
    } else {
        match settle(g, ledger, s) {
            None => Outcome::Overflow,
            Some(r) => {
                if !r.2 {
                    if r.1.len() == 0 {
                        Outcome::Crafted(r.0)
                    } else {
                        Outcome::Short(r.1)
                    }
                } else if rounds == 0 {
                    Outcome::DepthExceeded
                } else {
                    settle_all(g, r.0, r.1, (rounds - 1) as nat)
                }
            },
        }
    }
}

/// The ledger with the output of each planned batch added: the batches times
/// the recipe's yield; `None` when a quantity outgrows `usize`.
pub open spec fn produce(g: Graph, ledger: Map<Seq<char>, nat>, plan: Entries) -> Option<
    Map<Seq<char>, nat>,
>
    decreases plan.len(),
{
    if plan.len() == 0 {
        Some(ledger)
    } else {
        match produce(g, ledger, plan.drop_last()) {
            None => None,
            Some(l) => {
                let k = plan.last().0;
                if g.contains_key(k) {
                    let n = plan.last().1 * g[k].1;
                    if qty(l, k) + n <= usize::MAX {
                        Some(l.insert(k, (qty(l, k) + n) as nat))
                    } else {
                        None
                    }
                } else {
                    Some(l)
                }
            },
        }
    }
}

/// The whole resolution of `plan` against `ledger`: expand, settle, and on
/// success add the products.
pub open spec fn craft_outcome(g: Graph, ledger: Map<Seq<char>, nat>, plan: Entries, rounds: nat) -> Outcome {
    match expand(g, plan) {
        None => Outcome::Overflow,
        Some(s) => match settle_all(g, ledger, s, rounds) {
            Outcome::Crafted(l) => match produce(g, l, plan) {
                None => Outcome::Overflow,
                Some(p) => Outcome::Crafted(p),
            },
            o => o,
        },
    }
}

pub proof fn lemma_add_scaled_none(s: Entries, ings: Entries, times: nat, j: int)
    requires
        0 <= j <= ings.len(),
        add_scaled(s, ings.take(j), times) is None,
    ensures
        add_scaled(s, ings, times) is None,
    decreases ings.len() - j,
{
    if j == ings.len() {
        assert(ings.take(j) =~= ings);
    } else {
        assert(ings.take(j + 1).drop_last() =~= ings.take(j));
        lemma_add_scaled_none(s, ings, times, j + 1);
    }
}

pub proof fn lemma_expand_none(g: Graph, plan: Entries, j: int)
    requires
        0 <= j <= plan.len(),
        expand(g, plan.take(j)) is None,
    ensures
        expand(g, plan) is None,
    decreases plan.len() - j,
{
    if j == plan.len() {
        assert(plan.take(j) =~= plan);
    } else {
        assert(plan.take(j + 1).drop_last() =~= plan.take(j));
        lemma_expand_none(g, plan, j + 1);
    }
}

pub proof fn lemma_settle_none(g: Graph, ledger: Map<Seq<char>, nat>, s: Entries, j: int)
    requires
        0 <= j <= s.len(),
        settle(g, ledger, s.take(j)) is None,
    ensures
        settle(g, ledger, s) is None,
    decreases s.len() - j,
{
    if j == s.len() {
        assert(s.take(j) =~= s);
    } else {
        assert(s.take(j + 1).drop_last() =~= s.take(j));
        lemma_settle_none(g, ledger, s, j + 1);
    }
}

pub proof fn lemma_produce_none(g: Graph, ledger: Map<Seq<char>, nat>, plan: Entries, j: int)
    requires
        0 <= j <= plan.len(),
        produce(g, ledger, plan.take(j)) is None,
    ensures
        produce(g, ledger, plan) is None,
    decreases plan.len() - j,
{
    if j == plan.len() {
        assert(plan.take(j) =~= plan);
    } else {
        assert(plan.take(j + 1).drop_last() =~= plan.take(j));
        lemma_produce_none(g, ledger, plan, j + 1);
    }
}

/// Adds `times` batches of the ingredients `ings` to the shortfall `next`.
/// Returns false when a quantity would outgrow `usize`.
fn add_batches(next: &mut ItemList, ings: &ItemList, times: usize) -> (ok: bool)
    requires
        old(next).wf(),
        ings.wf(),
    ensures
        final(next).wf(),
        ok == (add_scaled(old(next).entries(), ings.entries(), times as nat) is Some),
        ok ==> add_scaled(old(next).entries(), ings.entries(), times as nat) == Some(
            final(next).entries(),
        ),
{
    let ghost e0 = old(next).entries();
    let ghost ie = ings.entries();
    let mut j: usize = 0;
    assert(ie.take(0) =~= Seq::<(Seq<char>, nat)>::empty());
    while j < ings.len()
        invariant
            next.wf(),
            ings.wf(),
            ie == ings.entries(),
            e0 == old(next).entries(),
            j <= ie.len(),
            add_scaled(e0, ie.take(j as int), times as nat) == Some(next.entries()),
        decreases ie.len() - j,
    {
        let k = ings.name_at(j);
        let c = ings.count_at(j);
        proof {
            assert(ie.take(j + 1).drop_last() =~= ie.take(j as int));
            assert(ie.take(j + 1).last() == ie[j as int]);
        }
        match c.checked_mul(times) {
            None => {
                proof {
                    assert(add_scaled(e0, ie.take(j + 1), times as nat) is None);
                    lemma_add_scaled_none(e0, ie, times as nat, j + 1);
                }
                return false;
            },
            Some(n) => {
                let cur = next.amount(k.as_str());
                if cur > usize::MAX - n {
                    proof {
                        assert(add_scaled(e0, ie.take(j + 1), times as nat) is None);
                        lemma_add_scaled_none(e0, ie, times as nat, j + 1);
                    }
                    return false;
                }
                next.add(k.as_str(), n);
            },
        }
        j = j + 1;
    }
    assert(ie.take(j as int) =~= ie);
    true
}

/// Why a plan could not be crafted.
pub enum CraftError {
    /// Items that are missing, at the most refined level that decomposition
    /// reached.
    Missing(ItemList),
    /// Items kept decomposing for more rounds than there are recipes, which
    /// only a recipe graph with a cycle can cause.
    DepthExceeded,
    /// A quantity outgrew `usize`.
    Overflow,
}

/// A crafting request: the plan (item to number of batches) and the stock
/// to craft it from.
pub struct Input {
    pub recipes: ItemList,
    pub inventory: Inventory,
}

/// The stock: how many of each item is on hand.
pub struct Inventory {
    pub items: ItemList,
}

impl Inventory {
    pub open spec fn view(&self) -> Map<Seq<char>, nat> {
        self.items@
    }

    /// Takes `count` units of `item` when at least that many are on hand;
    /// otherwise changes nothing and reports how many are on hand.
    pub fn take(&mut self, item: &str, count: usize) -> (r: Result<(), usize>)
        requires
            old(self).items.wf(),
        ensures
            final(self).items.wf(),
            count <= qty(old(self)@, item@) ==> r == Ok::<(), usize>(()) && final(self)@ == take_map(
                old(self)@,
                item@,
                count as nat,
            ),
            count > qty(old(self)@, item@) ==> r == Err::<(), usize>(qty(old(self)@, item@) as usize)
                && final(self)@ == old(self)@,
    {
        proof {
            lemma_find(self.items.entries(), item@);
            self.items.lemma_wf();
        }
        match self.items.find_index(item) {
            Some(i) => {
                let amount = self.items.count_at(i);
                if amount >= count {
                    self.items.set_count_at(i, amount - count);
                    Ok(())
                } else {
                    Err(amount)
                }
            },
            None => {
                if count == 0 {
                    Ok(())
                } else {
                    Err(0)
                }
            },
        }
    }

    /// Adds `count` units of `item`.
    pub fn add(&mut self, item: &str, count: usize)
        requires
            old(self).items.wf(),
            qty(old(self)@, item@) + count <= usize::MAX,
        ensures
            final(self).items.wf(),
            final(self)@ == old(self)@.insert(item@, (qty(old(self)@, item@) + count) as nat),
    {
        self.items.add(item, count);
    }

    /// Crafts the batches of `recipe` (item to number of batches) with the
    /// recipes of `recipes`. Missing ingredients are replaced, round by round,
    /// by their own ingredients. On success the ingredients are consumed and
    /// each planned item gains its batches times its yield; on failure the
    /// stock is left exactly as it was. Rounds that decompose are bounded by
    /// the number of recipes: a longer chain of decompositions must repeat an
    /// item, so only a cyclic recipe graph reaches the bound.
    pub fn craft(&mut self, recipe: ItemList, recipes: &RecipeDatabase) -> (r: Result<(), CraftError>)
        requires
            old(self).items.wf(),
            recipe.wf(),
            recipes.wf(),
        ensures
            final(self).items.wf(),
            r is Err ==> final(self).items.entries() == old(self).items.entries(),
            match craft_outcome(recipes@, old(self)@, recipe.entries(), recipes.count()) {
                Outcome::Crafted(l) => r is Ok && final(self)@ == l,
                Outcome::Short(m) => match r {
                    Err(CraftError::Missing(x)) => x.wf() && x.entries() == m,
                    _ => false,
                },
                Outcome::DepthExceeded => r matches Err(CraftError::DepthExceeded),
                Outcome::Overflow => r matches Err(CraftError::Overflow),
            },
    {
        let ghost g = recipes@;
        let ghost l0 = self@;
        let ghost plan = recipe.entries();
        let original = self.items.duplicate();

        let mut missing = ItemList::new();
        let mut i: usize = 0;
        assert(plan.take(0) =~= Seq::<(Seq<char>, nat)>::empty());
        while i < recipe.len()
            invariant
                recipe.wf(),
                recipes.wf(),
                missing.wf(),
                plan == recipe.entries(),
                g == recipes@,
                *self == *old(self),
                self.items.wf(),
                l0 == old(self)@,
                i <= plan.len(),
                expand(g, plan.take(i as int)) == Some(missing.entries()),
            decreases plan.len() - i,
        {
            let item = recipe.name_at(i);
            let amount = recipe.count_at(i);
            proof {
                assert(plan.take(i + 1).drop_last() =~= plan.take(i as int));
                assert(plan.take(i + 1).last() == plan[i as int]);
            }
            match recipes.get(item.as_str()) {
                Some(rec) => {
                    if !add_batches(&mut missing, &rec.ingredients, amount) {
                        proof {
                            lemma_expand_none(g, plan, i + 1);
                        }
                        return Err(CraftError::Overflow);
                    }
                },
                None => {},
            }
            i = i + 1;
        }
        assert(plan.take(i as int) =~= plan);
        let ghost start = missing.entries();

        let mut rounds: usize = recipes.len();
        loop
            invariant_except_break
                settle_all(g, l0, start, recipes.count()) == settle_all(
                    g,
                    self@,
                    missing.entries(),
                    rounds as nat,
                ),
            invariant
                recipe.wf(),
                plan == recipe.entries(),
                l0 == old(self)@,
                expand(g, plan) == Some(start),
                self.items.wf(),
                missing.wf(),
                recipes.wf(),
                original.wf(),
                g == recipes@,
                original.entries() == old(self).items.entries(),
            ensures
                recipe.wf(),
                plan == recipe.entries(),
                l0 == old(self)@,
                expand(g, plan) == Some(start),
                self.items.wf(),
                missing.wf(),
                recipes.wf(),
                original.wf(),
                original.entries() == old(self).items.entries(),
                settle_all(g, l0, start, recipes.count()) == if missing.entries().len() == 0 {
                    Outcome::Crafted(self@)
                } else {
                    Outcome::Short(missing.entries())
                },
            decreases rounds,
        {
            if missing.is_empty() {
                break;
            }
            let ghost lr = self@;
            let ghost sr = missing.entries();
            let mut next = ItemList::new();
            let mut progress = false;
            let mut j: usize = 0;
            assert(sr.take(0) =~= Seq::<(Seq<char>, nat)>::empty());
            while j < missing.len()
                invariant
                    self.items.wf(),
                    missing.wf(),
                    next.wf(),
                    recipes.wf(),
                    original.wf(),
                    g == recipes@,
                    original.entries() == old(self).items.entries(),
                    sr == missing.entries(),
                    sr.len() > 0,
                    recipe.wf(),
                    plan == recipe.entries(),
                    l0 == old(self)@,
                    expand(g, plan) == Some(start),
                    settle_all(g, l0, start, recipes.count()) == settle_all(g, lr, sr, rounds as nat),
                    j <= sr.len(),
                    settle(g, lr, sr.take(j as int)) == Some((self@, next.entries(), progress)),
                decreases sr.len() - j,
            {
                let item = missing.name_at(j);
                let amount = missing.count_at(j);
                proof {
                    assert(sr.take(j + 1).drop_last() =~= sr.take(j as int));
                    assert(sr.take(j + 1).last() == sr[j as int]);
                }
                match self.take(item.as_str(), amount) {
                    Ok(()) => {},
                    Err(present) => {
                        let _ = self.take(item.as_str(), present);
                        let deficit = amount - present;
                        let mut decomposed = false;
                        match recipes.get(item.as_str()) {
                            Some(rec) => {
                                if !rec.ingredients.is_empty() {
                                    if !add_batches(&mut next, &rec.ingredients, deficit) {
                                        proof {
                                            lemma_settle_none(g, lr, sr, j + 1);
                                        }
                                        self.items = original;
                                        return Err(CraftError::Overflow);
                                    }
                                    progress = true;
                                    decomposed = true;
                                }
                            },
                            None => {},
                        }
                        if !decomposed {
                            let cur = next.amount(item.as_str());
                            if cur > usize::MAX - deficit {
                                proof {
                                    lemma_settle_none(g, lr, sr, j + 1);
                                }
                                self.items = original;
                                return Err(CraftError::Overflow);
                            }
                            next.add(item.as_str(), deficit);
                        }
                    },
                }
                j = j + 1;
            }
            assert(sr.take(j as int) =~= sr);
            missing = next;
            if !progress {
                break;
            }
            if rounds == 0 {
                self.items = original;
                return Err(CraftError::DepthExceeded);
            }
            rounds = rounds - 1;
        }

        if !missing.is_empty() {
            self.items = original;
            return Err(CraftError::Missing(missing));
        }

        let ghost l1 = self@;
        let mut i: usize = 0;
        assert(plan.take(0) =~= Seq::<(Seq<char>, nat)>::empty());
        while i < recipe.len()
            invariant
                recipe.wf(),
                recipes.wf(),
                self.items.wf(),
                original.wf(),
                original.entries() == old(self).items.entries(),
                plan == recipe.entries(),
                g == recipes@,
                l0 == old(self)@,
                expand(g, plan) == Some(start),
                settle_all(g, l0, start, recipes.count()) == Outcome::Crafted(l1),
                i <= plan.len(),
                produce(g, l1, plan.take(i as int)) == Some(self@),
            decreases plan.len() - i,
        {
            let item = recipe.name_at(i);
            let amount = recipe.count_at(i);
            proof {
                assert(plan.take(i + 1).drop_last() =~= plan.take(i as int));
                assert(plan.take(i + 1).last() == plan[i as int]);
            }
            match recipes.get(item.as_str()) {
                Some(rec) => {
                    let made = amount.checked_mul(rec.result_count);
                    let fits = match made {
                        Some(n) => self.items.amount(item.as_str()) <= usize::MAX - n,
                        None => false,
                    };
                    if !fits {
                        proof {
                            lemma_produce_none(g, l1, plan, i + 1);
                        }
                        self.items = original;
                        return Err(CraftError::Overflow);
                    }
                    self.add(item.as_str(), made.unwrap());
                },
                None => {},
            }
            i = i + 1;
        }
        assert(plan.take(i as int) =~= plan);
        Ok(())
    }
}

} // verus!