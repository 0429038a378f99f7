use vstd::prelude::*;

use crate::item_list::{find, keys_distinct, lemma_find, lemma_find_push, Entries};
use crate::recipe::Recipe;

verus! {

/// The recipe graph: the spec view of an item's recipe, by item identifier.
pub type Graph = Map<Seq<char>, (Entries, nat)>;

/// All known recipes, at most one for each item. Items without a recipe are
/// base items.
pub struct RecipeDatabase {
    names: Vec<String>,
    recipes: Vec<Recipe>,
}

impl RecipeDatabase {
    /// The item names, each paired with its position.
    pub closed spec fn index(&self) -> Entries {
        Seq::new(self.names.len() as nat, |i: int| (self.names[i]@, i as nat))
    }

    /// Number of recipes held.
    pub closed spec fn count(&self) -> nat {
        self.names.len() as nat
    }

    pub closed spec fn wf(&self) -> bool {
        &&& self.names.len() == self.recipes.len()
        &&& keys_distinct(self.index())
        &&& forall|i: int| 0 <= i < self.recipes.len() ==> #[trigger] self.recipes[i].ingredients.wf()
    }

    pub closed spec fn view(&self) -> Graph {
        Map::new(
            |k: Seq<char>| find(self.index(), k) >= 0,
            |k: Seq<char>| self.recipes[find(self.index(), k)]@,
        )
    }

    pub fn new() -> (r: RecipeDatabase)
        ensures
            r.wf(),
            r@ == Graph::empty(),
            r.count() == 0,
    {
        let r = RecipeDatabase { names: Vec::new(), recipes: Vec::new() };
        assert(r@ =~= Graph::empty());
        r
    }

    pub fn len(&self) -> (r: usize)
        ensures
            r == self.count(),
    {
        self.names.len()
    }

    /// Position of the recipe for `item`.
    fn position(&self, item: &str) -> (r: Option<usize>)
        requires
            self.wf(),
        ensures
            match r {
                Some(i) => i == find(self.index(), item@),
                None => find(self.index(), item@) == -1,
            },
    {
        let key = item.to_string();
        let mut i: usize = self.names.len();
        assert(self.index().take(i as int) =~= self.index());
        while i > 0
            invariant
                self.wf(),
                key@ == item@,
                i <= self.index().len(),
                find(self.index().take(i as int), item@) == find(self.index(), item@),
            decreases i,
        {
            let ghost t = self.index().take(i as int);
            assert(t.last() == self.index()[i - 1]);
            if self.names[i - 1] == key {
                return Some(i - 1);
            }
            assert(t.drop_last() =~= self.index().take(i - 1));
            i = i - 1;
        }
        assert(self.index().take(0) =~= Seq::<(Seq<char>, nat)>::empty());
        None
    }

    /// The recipe for `item`, or `None` when `item` is a base item.
    pub fn get(&self, item: &str) -> (r: Option<&Recipe>)
        requires
            self.wf(),
        ensures
            r.is_some() == self@.contains_key(item@),
            r.is_some() ==> r.unwrap()@ == self@[item@] && r.unwrap().ingredients.wf(),
    {
        proof {
            lemma_find(self.index(), item@);
        }
        match self.position(item) {
            Some(i) => Some(&self.recipes[i]),
            None => None,
        }
    }

    /// Stores `recipe` as the recipe for `item`, replacing any earlier one.
    pub fn insert(&mut self, item: &str, recipe: Recipe)
        requires
            old(self).wf(),
            recipe.ingredients.wf(),
        ensures
            final(self).wf(),
            final(self)@ == old(self)@.insert(item@, recipe@),
            final(self).count() <= old(self).count() + 1,
    {
        let ghost e = self.index();
        let ghost r = recipe@;
        proof {
            lemma_find(e, item@);
        }
        let pos = self.position(item);
        if let Some(i) = pos {
            let ghost old_recipes = self.recipes@;
            self.recipes.set(i, recipe);
            proof {
                assert(self.index() == e);
                assert forall|j: int| 0 <= j < self.recipes.len() implies #[trigger] self.recipes[j].ingredients.wf() by {
                    if j != i {
                        assert(self.recipes[j] == old_recipes[j]);
                    }
                }
                assert forall|k: Seq<char>| #[trigger] self@.contains_key(k) implies self@[k]
                    == old(self)@.insert(item@, r)[k] by {
                    lemma_find(e, k);
                }
                assert(self@ =~= old(self)@.insert(item@, r));
            }
        } else {
            let ghost old_recipes = self.recipes@;
            self.names.push(item.to_string());
            self.recipes.push(recipe);
            proof {
                let n = e.len();
                assert(self.index() =~= e.push((item@, n)));
                lemma_find(e, item@);
                assert forall|j: int| 0 <= j < self.index().len() && 0 <= j < n implies self.index()[j].0 != item@ by {}
                assert(keys_distinct(self.index()));
                assert forall|j: int| 0 <= j < self.recipes.len() implies #[trigger] self.recipes[j].ingredients.wf() by {
                    if j < n {
                        assert(self.recipes[j] == old_recipes[j]);
                    }
                }
                assert forall|k: Seq<char>| #[trigger] self@.contains_key(k) == old(self)@.insert(item@, r).contains_key(k)
                    && (self@.contains_key(k) ==> self@[k] == old(self)@.insert(item@, r)[k]) by {
                    lemma_find_push(e, item@, n, k);
                    lemma_find(e, k);
                }
                assert(self@ =~= old(self)@.insert(item@, r));
            }
        }
    }

    /// Takes every recipe of `other` into this database; where both hold a
    /// recipe for the same item, the one from `other` wins.
    pub fn add(&mut self, recipes: RecipeDatabase)
        requires
            old(self).wf(),
            recipes.wf(),
        ensures
            final(self).wf(),
            final(self)@ == old(self)@.union_prefer_right(recipes@),
    {
        let mut other = recipes;
        while other.names.len() > 0
            invariant
                self.wf(),
                other.wf(),
                old(self)@.union_prefer_right(recipes@) == self@.union_prefer_right(other@),
            decreases other.names.len(),
        {
            let ghost e = other.index();
            let ghost before = other@;
            let ghost n = (e.len() - 1) as nat;
            let ghost old_recipes = other.recipes@;
            let name = other.names.pop().unwrap();
            let recipe = other.recipes.pop().unwrap();
            proof {
                assert(other.index() =~= e.take(n as int));
                assert(e =~= other.index().push((name@, n)));
                assert(e[n as int].0 == name@);
                lemma_find(e, name@);
                assert(keys_distinct(other.index()));
                assert forall|j: int| 0 <= j < other.recipes.len() implies #[trigger] other.recipes[j].ingredients.wf() by {
                    assert(other.recipes[j] == old_recipes[j]);
                }
                assert(recipe.ingredients.wf());
                assert forall|k: Seq<char>| #[trigger] before.contains_key(k) == other@.insert(name@, recipe@).contains_key(k)
                    && (before.contains_key(k) ==> before[k] == other@.insert(name@, recipe@)[k]) by {
                    lemma_find_push(other.index(), name@, n, k);
                    lemma_find(other.index(), k);
                }
                assert(before =~= other@.insert(name@, recipe@));
                lemma_find(other.index(), name@);
                assert forall|j: int| 0 <= j < n implies #[trigger] other.index()[j].0 != name@ by {
                    assert(e[j].0 != e[n as int].0);
                }
                assert(!other@.contains_key(name@));
            }
            let ghost mid = self@;
            self.insert(name.as_str(), recipe);
            proof {
                assert(mid.union_prefer_right(before) =~= self@.union_prefer_right(other@));
            }
        }
        proof {
            assert(other@ =~= Graph::empty());
            assert(self@.union_prefer_right(other@) =~= self@);
        }
    }
}

} // verus!
