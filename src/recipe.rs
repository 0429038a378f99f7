use vstd::prelude::*;

use crate::item_list::{Entries, ItemList};

verus! {

/// How one item is made: the ingredients one batch consumes, and how many
/// units a batch yields.
pub struct Recipe {
    pub ingredients: ItemList,
    pub result_count: usize,
}

impl Recipe {
    /// The ingredient entries and the yield per batch.
    pub open spec fn view(&self) -> (Entries, nat) {
        (self.ingredients.entries(), self.result_count as nat)
    }

    pub fn new(ingredients: ItemList, result_count: usize) -> (r: Recipe)
        ensures
            r.ingredients == ingredients,
            r.result_count == result_count,
    {
        Recipe { ingredients, result_count }
    }
}

} // verus!
