use vstd::prelude::*;

verus! {

/// Item identifiers with quantities, in storage order.
pub type Entries = Seq<(Seq<char>, nat)>;

/// Quantity of `k` in `m`, where an absent key counts as zero.
pub open spec fn qty(m: Map<Seq<char>, nat>, k: Seq<char>) -> nat {
    if m.contains_key(k) {
        m[k]
    } else {
        0
    }
}

/// Index of the last entry named `k`, or -1 when there is none.
pub open spec fn find(e: Entries, k: Seq<char>) -> int
    decreases e.len(),
{
    if e.len() == 0 {
        -1
    } else if e.last().0 == k {
        e.len() - 1
    } else {
        find(e.drop_last(), k)
    }
}

/// No two entries share an identifier.
pub open spec fn keys_distinct(e: Entries) -> bool {
    forall|i: int, j: int| 0 <= i < e.len() && 0 <= j < e.len() && i != j ==> e[i].0 != e[j].0
}

/// The mapping from identifier to quantity that an entry sequence describes.
pub open spec fn to_map(e: Entries) -> Map<Seq<char>, nat> {
    Map::new(|k: Seq<char>| find(e, k) >= 0, |k: Seq<char>| e[find(e, k)].1)
}

/// Adds `n` to the entry named `k`, appending a new entry when there is none.
pub open spec fn add_entry(e: Entries, k: Seq<char>, n: nat) -> Entries {
    let i = find(e, k);
    if i >= 0 {
        e.update(i, (k, e[i].1 + n))
    } else {
        e.push((k, n))
    }
}

pub proof fn lemma_find(e: Entries, k: Seq<char>)
    ensures
        -1 <= find(e, k) < e.len(),
        find(e, k) >= 0 ==> e[find(e, k)].0 == k,
        find(e, k) == -1 <==> (forall|i: int| 0 <= i < e.len() ==> e[i].0 != k),
        keys_distinct(e) ==> forall|i: int| 0 <= i < e.len() && e[i].0 == k ==> find(e, k) == i,
    decreases e.len(),
{
    if e.len() > 0 {
        let d = e.drop_last();
        lemma_find(d, k);
        assert forall|i: int| 0 <= i < d.len() implies d[i] == e[i] by {}
        if keys_distinct(e) {
            assert(keys_distinct(d));
        }
    }
}

/// Looking up in a sequence extended by one entry.
pub proof fn lemma_find_push(e: Entries, k: Seq<char>, n: nat, j: Seq<char>)
    ensures
        find(e.push((k, n)), j) == if j == k { e.len() as int } else { find(e, j) },
{
    assert(e.push((k, n)).drop_last() =~= e);
}

/// Changing the quantity of one entry changes that key of the mapping alone.
pub proof fn lemma_to_map_update(e: Entries, i: int, v: nat)
    requires
        keys_distinct(e),
        0 <= i < e.len(),
    ensures
        keys_distinct(e.update(i, (e[i].0, v))),
        to_map(e.update(i, (e[i].0, v))) == to_map(e).insert(e[i].0, v),
{
    let u = e.update(i, (e[i].0, v));
    assert forall|j: int| 0 <= j < e.len() implies #[trigger] u[j].0 == e[j].0 by {}
    assert(keys_distinct(u));
    assert forall|k: Seq<char>| #[trigger] find(u, k) == find(e, k) by {
        lemma_find(e, k);
        lemma_find(u, k);
        if find(e, k) >= 0 {
            assert(u[find(e, k)].0 == k);
        }
    }
    assert forall|k: Seq<char>| #[trigger] to_map(u).contains_key(k) implies to_map(u)[k]
        == to_map(e).insert(e[i].0, v)[k] by {
        lemma_find(e, k);
        lemma_find(u, k);
    }
    lemma_find(e, e[i].0);
    assert(to_map(u) =~= to_map(e).insert(e[i].0, v));
}

/// Appending an entry with a new identifier adds that key to the mapping.
pub proof fn lemma_to_map_push(e: Entries, k: Seq<char>, n: nat)
    requires
        find(e, k) == -1,
    ensures
        keys_distinct(e) ==> keys_distinct(e.push((k, n))),
        to_map(e.push((k, n))) == to_map(e).insert(k, n),
{
    let u = e.push((k, n));
    lemma_find(e, k);
    assert(u.drop_last() =~= e);
    assert forall|j: Seq<char>| j != k implies #[trigger] find(u, j) == find(e, j) by {}
    assert forall|j: Seq<char>| #[trigger] to_map(u).contains_key(j) implies to_map(u)[j]
        == to_map(e).insert(k, n)[j] by {
        lemma_find(e, j);
        if j != k {
            assert(find(u, j) == find(e, j));
        }
    }
    assert(to_map(u) =~= to_map(e).insert(k, n));
}

/// Removing an entry removes its key from the mapping.
pub proof fn lemma_to_map_remove(e: Entries, j: int)
    requires
        keys_distinct(e),
        0 <= j < e.len(),
    ensures
        keys_distinct(e.remove(j)),
        to_map(e.remove(j)) == to_map(e).remove(e[j].0),
{
    let u = e.remove(j);
    assert forall|i: int| 0 <= i < u.len() implies #[trigger] u[i] == if i < j { e[i] } else { e[i + 1] } by {}
    assert(keys_distinct(u));
    assert forall|k: Seq<char>| #[trigger] to_map(u).contains_key(k) == to_map(e).remove(e[j].0).contains_key(k) && (
    to_map(u).contains_key(k) ==> to_map(u)[k] == to_map(e)[k]) by {
        lemma_find(e, k);
        lemma_find(u, k);
        if find(u, k) >= 0 {
            let i = find(u, k);
            let ie = if i < j { i } else { i + 1 };
            assert(e[ie] == u[i]);
        }
        if find(e, k) >= 0 && k != e[j].0 {
            let i = find(e, k);
            let iu = if i < j { i } else { i - 1 };
            assert(u[iu] == e[i]);
        }
    }
    assert(to_map(u) =~= to_map(e).remove(e[j].0));
}

/// What adding to an entry does to the mapping.
pub proof fn lemma_add_entry(e: Entries, k: Seq<char>, n: nat)
    requires
        keys_distinct(e),
    ensures
        keys_distinct(add_entry(e, k, n)),
        to_map(add_entry(e, k, n)) == to_map(e).insert(k, qty(to_map(e), k) + n),
{
    lemma_find(e, k);
    if find(e, k) >= 0 {
        lemma_to_map_update(e, find(e, k), e[find(e, k)].1 + n);
    } else {
        lemma_to_map_push(e, k, n);
    }
}

/// A mapping from item identifiers to quantities, kept as entries with
/// distinct identifiers in the order in which they were first added.
pub struct ItemList {
    names: Vec<String>,
    counts: Vec<usize>,
}

impl ItemList {
    /// The entries, in storage order.
    pub closed spec fn entries(&self) -> Entries {
        Seq::new(self.names.len() as nat, |i: int| (self.names[i]@, self.counts[i] as nat))
    }

    pub closed spec fn wf(&self) -> bool {
        &&& self.names.len() == self.counts.len()
        &&& keys_distinct(self.entries())
    }

    pub open spec fn view(&self) -> Map<Seq<char>, nat> {
        to_map(self.entries())
    }

    pub proof fn lemma_wf(&self)
        requires
            self.wf(),
        ensures
            keys_distinct(self.entries()),
            forall|i: int| 0 <= i < self.entries().len() ==> self.entries()[i].1 <= usize::MAX,
    {
    }

    pub fn new() -> (r: ItemList)
        ensures
            r.wf(),
            r.entries() == Seq::<(Seq<char>, nat)>::empty(),
            r@ == Map::<Seq<char>, nat>::empty(),
    {
        let r = ItemList { names: Vec::new(), counts: Vec::new() };
        assert(r.entries() =~= Seq::<(Seq<char>, nat)>::empty());
        assert(r@ =~= Map::<Seq<char>, nat>::empty());
        r
    }

    pub fn len(&self) -> (r: usize)
        requires
            self.wf(),
        ensures
            r == self.entries().len(),
    {
        self.names.len()
    }

    pub fn is_empty(&self) -> (r: bool)
        requires
            self.wf(),
        ensures
            r == (self.entries().len() == 0),
            r == (self@ == Map::<Seq<char>, nat>::empty()),
    {
        proof {
            if self.entries().len() > 0 {
                let k = self.entries()[0].0;
                lemma_find(self.entries(), k);
                assert(self@.contains_key(k));
            } else {
                assert(self@ =~= Map::<Seq<char>, nat>::empty());
            }
        }
        self.names.len() == 0
    }

    pub fn name_at(&self, i: usize) -> (r: &String)
        requires
            self.wf(),
            i < self.entries().len(),
        ensures
            r@ == self.entries()[i as int].0,
    {
        &self.names[i]
    }

    pub fn count_at(&self, i: usize) -> (r: usize)
        requires
            self.wf(),
            i < self.entries().len(),
        ensures
            r == self.entries()[i as int].1,
    {
        self.counts[i]
    }

    /// A copy with the same entries in the same order.
    pub fn duplicate(&self) -> (r: ItemList)
        requires
            self.wf(),
        ensures
            r.wf(),
            r.entries() == self.entries(),
    {
        let mut names: Vec<String> = Vec::new();
        let mut counts: Vec<usize> = Vec::new();
        let mut i: usize = 0;
        while i < self.names.len()
            invariant
                self.wf(),
                i <= self.names.len(),
                names.len() == i,
                counts.len() == i,
                forall|j: int| 0 <= j < i ==> #[trigger] names[j]@ == self.names[j]@,
                forall|j: int| 0 <= j < i ==> #[trigger] counts[j] == self.counts[j],
            decreases self.names.len() - i,
        {
            let name = self.names[i].clone();
            assert(name@ == self.names[i as int]@);
            let ghost pn = names@;
            let ghost pc = counts@;
            names.push(name);
            counts.push(self.counts[i]);
            assert forall|j: int| 0 <= j < i + 1 implies #[trigger] names[j]@ == self.names[j]@ by {
                if j < i {
                    assert(names[j] == pn[j]);
                }
            }
            assert forall|j: int| 0 <= j < i + 1 implies #[trigger] counts[j] == self.counts[j] by {
                if j < i {
                    assert(counts[j] == pc[j]);
                }
            }
            i = i + 1;
        }
        let r = ItemList { names, counts };
        assert(r.entries() =~= self.entries());
        r
    }

    /// Position of the entry named `item`.
    pub fn find_index(&self, item: &str) -> (r: Option<usize>)
        requires
            self.wf(),
        ensures
            match r {
                Some(i) => i == find(self.entries(), item@),
                None => find(self.entries(), item@) == -1,
            },
    {
        let key = item.to_string();
        let mut i: usize = self.names.len();
        assert(self.entries().take(i as int) =~= self.entries());
        while i > 0
            invariant
                self.wf(),
                key@ == item@,
                i <= self.entries().len(),
                find(self.entries().take(i as int), item@) == find(self.entries(), item@),
            decreases i,
        {
            let ghost t = self.entries().take(i as int);
            assert(t.last() == self.entries()[i - 1]);
            if self.names[i - 1] == key {
                return Some(i - 1);
            }
            assert(t.drop_last() =~= self.entries().take(i - 1));
            i = i - 1;
        }
        assert(self.entries().take(0) =~= Seq::<(Seq<char>, nat)>::empty());
        None
    }

    /// Quantity recorded for `item`, if it has an entry.
    pub fn get(&self, item: &str) -> (r: Option<usize>)
        requires
            self.wf(),
        ensures
            r.is_some() == self@.contains_key(item@),
            r.is_some() ==> r.unwrap() == self@[item@],
    {
        match self.find_index(item) {
            Some(i) => {
                proof {
                    lemma_find(self.entries(), item@);
                }
                Some(self.counts[i])
            },
            None => None,
        }
    }

    /// Quantity recorded for `item`, zero when it has no entry.
    pub fn amount(&self, item: &str) -> (r: usize)
        requires
            self.wf(),
        ensures
            r == qty(self@, item@),
    {
        match self.get(item) {
            Some(n) => n,
            None => 0,
        }
    }

    /// Replaces the quantity of the entry at `i`.
    pub fn set_count_at(&mut self, i: usize, count: usize)
        requires
            old(self).wf(),
            i < old(self).entries().len(),
        ensures
            final(self).wf(),
            final(self).entries() == old(self).entries().update(
                i as int,
                (old(self).entries()[i as int].0, count as nat),
            ),
            final(self)@ == old(self)@.insert(old(self).entries()[i as int].0, count as nat),
    {
        let ghost e = self.entries();
        self.counts.set(i, count);
        proof {
            assert(self.entries() =~= e.update(i as int, (e[i as int].0, count as nat)));
            lemma_to_map_update(e, i as int, count as nat);
        }
    }

    /// Sets the quantity of `item` to `count`, adding an entry when there is none.
    pub fn insert(&mut self, item: &str, count: usize)
        requires
            old(self).wf(),
        ensures
            final(self).wf(),
            final(self)@ == old(self)@.insert(item@, count as nat),
    {
        match self.find_index(item) {
            Some(i) => {
                proof {
                    lemma_find(self.entries(), item@);
                }
                self.set_count_at(i, count);
            },
            None => {
                let ghost e = self.entries();
                self.names.push(item.to_string());
                self.counts.push(count);
                proof {
                    assert(self.entries() =~= e.push((item@, count as nat)));
                    lemma_to_map_push(e, item@, count as nat);
                }
            },
        }
    }

    /// Adds `count` to the quantity of `item`, adding an entry when there is none.
    pub fn add(&mut self, item: &str, count: usize)
        requires
            old(self).wf(),
            qty(old(self)@, item@) + count <= usize::MAX,
        ensures
            final(self).wf(),
            final(self).entries() == add_entry(old(self).entries(), item@, count as nat),
            final(self)@ == old(self)@.insert(item@, (qty(old(self)@, item@) + count) as nat),
    {
        let ghost e = self.entries();
        proof {
            lemma_find(e, item@);
            lemma_add_entry(e, item@, count as nat);
        }
        match self.find_index(item) {
            Some(i) => {
                let c = self.counts[i];
                self.set_count_at(i, c + count);
            },
            None => {
                self.names.push(item.to_string());
                self.counts.push(count);
                assert(self.entries() =~= e.push((item@, count as nat)));
            },
        }
    }
}

} // verus!
