//! The join's output artifact: a mapping from polygon id to accumulated
//! weight, held as an association vector with pairwise-distinct keys and
//! modeled as a `Map<Seq<char>, int>`.

use vstd::prelude::*;

verus! {

/// The map denoted by an association vector: later entries win, though a
/// well-formed `WeightMap` never repeats a key.
spec fn map_of(entries: Seq<(String, i128)>) -> Map<Seq<char>, int>
    decreases entries.len(),
{
    if entries.len() == 0 {
        Map::empty()
    } else {
        map_of(entries.drop_last()).insert(entries.last().0@, entries.last().1 as int)
    }
}

/// Pairwise-distinct keys.
spec fn keys_unique(entries: Seq<(String, i128)>) -> bool {
    forall|i: int, j: int| 0 <= i < j < entries.len() ==> entries[i].0@ != entries[j].0@
}

/// A key is in the denoted map exactly when some entry holds it.
proof fn lemma_map_of_dom(entries: Seq<(String, i128)>, id: Seq<char>)
    ensures
        map_of(entries).dom().contains(id) <==> exists|i: int|
            0 <= i < entries.len() && entries[i].0@ == id,
    decreases entries.len(),
{
    if entries.len() > 0 {
        lemma_map_of_dom(entries.drop_last(), id);
        if map_of(entries).dom().contains(id) && entries.last().0@ != id {
            let i = choose|i: int| 0 <= i < entries.len() - 1 && entries.drop_last()[i].0@ == id;
            assert(entries[i].0@ == id);
        }
        if exists|i: int| 0 <= i < entries.len() && entries[i].0@ == id {
            let i = choose|i: int| 0 <= i < entries.len() && entries[i].0@ == id;
            if i < entries.len() - 1 {
                assert(entries.drop_last()[i].0@ == id);
            }
        }
    }
}

/// With distinct keys, each entry is the map's value at its key.
proof fn lemma_map_of_get(entries: Seq<(String, i128)>, i: int)
    requires
        keys_unique(entries),
        0 <= i < entries.len(),
    ensures
        map_of(entries).dom().contains(entries[i].0@),
        map_of(entries)[entries[i].0@] == entries[i].1 as int,
    decreases entries.len(),
{
    if i < entries.len() - 1 {
        assert(entries.drop_last()[i] == entries[i]);
        lemma_map_of_get(entries.drop_last(), i);
    }
}

/// With distinct keys the denoted map has exactly one point per entry.
proof fn lemma_map_of_card(entries: Seq<(String, i128)>)
    requires
        keys_unique(entries),
    ensures
        map_of(entries).dom().finite(),
        map_of(entries).dom().len() == entries.len(),
    decreases entries.len(),
{
    if entries.len() > 0 {
        lemma_map_of_card(entries.drop_last());
        lemma_map_of_dom(entries.drop_last(), entries.last().0@);
    }
}

/// Replacing the value of entry i denotes a point update of the map.
proof fn lemma_map_of_update(entries: Seq<(String, i128)>, i: int, e: (String, i128))
    requires
        keys_unique(entries),
        0 <= i < entries.len(),
        e.0@ == entries[i].0@,
    ensures
        map_of(entries.update(i, e)) == map_of(entries).insert(e.0@, e.1 as int),
    decreases entries.len(),
{
    let updated = entries.update(i, e);
    if i == entries.len() - 1 {
        assert(updated.drop_last() =~= entries.drop_last());
        assert(updated.last() == e);
        assert(map_of(entries).insert(e.0@, e.1 as int) =~= map_of(entries.drop_last()).insert(
            e.0@,
            e.1 as int,
        ));
    } else {
        lemma_map_of_update(entries.drop_last(), i, e);
        assert(updated.drop_last() =~= entries.drop_last().update(i, e));
        assert(updated.last() == entries.last());
        assert(map_of(updated) =~= map_of(entries).insert(e.0@, e.1 as int));
    }
}

/// A mapping from polygon id to accumulated weight.
pub struct WeightMap {
    entries: Vec<(String, i128)>,
}

impl View for WeightMap {
    type V = Map<Seq<char>, int>;

    closed spec fn view(&self) -> Map<Seq<char>, int> {
        map_of(self.entries@)
    }
}

impl WeightMap {
    /// Well-formed: no key occurs twice.
    pub closed spec fn wf(&self) -> bool {
        keys_unique(self.entries@)
    }

    /// The empty mapping.
    pub fn new() -> (m: WeightMap)
        ensures
            m.wf(),
            m@ == Map::<Seq<char>, int>::empty(),
    {
        WeightMap { entries: Vec::new() }
    }

    /// The number of ids carrying a total.
    pub fn len(&self) -> (n: usize)
        requires
            self.wf(),
        ensures
            n == self@.dom().len(),
    {
        proof {
            lemma_map_of_card(self.entries@);
        }
        self.entries.len()
    }

    /// The ids carrying a total, one occurrence each.
    pub fn keys(&self) -> (r: Vec<String>)
        requires
            self.wf(),
        ensures
            forall|id: Seq<char>|
                #[trigger] self@.dom().contains(id) <==> exists|t: int|
                    0 <= t < r@.len() && r@[t]@ == id,
            forall|t: int| 0 <= t < r@.len() ==> self@.dom().contains((#[trigger] r@[t])@),
    {
        let mut r: Vec<String> = Vec::new();
        let n = self.entries.len();
        let mut i: usize = 0;
        while i < n
            invariant
                self.wf(),
                n == self.entries@.len(),
                i <= n,
                r@.len() == i,
                forall|t: int| 0 <= t < i ==> (#[trigger] r@[t])@ == self.entries@[t].0@,
            decreases n - i,
        {
            r.push(self.entries[i].0.clone());
            i = i + 1;
        }
        proof {
            assert forall|id: Seq<char>| #[trigger]
                self@.dom().contains(id) implies exists|t: int|
                0 <= t < r@.len() && r@[t]@ == id by {
                lemma_map_of_dom(self.entries@, id);
                let t = choose|t: int| 0 <= t < self.entries@.len() && self.entries@[t].0@ == id;
                assert(r@[t]@ == id);
            }
            assert forall|id: Seq<char>| (exists|t: int| 0 <= t < r@.len() && r@[t]@ == id)
                implies #[trigger] self@.dom().contains(id) by {
                lemma_map_of_dom(self.entries@, id);
                let t = choose|t: int| 0 <= t < r@.len() && r@[t]@ == id;
                assert(self.entries@[t].0@ == id);
            }
            assert forall|t: int| 0 <= t < r@.len() implies self@.dom().contains(
                (#[trigger] r@[t])@,
            ) by {
                lemma_map_of_dom(self.entries@, r@[t]@);
                assert(self.entries@[t].0@ == r@[t]@);
            }
        }
        r
    }

    /// The accumulated total for an id, if the id has one.
    pub fn get(&self, id: &String) -> (r: Option<i128>)
        requires
            self.wf(),
        ensures
            match r {
                Some(v) => self@.dom().contains(id@) && self@[id@] == v as int,
                None => !self@.dom().contains(id@),
            },
    {
        let n = self.entries.len();
        let mut i: usize = 0;
        while i < n
            invariant
                self.wf(),
                n == self.entries@.len(),
                i <= n,
                forall|j: int| 0 <= j < i ==> self.entries@[j].0@ != id@,
            decreases n - i,
        {
            if self.entries[i].0 == *id {
                proof {
                    lemma_map_of_get(self.entries@, i as int);
                }
                return Some(self.entries[i].1);
            }
            i = i + 1;
        }
        proof {
            lemma_map_of_dom(self.entries@, id@);
        }
        None
    }

    /// Add `w` to the id's running total, starting the total at zero for an
    /// id not seen before.
    pub fn add_weight(&mut self, id: &String, w: i64)
        requires
            old(self).wf(),
            old(self)@.dom().contains(id@) ==> i128::MIN <= old(self)@[id@] + w <= i128::MAX,
        ensures
            final(self).wf(),
            final(self)@ == old(self)@.insert(
                id@,
                (if old(self)@.dom().contains(id@) {
                    old(self)@[id@]
                } else {
                    0
                }) + w,
            ),
    {
        let ghost orig = self.entries@;
        let n = self.entries.len();
        let mut i: usize = 0;
        while i < n
            invariant
                self.entries@ == orig,
                old(self)@ == map_of(orig),
                old(self)@.dom().contains(id@) ==> i128::MIN <= old(self)@[id@] + w
                    <= i128::MAX,
                keys_unique(orig),
                n == orig.len(),
                i <= n,
                forall|j: int| 0 <= j < i ==> orig[j].0@ != id@,
            decreases n - i,
        {
            if self.entries[i].0 == *id {
                proof {
                    lemma_map_of_get(orig, i as int);
                }
                let (key, val) = self.entries.remove(i);
                let bumped: i128 = val + w as i128;
                self.entries.insert(i, (key, bumped));
                proof {
                    assert(self.entries@ =~= orig.update(i as int, (key, bumped)));
                    lemma_map_of_update(orig, i as int, (key, bumped));
                }
                return ;
            }
            i = i + 1;
        }
        proof {
            lemma_map_of_dom(orig, id@);
        }
        self.entries.push((id.clone(), w as i128));
        proof {
            assert(self.entries@.drop_last() =~= orig);
        }
    }
}

} // verus!
