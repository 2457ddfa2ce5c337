//! The id remapper: allocates fresh sequential ids for a set of object ids
//! and records the old-to-new translation table.
use vstd::prelude::*;

use crate::model::ObjectId;

verus! {

/// An old-id to new-id translation table with unique keys.
pub struct IdMap {
    pub pairs: Vec<(ObjectId, ObjectId)>,
}

impl IdMap {
    /// The keys of the table, in insertion order.
    pub open spec fn keys(self) -> Seq<ObjectId> {
        self.pairs@.map_values(|p: (ObjectId, ObjectId)| p.0)
    }

    /// The table as a mathematical map.
    pub open spec fn view(self) -> Map<ObjectId, ObjectId> {
        Map::new(
            |k: ObjectId| self.keys().contains(k),
            |k: ObjectId| self.pairs@[self.keys().index_of(k)].1,
        )
    }

    /// Keys are unique.
    pub open spec fn wf(self) -> bool {
        self.keys().no_duplicates()
    }

    /// A pair found at position `i` is what the map assigns to its key.
    pub proof fn lemma_found_pair(self, i: int)
        requires
            self.wf(),
            0 <= i < self.pairs@.len(),
        ensures
            self@.dom().contains(self.pairs@[i].0),
            self@[self.pairs@[i].0] == self.pairs@[i].1,
            self.keys().index_of(self.pairs@[i].0) == i,
    {
        let k = self.pairs@[i].0;
        assert(self.keys()[i] == k);
        assert(self.keys().contains(k));
        let j = self.keys().index_of(k);
        assert(0 <= j < self.keys().len() && self.keys()[j] == k);
        assert(j == i);
    }

    /// An empty table.
    pub fn new() -> (m: IdMap)
        ensures
            m.wf(),
            m@.dom() =~= Set::<ObjectId>::empty(),
            m.keys().len() == 0,
    {
        let m = IdMap { pairs: Vec::new() };
        proof {
            assert(m.keys() =~= Seq::<ObjectId>::empty());
        }
        m
    }

    /// The new id recorded for `id`, if the table holds one.
    #[verifier::loop_isolation(false)]
    pub fn get(&self, id: ObjectId) -> (r: Option<ObjectId>)
        requires
            self.wf(),
        ensures
            match r {
                Some(v) => self@.dom().contains(id) && self@[id] == v,
                None => !self@.dom().contains(id),
            },
    {
        let mut i: usize = 0;
        while i < self.pairs.len()
            invariant
                0 <= i <= self.pairs@.len(),
                forall|j: int| 0 <= j < i ==> (#[trigger] self.pairs@[j]).0 != id,
            decreases self.pairs@.len() - i,
        {
            if self.pairs[i].0 == id {
                proof {
                    self.lemma_found_pair(i as int);
                }
                return Some(self.pairs[i].1);
            }
            i = i + 1;
        }
        proof {
            assert(forall|j: int| 0 <= j < self.keys().len() ==> self.keys()[j] != id);
        }
        None
    }
}

/// What the remapper produces from the id list `ids` and the starting
/// counter `start`: the table sends the i-th id to the sequential id
/// `start + i` with generation 0.
pub open spec fn sequential_remap(
    m: Map<ObjectId, ObjectId>,
    ids: Seq<ObjectId>,
    start: int,
) -> bool {
    &&& (forall|k: ObjectId| m.dom().contains(k) <==> ids.contains(k))
    &&& (forall|i: int| 0 <= i < ids.len()
        ==> m[#[trigger] ids[i]]
            == (ObjectId { number: (start + i) as u32, generation: 0 }))
}

/// Builds the translation table sending `ids[i]` to the sequential id
/// `start + i`, generation 0, and returns it with the advanced counter.
///
/// Remapping cannot fail; ids outside the table are simply absent from it.
#[verifier::loop_isolation(false)]
pub fn remap_ids(ids: &Vec<ObjectId>, start: u32) -> (r: (IdMap, u32))
    requires
        ids@.no_duplicates(),
        start >= 1,
        start + ids@.len() <= u32::MAX,
    ensures
        r.0.wf(),
        r.0.keys() == ids@,
        sequential_remap(r.0@, ids@, start as int),
        r.1 == start + ids@.len(),
        forall|i: int| 0 <= i < ids@.len()
            ==> (#[trigger] r.0.pairs@[i])
                == (ids@[i], ObjectId { number: (start + i) as u32, generation: 0 }),
{
    let mut table = IdMap::new();
    let mut i: usize = 0;
    while i < ids.len()
        invariant
            0 <= i <= ids@.len(),
            table.pairs@.len() == i,
            forall|j: int| 0 <= j < i ==> (#[trigger] table.pairs@[j])
                == (ids@[j], ObjectId { number: (start + j) as u32, generation: 0 }),
            table.keys() =~= ids@.subrange(0, i as int),
        decreases ids@.len() - i,
    {
        let new_id = ObjectId { number: start + (i as u32), generation: 0 };
        table.pairs.push((ids[i], new_id));
        i = i + 1;
        proof {
            assert(table.keys() =~= ids@.subrange(0, i as int));
        }
    }
    proof {
        assert(table.keys() =~= ids@);
        assert forall|k: ObjectId| table@.dom().contains(k) <==> ids@.contains(k) by {}
        assert forall|j: int| 0 <= j < ids@.len()
            implies table@[#[trigger] ids@[j]]
                == (ObjectId { number: (start + j) as u32, generation: 0 }) by {
            table.lemma_found_pair(j);
        }
    }
    (table, start + (ids.len() as u32))
}

/// Law: remapping is injective within one table — two distinct source ids
/// never receive the same target id.
pub proof fn lemma_remap_injective(m: Map<ObjectId, ObjectId>, ids: Seq<ObjectId>, start: int)
    requires
        ids.no_duplicates(),
        sequential_remap(m, ids, start),
        start >= 1,
        start + ids.len() <= u32::MAX + 1,
    ensures
        forall|a: ObjectId, b: ObjectId|
            ids.contains(a) && ids.contains(b) && a != b ==> m[a] != m[b],
{
    assert forall|a: ObjectId, b: ObjectId|
        ids.contains(a) && ids.contains(b) && a != b implies m[a] != m[b] by {
        let i = ids.index_of(a);
        let j = ids.index_of(b);
        assert(0 <= i < ids.len() && ids[i] == a);
        assert(0 <= j < ids.len() && ids[j] == b);
        assert(m[a].number == start + i);
        assert(m[b].number == start + j);
    }
}

/// Law: for any two disjoint id sets remapped into one target with disjoint
/// counter ranges — as the folding of several source graphs into one target
/// does, each source shifted past the previous one — the combined mapping is
/// injective: no two distinct (set, id) pairs map to the same target id.
pub proof fn lemma_remap_disjoint_ranges_injective(
    m1: Map<ObjectId, ObjectId>,
    ids1: Seq<ObjectId>,
    start1: int,
    m2: Map<ObjectId, ObjectId>,
    ids2: Seq<ObjectId>,
    start2: int,
)
    requires
        ids1.no_duplicates(),
        ids2.no_duplicates(),
        sequential_remap(m1, ids1, start1),
        sequential_remap(m2, ids2, start2),
        start1 >= 1,
        start1 + ids1.len() <= start2,
        start2 + ids2.len() <= u32::MAX + 1,
    ensures
        forall|a: ObjectId, b: ObjectId|
            ids1.contains(a) && ids2.contains(b) ==> m1[a] != m2[b],
        forall|a: ObjectId, b: ObjectId|
            ids1.contains(a) && ids1.contains(b) && a != b ==> m1[a] != m1[b],
        forall|a: ObjectId, b: ObjectId|
            ids2.contains(a) && ids2.contains(b) && a != b ==> m2[a] != m2[b],
{
    assert forall|a: ObjectId, b: ObjectId|
        ids1.contains(a) && ids2.contains(b) implies m1[a] != m2[b] by {
        let i = ids1.index_of(a);
        let j = ids2.index_of(b);
        assert(0 <= i < ids1.len() && ids1[i] == a);
        assert(0 <= j < ids2.len() && ids2[j] == b);
        assert(m1[a].number == start1 + i);
        assert(m2[b].number == start2 + j);
    }
    lemma_remap_injective(m1, ids1, start1);
    lemma_remap_injective(m2, ids2, start2);
}

} // verus!
