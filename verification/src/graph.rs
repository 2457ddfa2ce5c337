//! A graph of objects: an object table keyed by id, a trailer holding the
//! well-known entries, a max-id watermark, and the ordered enumeration of
//! entry points.
use vstd::prelude::*;

use crate::model::Node;
use crate::model::ObjectId;

verus! {

/// The graph-level record holding the root reference, the object count and
/// the metadata links: an info block, a document-identity blob, and an
/// optional protection descriptor.
pub struct Trailer {
    pub root: Option<ObjectId>,
    pub size: Option<i64>,
    pub info: Option<ObjectId>,
    pub id_blob: Option<Node>,
    pub encrypt: Option<ObjectId>,
}

impl Trailer {
    /// A trailer with no entries set.
    pub fn new() -> (t: Trailer)
        ensures
            t.root is None,
            t.size is None,
            t.info is None,
            t.id_blob is None,
            t.encrypt is None,
    {
        Trailer { root: None, size: None, info: None, id_blob: None, encrypt: None }
    }
}

/// An object graph: the object table, the trailer, the max-id watermark,
/// the ordered enumeration of entry point ids, and a version tag.
pub struct Graph {
    pub objects: Vec<(ObjectId, Node)>,
    pub trailer: Trailer,
    pub max_id: u32,
    pub entry_points: Vec<ObjectId>,
    pub version: Vec<u8>,
}

impl Graph {
    /// The ids stored in the object table, in insertion order.
    pub open spec fn ids(self) -> Seq<ObjectId> {
        self.objects@.map_values(|p: (ObjectId, Node)| p.0)
    }

    /// Whether the object table holds an object under `id`.
    pub open spec fn contains_id(self, id: ObjectId) -> bool {
        self.ids().contains(id)
    }

    /// The position of `id` in the object table.
    pub open spec fn index_of(self, id: ObjectId) -> int {
        self.ids().index_of(id)
    }

    /// The node stored under `id`.
    pub open spec fn node_at(self, id: ObjectId) -> Node
        recommends
            self.contains_id(id),
    {
        self.objects@[self.index_of(id)].1
    }

    /// Well-formedness: ids are unique and non-sentinel, the watermark is at
    /// least the highest id number in use, and every entry point resolves to
    /// a stored object.
    pub open spec fn wf(self) -> bool {
        &&& self.ids().no_duplicates()
        &&& forall|i: int| 0 <= i < self.objects@.len()
            ==> 1 <= (#[trigger] self.objects@[i]).0.number <= self.max_id
        &&& self.entry_points@.no_duplicates()
        &&& forall|i: int| 0 <= i < self.entry_points@.len()
            ==> self.contains_id(#[trigger] self.entry_points@[i])
                && self.entry_points@[i].number != 0
    }

    /// An object found at position `i` is the one `index_of` points at.
    pub proof fn lemma_found_index(self, i: int, id: ObjectId)
        requires
            self.ids().no_duplicates(),
            0 <= i < self.objects@.len(),
            self.objects@[i].0 == id,
        ensures
            self.contains_id(id),
            self.index_of(id) == i,
            self.node_at(id) == self.objects@[i].1,
    {
        assert(self.ids()[i] == id);
        assert(self.ids().contains(id));
        let j = self.index_of(id);
        assert(0 <= j < self.ids().len() && self.ids()[j] == id);
        assert(j == i);
    }

    /// A fresh, empty graph carrying a version tag.
    pub fn new(version: Vec<u8>) -> (g: Graph)
        ensures
            g.wf(),
            g.objects@.len() == 0,
            g.entry_points@.len() == 0,
            g.max_id == 0,
            g.version == version,
            g.trailer.root is None,
            g.trailer.size is None,
            g.trailer.info is None,
            g.trailer.id_blob is None,
            g.trailer.encrypt is None,
    {
        let g = Graph {
            objects: Vec::new(),
            trailer: Trailer::new(),
            max_id: 0,
            entry_points: Vec::new(),
            version,
        };
        proof {
            assert(g.ids() =~= Seq::<ObjectId>::empty());
        }
        g
    }

    /// The position of `id` in the object table, if it is there.
    #[verifier::loop_isolation(false)]
    pub fn find_index(&self, id: ObjectId) -> (r: Option<usize>)
        requires
            self.wf(),
        ensures
            match r {
                Some(i) => self.contains_id(id) && self.index_of(id) == i
                    && i < self.objects@.len() && self.objects@[i as int].0 == id,
                None => !self.contains_id(id),
            },
    {
        let mut i: usize = 0;
        while i < self.objects.len()
            invariant
                0 <= i <= self.objects@.len(),
                forall|j: int| 0 <= j < i ==> (#[trigger] self.objects@[j]).0 != id,
            decreases self.objects@.len() - i,
        {
            if self.objects[i].0 == id {
                proof {
                    self.lemma_found_index(i as int, id);
                }
                return Some(i);
            }
            i = i + 1;
        }
        proof {
            assert(forall|j: int| 0 <= j < self.ids().len() ==> self.ids()[j] != id);
        }
        None
    }

    /// The node stored under `id`, if the table holds one.
    pub fn get(&self, id: ObjectId) -> (r: Option<&Node>)
        requires
            self.wf(),
        ensures
            match r {
                Some(n) => self.contains_id(id) && *n == self.node_at(id),
                None => !self.contains_id(id),
            },
    {
        match self.find_index(id) {
            Some(i) => Some(&self.objects[i].1),
            None => None,
        }
    }

    /// Stores `node` under the fresh id `id`, raising the watermark to cover
    /// it. Everything already stored is kept unchanged.
    pub fn insert_object(&mut self, id: ObjectId, node: Node)
        requires
            old(self).wf(),
            !old(self).contains_id(id),
            1 <= id.number,
        ensures
            final(self).wf(),
            final(self).objects@ == old(self).objects@.push((id, node)),
            final(self).ids() == old(self).ids().push(id),
            final(self).max_id == if id.number > old(self).max_id {
                id.number
            } else {
                old(self).max_id
            },
            final(self).trailer == old(self).trailer,
            final(self).entry_points == old(self).entry_points,
            final(self).version == old(self).version,
            final(self).contains_id(id),
            final(self).node_at(id) == node,
            forall|x: ObjectId| old(self).contains_id(x)
                ==> final(self).contains_id(x) && final(self).node_at(x) == old(self).node_at(x),
    {
        if id.number > self.max_id {
            self.max_id = id.number;
        }
        self.objects.push((id, node));
        proof {
            assert(self.ids() =~= old(self).ids().push(id));
            let n = old(self).objects@.len() as int;
            assert forall|i: int, j: int|
                0 <= i < self.ids().len() && 0 <= j < self.ids().len() && i != j
                implies self.ids()[i] != self.ids()[j] by {
                if i < n && j < n {
                    assert(old(self).ids()[i] == self.ids()[i]);
                    assert(old(self).ids()[j] == self.ids()[j]);
                } else if i == n {
                    assert(!old(self).ids().contains(id));
                    assert(old(self).ids()[j] == self.ids()[j]);
                } else if j == n {
                    assert(!old(self).ids().contains(id));
                    assert(old(self).ids()[i] == self.ids()[i]);
                }
            }
            self.lemma_found_index(n, id);
            assert forall|x: ObjectId| old(self).contains_id(x)
                implies self.contains_id(x) && self.node_at(x) == old(self).node_at(x) by {
                let i = old(self).ids().index_of(x);
                assert(0 <= i < old(self).ids().len() && old(self).ids()[i] == x);
                self.lemma_found_index(i, x);
                old(self).lemma_found_index(i, x);
            }
            assert forall|i: int| 0 <= i < self.entry_points@.len()
                implies self.contains_id(#[trigger] self.entry_points@[i])
                    && self.entry_points@[i].number != 0 by {
                assert(old(self).contains_id(old(self).entry_points@[i]));
            }
        }
    }

    /// Stores `node` under the next fresh sequential id and returns that id.
    pub fn add_object(&mut self, node: Node) -> (id: ObjectId)
        requires
            old(self).wf(),
            old(self).max_id < u32::MAX,
        ensures
            id == (ObjectId { number: (old(self).max_id + 1) as u32, generation: 0 }),
            !old(self).contains_id(id),
            final(self).wf(),
            final(self).objects@ == old(self).objects@.push((id, node)),
            final(self).ids() == old(self).ids().push(id),
            final(self).max_id == old(self).max_id + 1,
            final(self).trailer == old(self).trailer,
            final(self).entry_points == old(self).entry_points,
            final(self).version == old(self).version,
            final(self).contains_id(id),
            final(self).node_at(id) == node,
            forall|x: ObjectId| old(self).contains_id(x)
                ==> final(self).contains_id(x) && final(self).node_at(x) == old(self).node_at(x),
    {
        let id = ObjectId { number: self.max_id + 1, generation: 0 };
        proof {
            if old(self).contains_id(id) {
                let i = old(self).ids().index_of(id);
                assert(0 <= i < old(self).ids().len() && old(self).ids()[i] == id);
                assert(old(self).objects@[i].0 == id);
            }
        }
        self.insert_object(id, node);
        id
    }

    /// Replaces the node stored under `id`, leaving every other object, the
    /// trailer and the enumeration unchanged.
    pub fn set_object(&mut self, id: ObjectId, node: Node)
        requires
            old(self).wf(),
            old(self).contains_id(id),
        ensures
            final(self).wf(),
            final(self).objects@ == old(self).objects@.update(old(self).index_of(id), (id, node)),
            final(self).ids() == old(self).ids(),
            final(self).max_id == old(self).max_id,
            final(self).trailer == old(self).trailer,
            final(self).entry_points == old(self).entry_points,
            final(self).version == old(self).version,
            final(self).contains_id(id),
            final(self).node_at(id) == node,
            forall|x: ObjectId| old(self).contains_id(x) && x != id
                ==> final(self).contains_id(x) && final(self).node_at(x) == old(self).node_at(x),
    {
        let i = match self.find_index(id) {
            Some(i) => i,
            None => {
                proof {
                    assert(false);
                }
                0
            },
        };
        vstd::pervasive::VecAdditionalExecFns::set(&mut self.objects, i, (id, node));
        proof {
            assert(self.ids() =~= old(self).ids());
            self.lemma_found_index(i as int, id);
            assert forall|x: ObjectId| old(self).contains_id(x) && x != id
                implies self.contains_id(x) && self.node_at(x) == old(self).node_at(x) by {
                let j = old(self).ids().index_of(x);
                assert(0 <= j < old(self).ids().len() && old(self).ids()[j] == x);
                assert(j != i);
                self.lemma_found_index(j, x);
                old(self).lemma_found_index(j, x);
            }
        }
    }

    /// Appends an id to the entry point enumeration.
    pub fn push_entry_point(&mut self, id: ObjectId)
        requires
            old(self).wf(),
            old(self).contains_id(id),
            id.number != 0,
            !old(self).entry_points@.contains(id),
        ensures
            final(self).wf(),
            final(self).entry_points@ == old(self).entry_points@.push(id),
            final(self).objects == old(self).objects,
            final(self).max_id == old(self).max_id,
            final(self).trailer == old(self).trailer,
            final(self).version == old(self).version,
    {
        self.entry_points.push(id);
        proof {
            let n = old(self).entry_points@.len() as int;
            assert forall|i: int, j: int|
                0 <= i < self.entry_points@.len() && 0 <= j < self.entry_points@.len() && i != j
                implies self.entry_points@[i] != self.entry_points@[j] by {
                if i == n {
                    assert(!old(self).entry_points@.contains(id));
                } else if j == n {
                    assert(!old(self).entry_points@.contains(id));
                }
            }
        }
    }
}

} // verus!

verus! {

/// Every reference embedded in any stored node resolves within the same
/// graph, the structural sentinel aside: the no-dangling-references
/// invariant of a self-contained graph.
pub open spec fn resolves_internally(g: Graph) -> bool {
    forall|id: ObjectId, y: ObjectId|
        g.contains_id(id) && #[trigger] crate::model::has_ref(g.node_at(id), y) && y.number != 0
            ==> g.contains_id(y)
}

} // verus!
