//! The reference rewriter: walks a node's structure and replaces every
//! embedded reference whose target id is a key of a translation table.
use vstd::prelude::*;

use crate::model::Node;
use crate::model::ObjectId;
use crate::model::clone_bytes;
use crate::model::has_ref;
use crate::model::node_eq;
use crate::remap::IdMap;

verus! {

/// Where `t` sends the reference target `i`: to `t[i]` when `i` is a key of
/// the table, otherwise left unchanged.
pub open spec fn map_target(t: Map<ObjectId, ObjectId>, i: ObjectId) -> ObjectId {
    if t.dom().contains(i) {
        t[i]
    } else {
        i
    }
}

/// Relates a node to its rewriting under the table `t`: a structurally
/// identical node in which every embedded reference target has been sent
/// through `map_target`, recursing into arrays, dictionary values and a
/// stream's own dictionary, but never into a stream's opaque payload.
pub open spec fn node_rewritten(a: Node, b: Node, t: Map<ObjectId, ObjectId>) -> bool
    decreases a,
{
    match a {
        Node::Null => b is Null,
        Node::Boolean(x) => b matches Node::Boolean(y) && x == y,
        Node::Integer(x) => b matches Node::Integer(y) && x == y,
        Node::RealBits(x) => b matches Node::RealBits(y) && x == y,
        Node::Text(x, f) => b matches Node::Text(y, g) && x@ == y@ && f == g,
        Node::Name(x) => b matches Node::Name(y) && x@ == y@,
        Node::Reference(i) => b == Node::Reference(map_target(t, i)),
        Node::Array(xs) => b matches Node::Array(ys) && xs@.len() == ys@.len()
            && (forall|i: int| 0 <= i < xs@.len()
                ==> node_rewritten(#[trigger] xs@[i], ys@[i], t)),
        Node::Dict(ps) => b matches Node::Dict(qs) && ps@.len() == qs@.len()
            && (forall|i: int| 0 <= i < ps@.len()
                ==> (#[trigger] ps@[i]).0@ == qs@[i].0@ && node_rewritten(ps@[i].1, qs@[i].1, t)),
        Node::Stream(ps, d) => b matches Node::Stream(qs, e) && ps@.len() == qs@.len()
            && (forall|i: int| 0 <= i < ps@.len()
                ==> (#[trigger] ps@[i]).0@ == qs@[i].0@ && node_rewritten(ps@[i].1, qs@[i].1, t))
            && d@ == e@,
    }
}

/// Returns the rewriting of `obj` under the table: a structurally identical
/// node in which every reference that is a key of `id_map` is replaced by
/// the mapped id and every other reference is left unchanged.
#[verifier::loop_isolation(false)]
pub fn update_references_in_object(obj: &Node, id_map: &IdMap) -> (r: Node)
    requires
        id_map.wf(),
    ensures
        node_rewritten(*obj, r, id_map@),
    decreases *obj,
{
    match obj {
        Node::Null => Node::Null,
        Node::Boolean(x) => Node::Boolean(*x),
        Node::Integer(x) => Node::Integer(*x),
        Node::RealBits(x) => Node::RealBits(*x),
        Node::Text(x, f) => Node::Text(clone_bytes(x), *f),
        Node::Name(x) => Node::Name(clone_bytes(x)),
        Node::Reference(i) => match id_map.get(*i) {
            Some(new_id) => Node::Reference(new_id),
            None => Node::Reference(*i),
        },
        Node::Array(xs) => {
            let mut ys: Vec<Node> = Vec::new();
            let mut i: usize = 0;
            while i < xs.len()
                invariant
                    0 <= i <= xs@.len(),
                    ys@.len() == i,
                    forall|j: int| 0 <= j < i
                        ==> node_rewritten(xs@[j], #[trigger] ys@[j], id_map@),
                decreases xs@.len() - i,
            {
                proof {
                    vstd::std_specs::vec::axiom_vec_index_decreases(*xs, i as int);
                }
                ys.push(update_references_in_object(&xs[i], id_map));
                i = i + 1;
            }
            Node::Array(ys)
        },
        Node::Dict(ps) => Node::Dict(rewrite_entries(ps, id_map)),
        Node::Stream(ps, d) => Node::Stream(rewrite_entries(ps, id_map), clone_bytes(d)),
    }
}

/// Rewrites every value of a dictionary entry list, keeping keys and order.
#[verifier::loop_isolation(false)]
pub fn rewrite_entries(ps: &Vec<(Vec<u8>, Node)>, id_map: &IdMap) -> (r: Vec<(Vec<u8>, Node)>)
    requires
        id_map.wf(),
    ensures
        r@.len() == ps@.len(),
        forall|i: int| 0 <= i < ps@.len()
            ==> (#[trigger] ps@[i]).0@ == r@[i].0@ && node_rewritten(ps@[i].1, r@[i].1, id_map@),
    decreases ps@,
{
    let mut qs: Vec<(Vec<u8>, Node)> = Vec::new();
    let mut i: usize = 0;
    while i < ps.len()
        invariant
            0 <= i <= ps@.len(),
            qs@.len() == i,
            forall|j: int| 0 <= j < i
                ==> (#[trigger] ps@[j]).0@ == qs@[j].0@
                    && node_rewritten(ps@[j].1, qs@[j].1, id_map@),
        decreases ps@.len() - i,
    {
        let (k, v) = &ps[i];
        qs.push((clone_bytes(k), update_references_in_object(v, id_map)));
        i = i + 1;
    }
    qs
}

/// A rewriting exists and is unique up to structural equivalence.
pub proof fn lemma_rewritten_unique(a: Node, b1: Node, b2: Node, t: Map<ObjectId, ObjectId>)
    requires
        node_rewritten(a, b1, t),
        node_rewritten(a, b2, t),
    ensures
        node_eq(b1, b2),
    decreases a,
{
    match (a, b1, b2) {
        (Node::Array(xs), Node::Array(ys), Node::Array(zs)) => {
            assert forall|i: int| 0 <= i < ys@.len()
                implies node_eq(#[trigger] ys@[i], zs@[i]) by {
                lemma_rewritten_unique(xs@[i], ys@[i], zs@[i], t);
            }
        },
        (Node::Dict(ps), Node::Dict(qs), Node::Dict(rs)) => {
            assert forall|i: int| 0 <= i < qs@.len()
                implies (#[trigger] qs@[i]).0@ == rs@[i].0@ && node_eq(qs@[i].1, rs@[i].1) by {
                lemma_rewritten_unique(ps@[i].1, qs@[i].1, rs@[i].1, t);
            }
        },
        (Node::Stream(ps, _), Node::Stream(qs, _), Node::Stream(rs, _)) => {
            assert forall|i: int| 0 <= i < qs@.len()
                implies (#[trigger] qs@[i]).0@ == rs@[i].0@ && node_eq(qs@[i].1, rs@[i].1) by {
                lemma_rewritten_unique(ps@[i].1, qs@[i].1, rs@[i].1, t);
            }
        },
        _ => {},
    }
}

/// A table is settled when it never moves a target it has already produced:
/// any key that is also a value maps to itself. Translation tables built
/// from fresh id ranges are settled because no fresh id is an old key that
/// maps elsewhere.
pub open spec fn settled_table(t: Map<ObjectId, ObjectId>) -> bool {
    forall|k: ObjectId| #[trigger] t.dom().contains(k) && t.dom().contains(t[k])
        ==> t[t[k]] == t[k]
}

/// A node already rewritten under a settled table is a fixed point: rewriting
/// it again relates it to itself.
pub proof fn lemma_rewritten_fixpoint(a: Node, b: Node, t: Map<ObjectId, ObjectId>)
    requires
        node_rewritten(a, b, t),
        settled_table(t),
    ensures
        node_rewritten(b, b, t),
    decreases a,
{
    match (a, b) {
        (Node::Reference(i), _) => {
            assert(b == Node::Reference(map_target(t, i)));
            assert(map_target(t, map_target(t, i)) == map_target(t, i));
        },
        (Node::Array(xs), Node::Array(ys)) => {
            assert forall|i: int| 0 <= i < ys@.len()
                implies node_rewritten(#[trigger] ys@[i], ys@[i], t) by {
                lemma_rewritten_fixpoint(xs@[i], ys@[i], t);
            }
        },
        (Node::Dict(ps), Node::Dict(qs)) => {
            assert forall|i: int| 0 <= i < qs@.len()
                implies (#[trigger] qs@[i]).0@ == qs@[i].0@
                    && node_rewritten(qs@[i].1, qs@[i].1, t) by {
                lemma_rewritten_fixpoint(ps@[i].1, qs@[i].1, t);
            }
        },
        (Node::Stream(ps, _), Node::Stream(qs, _)) => {
            assert forall|i: int| 0 <= i < qs@.len()
                implies (#[trigger] qs@[i]).0@ == qs@[i].0@
                    && node_rewritten(qs@[i].1, qs@[i].1, t) by {
                lemma_rewritten_fixpoint(ps@[i].1, qs@[i].1, t);
            }
        },
        _ => {},
    }
}

/// Law: rewriting is idempotent-safe — rewriting an already-rewritten node
/// with the same table changes nothing, when the table's keys all occur as
/// references in the original node and the table is settled. Because
/// rewriting only matches references, a second pass never double-maps.
pub proof fn lemma_rewrite_idempotent(
    a: Node,
    b: Node,
    c: Node,
    t: Map<ObjectId, ObjectId>,
)
    requires
        forall|k: ObjectId| t.dom().contains(k) ==> has_ref(a, k),
        settled_table(t),
        node_rewritten(a, b, t),
        node_rewritten(b, c, t),
    ensures
        node_eq(c, b),
{
    lemma_rewritten_fixpoint(a, b, t);
    lemma_rewritten_unique(b, c, b, t);
}

} // verus!

verus! {

/// Two tables applied one after the other, as one table: every id that
/// either table touches is sent through both.
pub open spec fn compose_tables(
    t1: Map<ObjectId, ObjectId>,
    t2: Map<ObjectId, ObjectId>,
) -> Map<ObjectId, ObjectId> {
    Map::new(
        |k: ObjectId| t1.dom().contains(k) || t2.dom().contains(k),
        |k: ObjectId| map_target(t2, map_target(t1, k)),
    )
}

/// Law: rewriting composes — a node rewritten under one table and then
/// under a second is one rewriting of the original under the composed
/// table. Renumbering into a merged graph and renumbering again on the way
/// out of a split is therefore a single renumbering: the structure of the
/// content survives a round trip unchanged up to ids.
pub proof fn lemma_rewritten_compose(
    a: Node,
    b: Node,
    c: Node,
    t1: Map<ObjectId, ObjectId>,
    t2: Map<ObjectId, ObjectId>,
)
    requires
        node_rewritten(a, b, t1),
        node_rewritten(b, c, t2),
    ensures
        node_rewritten(a, c, compose_tables(t1, t2)),
    decreases a,
{
    match (a, b, c) {
        (Node::Reference(i), _, _) => {
            assert(map_target(compose_tables(t1, t2), i) == map_target(t2, map_target(t1, i)));
        },
        (Node::Array(xs), Node::Array(ys), Node::Array(zs)) => {
            assert forall|i: int| 0 <= i < xs@.len()
                implies node_rewritten(#[trigger] xs@[i], zs@[i], compose_tables(t1, t2)) by {
                lemma_rewritten_compose(xs@[i], ys@[i], zs@[i], t1, t2);
            }
        },
        (Node::Dict(ps), Node::Dict(qs), Node::Dict(rs)) => {
            assert forall|i: int| 0 <= i < ps@.len()
                implies (#[trigger] ps@[i]).0@ == rs@[i].0@ && node_rewritten(
                ps@[i].1,
                rs@[i].1,
                compose_tables(t1, t2),
            ) by {
                lemma_rewritten_compose(ps@[i].1, qs@[i].1, rs@[i].1, t1, t2);
            }
        },
        (Node::Stream(ps, _), Node::Stream(qs, _), Node::Stream(rs, _)) => {
            assert forall|i: int| 0 <= i < ps@.len()
                implies (#[trigger] ps@[i]).0@ == rs@[i].0@ && node_rewritten(
                ps@[i].1,
                rs@[i].1,
                compose_tables(t1, t2),
            ) by {
                lemma_rewritten_compose(ps@[i].1, qs@[i].1, rs@[i].1, t1, t2);
            }
        },
        _ => {},
    }
}

} // verus!

verus! {

/// The references of a rewriting are exactly the mapped references of the
/// original: rewriting neither invents nor drops an edge, it only sends
/// each target through the table.
pub proof fn lemma_rewritten_refs(a: Node, b: Node, t: Map<ObjectId, ObjectId>)
    requires
        node_rewritten(a, b, t),
    ensures
        forall|y: ObjectId| #[trigger] has_ref(b, y)
            <==> exists|x: ObjectId| #[trigger] has_ref(a, x) && y == map_target(t, x),
    decreases a,
{
    match (a, b) {
        (Node::Reference(i), _) => {
            assert forall|y: ObjectId| #[trigger] has_ref(b, y)
                implies exists|x: ObjectId| #[trigger] has_ref(a, x) && y == map_target(
                t,
                x,
            ) by {
                assert(has_ref(a, i) && y == map_target(t, i));
            }
        },
        (Node::Array(xs), Node::Array(ys)) => {
            assert forall|y: ObjectId| #[trigger] has_ref(b, y)
                implies exists|x: ObjectId| #[trigger] has_ref(a, x) && y == map_target(
                t,
                x,
            ) by {
                let i = choose|i: int| 0 <= i < ys@.len() && has_ref(ys@[i], y);
                lemma_rewritten_refs(xs@[i], ys@[i], t);
                let x = choose|x: ObjectId| #[trigger] has_ref(xs@[i], x) && y == map_target(
                    t,
                    x,
                );
                assert(has_ref(a, x));
            }
            assert forall|y: ObjectId|
                (exists|x: ObjectId| #[trigger] has_ref(a, x) && y == map_target(t, x))
                implies #[trigger] has_ref(b, y) by {
                let x = choose|x: ObjectId| #[trigger] has_ref(a, x) && y == map_target(t, x);
                let i = choose|i: int| 0 <= i < xs@.len() && has_ref(xs@[i], x);
                lemma_rewritten_refs(xs@[i], ys@[i], t);
                assert(has_ref(ys@[i], y));
            }
        },
        (Node::Dict(ps), Node::Dict(qs)) => {
            assert forall|y: ObjectId| #[trigger] has_ref(b, y)
                implies exists|x: ObjectId| #[trigger] has_ref(a, x) && y == map_target(
                t,
                x,
            ) by {
                let i = choose|i: int| 0 <= i < qs@.len() && has_ref(qs@[i].1, y);
                lemma_rewritten_refs(ps@[i].1, qs@[i].1, t);
                let x = choose|x: ObjectId| #[trigger] has_ref(ps@[i].1, x) && y == map_target(
                    t,
                    x,
                );
                assert(has_ref(a, x));
            }
            assert forall|y: ObjectId|
                (exists|x: ObjectId| #[trigger] has_ref(a, x) && y == map_target(t, x))
                implies #[trigger] has_ref(b, y) by {
                let x = choose|x: ObjectId| #[trigger] has_ref(a, x) && y == map_target(t, x);
                let i = choose|i: int| 0 <= i < ps@.len() && has_ref(ps@[i].1, x);
                lemma_rewritten_refs(ps@[i].1, qs@[i].1, t);
                assert(has_ref(qs@[i].1, y));
            }
        },
        (Node::Stream(ps, _), Node::Stream(qs, _)) => {
            assert forall|y: ObjectId| #[trigger] has_ref(b, y)
                implies exists|x: ObjectId| #[trigger] has_ref(a, x) && y == map_target(
                t,
                x,
            ) by {
                let i = choose|i: int| 0 <= i < qs@.len() && has_ref(qs@[i].1, y);
                lemma_rewritten_refs(ps@[i].1, qs@[i].1, t);
                let x = choose|x: ObjectId| #[trigger] has_ref(ps@[i].1, x) && y == map_target(
                    t,
                    x,
                );
                assert(has_ref(a, x));
            }
            assert forall|y: ObjectId|
                (exists|x: ObjectId| #[trigger] has_ref(a, x) && y == map_target(t, x))
                implies #[trigger] has_ref(b, y) by {
                let x = choose|x: ObjectId| #[trigger] has_ref(a, x) && y == map_target(t, x);
                let i = choose|i: int| 0 <= i < ps@.len() && has_ref(ps@[i].1, x);
                lemma_rewritten_refs(ps@[i].1, qs@[i].1, t);
                assert(has_ref(qs@[i].1, y));
            }
        },
        _ => {},
    }
}

} // verus!
