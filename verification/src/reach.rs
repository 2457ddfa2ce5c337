//! The reachability collector: computes the set of ids transitively
//! reachable from a root by following every reference in every visited
//! node, with cycle termination and a fixed visitation bound.
use vstd::prelude::*;

use crate::graph::Graph;
use crate::model::Node;
use crate::model::ObjectId;
use crate::model::has_ref;

verus! {

/// Structural corruption: a reference that does not resolve, or a traversal
/// that would visit more objects than the fixed bound allows.
#[derive(Clone, Copy, PartialEq, Eq, Structural, Debug)]
pub enum StructuralError {
    DanglingReference(ObjectId),
    OversizedGraph,
}

/// The visitation bound: a traversal never expands more objects than this.
pub const VISIT_BOUND: usize = 10000;

/// One reference step from a stored object to a non-sentinel target.
pub open spec fn edge(g: Graph, a: ObjectId, b: ObjectId) -> bool {
    &&& g.contains_id(a)
    &&& has_ref(g.node_at(a), b)
    &&& b.number != 0
}

/// A set closed under reference-following.
pub open spec fn closed_set(g: Graph, s: Set<ObjectId>) -> bool {
    forall|a: ObjectId, b: ObjectId| s.contains(a) && #[trigger] edge(g, a, b) ==> s.contains(b)
}

/// `id` is reachable from `root`: it belongs to every closed set that
/// contains the root.
pub open spec fn in_closure(g: Graph, root: ObjectId, id: ObjectId) -> bool {
    forall|s: Set<ObjectId>| #[trigger] closed_set(g, s) && s.contains(root) ==> s.contains(id)
}

/// A collection from `root` can succeed: some closed set of at most
/// `VISIT_BOUND` ids, every one of them stored in the table, covers it.
pub open spec fn collectible(g: Graph, root: ObjectId) -> bool {
    exists|s: Set<ObjectId>|
        #[trigger] closed_set(g, s) && s.contains(root) && s.finite()
            && s.len() <= VISIT_BOUND
            && (forall|id: ObjectId| s.contains(id) ==> g.contains_id(id))
}

/// Reachability steps across one edge.
pub proof fn lemma_closure_step(g: Graph, root: ObjectId, a: ObjectId, b: ObjectId)
    requires
        in_closure(g, root, a),
        edge(g, a, b),
    ensures
        in_closure(g, root, b),
{
    assert forall|s: Set<ObjectId>| #[trigger] closed_set(g, s) && s.contains(root)
        implies s.contains(b) by {
        assert(s.contains(a));
    }
}

/// Whether the vector holds the given id.
pub fn vec_contains_id(v: &Vec<ObjectId>, id: ObjectId) -> (b: bool)
    ensures
        b == v@.contains(id),
{
    let mut i: usize = 0;
    while i < v.len()
        invariant
            0 <= i <= v@.len(),
            forall|j: int| 0 <= j < i ==> v@[j] != id,
        decreases v@.len() - i,
    {
        if v[i] == id {
            return true;
        }
        i = i + 1;
    }
    false
}

/// The reference targets embedded in `n`: an id is in the result exactly
/// when `n` embeds a reference to it.
pub fn collect_node_refs(n: &Node) -> (out: Vec<ObjectId>)
    ensures
        forall|id: ObjectId| out@.contains(id) <==> has_ref(*n, id),
    decreases *n, 0int,
{
    match n {
        Node::Reference(i) => {
            let mut out: Vec<ObjectId> = Vec::new();
            out.push(*i);
            proof {
                assert(out@.contains(*i)) by {
                    assert(out@[0] == *i);
                }
                assert forall|id: ObjectId| out@.contains(id) implies has_ref(*n, id) by {
                    let k = choose|k: int| 0 <= k < out@.len() && out@[k] == id;
                }
            }
            out
        },
        Node::Array(xs) => collect_array_refs(xs, 0),
        Node::Dict(ps) => collect_entries_refs(ps, 0),
        Node::Stream(ps, _) => collect_entries_refs(ps, 0),
        _ => Vec::new(),
    }
}

/// The reference targets embedded in the elements of `xs` from position
/// `from` on.
pub fn collect_array_refs(xs: &Vec<Node>, from: usize) -> (out: Vec<ObjectId>)
    requires
        from <= xs@.len(),
    ensures
        forall|id: ObjectId| out@.contains(id)
            <==> (exists|j: int| from <= j < xs@.len() && has_ref(#[trigger] xs@[j], id)),
    decreases xs@, xs@.len() - from,
{
    if from < xs.len() {
        let mut out = collect_node_refs(&xs[from]);
        let ghost first = out@;
        let mut rest = collect_array_refs(xs, from + 1);
        let ghost second = rest@;
        out.append(&mut rest);
        proof {
            assert(out@ == first + second);
            assert forall|id: ObjectId| out@.contains(id)
                implies (exists|j: int| from <= j < xs@.len()
                    && has_ref(#[trigger] xs@[j], id)) by {
                let k = choose|k: int| 0 <= k < out@.len() && out@[k] == id;
                if k < first.len() {
                    assert(first[k] == id);
                    assert(first.contains(id));
                    assert(has_ref(xs@[from as int], id));
                } else {
                    assert(second[k - first.len()] == id);
                    assert(second.contains(id));
                    let j = choose|j: int|
                        from + 1 <= j < xs@.len() && has_ref(#[trigger] xs@[j], id);
                    assert(has_ref(xs@[j], id));
                }
            }
            assert forall|id: ObjectId|
                (exists|j: int| from <= j < xs@.len() && has_ref(#[trigger] xs@[j], id))
                implies out@.contains(id) by {
                let j = choose|j: int|
                    from <= j < xs@.len() && has_ref(#[trigger] xs@[j], id);
                if j == from {
                    assert(first.contains(id));
                    let k = choose|k: int| 0 <= k < first.len() && first[k] == id;
                    assert(out@[k] == id);
                } else {
                    assert(second.contains(id));
                    let k = choose|k: int| 0 <= k < second.len() && second[k] == id;
                    assert(out@[first.len() + k] == id);
                }
            }
        }
        out
    } else {
        Vec::new()
    }
}

/// The reference targets embedded in the entry values of `ps` from position
/// `from` on.
pub fn collect_entries_refs(ps: &Vec<(Vec<u8>, Node)>, from: usize) -> (out: Vec<ObjectId>)
    requires
        from <= ps@.len(),
    ensures
        forall|id: ObjectId| out@.contains(id)
            <==> (exists|j: int| from <= j < ps@.len() && has_ref((#[trigger] ps@[j]).1, id)),
    decreases ps@, ps@.len() - from,
{
    if from < ps.len() {
        let mut out = collect_node_refs(&ps[from].1);
        let ghost first = out@;
        let mut rest = collect_entries_refs(ps, from + 1);
        let ghost second = rest@;
        out.append(&mut rest);
        proof {
            assert(out@ == first + second);
            assert forall|id: ObjectId| out@.contains(id)
                implies (exists|j: int| from <= j < ps@.len()
                    && has_ref((#[trigger] ps@[j]).1, id)) by {
                let k = choose|k: int| 0 <= k < out@.len() && out@[k] == id;
                if k < first.len() {
                    assert(first[k] == id);
                    assert(first.contains(id));
                    assert(has_ref(ps@[from as int].1, id));
                } else {
                    assert(second[k - first.len()] == id);
                    assert(second.contains(id));
                    let j = choose|j: int|
                        from + 1 <= j < ps@.len() && has_ref((#[trigger] ps@[j]).1, id);
                    assert(has_ref(ps@[j].1, id));
                }
            }
            assert forall|id: ObjectId|
                (exists|j: int| from <= j < ps@.len() && has_ref((#[trigger] ps@[j]).1, id))
                implies out@.contains(id) by {
                let j = choose|j: int|
                    from <= j < ps@.len() && has_ref((#[trigger] ps@[j]).1, id);
                if j == from {
                    assert(first.contains(id));
                    let k = choose|k: int| 0 <= k < first.len() && first[k] == id;
                    assert(out@[k] == id);
                } else {
                    assert(second.contains(id));
                    let k = choose|k: int| 0 <= k < second.len() && second[k] == id;
                    assert(out@[first.len() + k] == id);
                }
            }
        }
        out
    } else {
        Vec::new()
    }
}

/// Collects the ids transitively reachable from `root`, following every
/// reference of every visited node, depth first, with a visited set that
/// both deduplicates and terminates cycles.
///
/// The sentinel id (number 0) is never visited and never returned. A
/// reference to an id absent from the object table aborts the collection
/// with a dangling-reference error; a traversal that would expand more than
/// `VISIT_BOUND` objects aborts with an oversized-graph error. Collection
/// succeeds exactly when neither bound is hit, and then returns exactly the
/// reachable ids.
#[verifier::loop_isolation(false)]
pub fn collect_referenced_objects(g: &Graph, root: ObjectId) -> (r: Result<
    Vec<ObjectId>,
    StructuralError,
>)
    requires
        g.wf(),
    ensures
        match r {
            Ok(v) => {
                &&& v@.no_duplicates()
                &&& v@.len() <= VISIT_BOUND
                &&& (root.number != 0 ==> forall|id: ObjectId|
                    v@.contains(id) <==> in_closure(*g, root, id))
                &&& (root.number == 0 ==> v@.len() == 0)
                &&& (forall|id: ObjectId| #[trigger] v@.contains(id)
                    ==> g.contains_id(id) && id.number != 0)
            },
            Err(e) => {
                &&& root.number != 0
                &&& !collectible(*g, root)
                &&& (e matches StructuralError::DanglingReference(id)
                    ==> in_closure(*g, root, id) && !g.contains_id(id) && id.number != 0)
            },
        },
{
    if root.number == 0 {
        return Ok(Vec::new());
    }
    let mut visited: Vec<ObjectId> = Vec::new();
    let mut stack: Vec<ObjectId> = Vec::new();
    stack.push(root);
    proof {
        assert(stack@[0] == root);
        assert(stack@.contains(root));
        assert forall|id: ObjectId| #[trigger] stack@.contains(id) implies id == root by {
            let k = choose|k: int| 0 <= k < stack@.len() && stack@[k] == id;
        }
    }
    while stack.len() > 0
        invariant
            visited@.no_duplicates(),
            visited@.len() <= VISIT_BOUND,
            forall|id: ObjectId| #[trigger] visited@.contains(id)
                ==> g.contains_id(id) && id.number != 0 && in_closure(*g, root, id),
            forall|id: ObjectId| #[trigger] stack@.contains(id)
                ==> id.number != 0 && in_closure(*g, root, id),
            forall|a: ObjectId, b: ObjectId|
                visited@.contains(a) && #[trigger] edge(*g, a, b)
                    ==> visited@.contains(b) || stack@.contains(b),
            visited@.contains(root) || stack@.contains(root),
        decreases VISIT_BOUND + 1 - visited@.len(), stack@.len(),
    {
        let ghost old_stack = stack@;
        let ghost old_visited = visited@;
        let id = match stack.pop() {
            Some(x) => x,
            None => {
                proof {
                    assert(false);
                }
                root
            },
        };
        proof {
            assert(old_stack.contains(id)) by {
                assert(old_stack[old_stack.len() - 1] == id);
            }
            assert forall|x: ObjectId| #[trigger] stack@.contains(x)
                implies old_stack.contains(x) by {
                let k = choose|k: int| 0 <= k < stack@.len() && stack@[k] == x;
                assert(old_stack[k] == x);
            }
        }
        if !vec_contains_id(&visited, id) {
            match g.get(id) {
                None => {
                    proof {
                        assert(in_closure(*g, root, id));
                        if collectible(*g, root) {
                            let s = choose|s: Set<ObjectId>|
                                #[trigger] closed_set(*g, s) && s.contains(root) && s.finite()
                                    && s.len() <= VISIT_BOUND
                                    && (forall|x: ObjectId| s.contains(x) ==> g.contains_id(x));
                            assert(s.contains(id));
                            assert(g.contains_id(id));
                        }
                    }
                    return Err(StructuralError::DanglingReference(id));
                },
                Some(node) => {
                    visited.push(id);
                    proof {
                        assert forall|x: ObjectId| #[trigger] visited@.contains(x)
                            implies old_visited.contains(x) || x == id by {
                            let k = choose|k: int| 0 <= k < visited@.len() && visited@[k] == x;
                            if k < old_visited.len() {
                                assert(old_visited[k] == x);
                            }
                        }
                        assert(visited@.contains(id)) by {
                            assert(visited@[visited@.len() - 1] == id);
                        }
                        assert forall|x: ObjectId| old_visited.contains(x)
                            implies visited@.contains(x) by {
                            let k = choose|k: int| 0 <= k < old_visited.len()
                                && old_visited[k] == x;
                            assert(visited@[k] == x);
                        }
                        assert(visited@.no_duplicates()) by {
                            assert forall|i: int, j: int|
                                0 <= i < visited@.len() && 0 <= j < visited@.len() && i != j
                                implies visited@[i] != visited@[j] by {
                                if i < old_visited.len() && j < old_visited.len() {
                                } else if i == old_visited.len() {
                                    assert(!old_visited.contains(id));
                                    assert(old_visited[j] == visited@[j]);
                                } else if j == old_visited.len() {
                                    assert(!old_visited.contains(id));
                                    assert(old_visited[i] == visited@[i]);
                                }
                            }
                        }
                    }
                    if visited.len() > VISIT_BOUND {
                        proof {
                            if collectible(*g, root) {
                                let s = choose|s: Set<ObjectId>|
                                    #[trigger] closed_set(*g, s) && s.contains(root) && s.finite()
                                        && s.len() <= VISIT_BOUND
                                        && (forall|x: ObjectId|
                                        s.contains(x) ==> g.contains_id(x));
                                assert forall|x: ObjectId| visited@.to_set().contains(x)
                                    implies s.contains(x) by {
                                    assert(visited@.contains(x));
                                    assert(in_closure(*g, root, x));
                                }
                                visited@.unique_seq_to_set();
                                vstd::set_lib::lemma_len_subset(visited@.to_set(), s);
                            }
                        }
                        return Err(StructuralError::OversizedGraph);
                    }
                    let refs = collect_node_refs(node);
                    let ghost stack_before = stack@;
                    let mut j: usize = 0;
                    while j < refs.len()
                        invariant
                            0 <= j <= refs@.len(),
                            forall|x: ObjectId| stack_before.contains(x)
                                ==> #[trigger] stack@.contains(x),
                            forall|x: ObjectId| #[trigger] stack@.contains(x)
                                ==> x.number != 0 && in_closure(*g, root, x),
                            forall|k: int| 0 <= k < j && (#[trigger] refs@[k]).number != 0
                                ==> stack@.contains(refs@[k]),
                        decreases refs@.len() - j,
                    {
                        let ghost stack_pre = stack@;
                        let b = refs[j];
                        if b.number != 0 {
                            proof {
                                assert(has_ref(*node, b)) by {
                                    assert(refs@.contains(b));
                                }
                                assert(edge(*g, id, b));
                                lemma_closure_step(*g, root, id, b);
                            }
                            stack.push(b);
                            proof {
                                assert forall|x: ObjectId| #[trigger] stack@.contains(x)
                                    implies stack_pre.contains(x) || x == b by {
                                    let k = choose|k: int|
                                        0 <= k < stack@.len() && stack@[k] == x;
                                    if k < stack_pre.len() {
                                        assert(stack_pre[k] == x);
                                    }
                                }
                                assert forall|x: ObjectId| stack_pre.contains(x)
                                    implies #[trigger] stack@.contains(x) by {
                                    let k = choose|k: int|
                                        0 <= k < stack_pre.len() && stack_pre[k] == x;
                                    assert(stack@[k] == x);
                                }
                                assert(stack@.contains(b)) by {
                                    assert(stack@[stack@.len() - 1] == b);
                                }
                            }
                        }
                        j = j + 1;
                    }
                    proof {
                        assert forall|a: ObjectId, b: ObjectId|
                            visited@.contains(a) && #[trigger] edge(*g, a, b)
                            implies visited@.contains(b) || stack@.contains(b) by {
                            if a == id {
                                assert(has_ref(*node, b));
                                assert(refs@.contains(b));
                                let k = choose|k: int|
                                    0 <= k < refs@.len() && refs@[k] == b;
                                assert(stack@.contains(refs@[k]));
                            } else {
                                assert(old_visited.contains(a));
                                if old_stack.contains(b) {
                                    let k = choose|k: int|
                                        0 <= k < old_stack.len() && old_stack[k] == b;
                                    if k < old_stack.len() - 1 {
                                        assert(stack_before[k] == b);
                                        assert(stack_before.contains(b));
                                        assert(stack@.contains(b));
                                    } else {
                                        assert(b == id);
                                    }
                                }
                            }
                        }
                        if visited@.contains(root) {
                        } else {
                            assert(old_stack.contains(root));
                            let k = choose|k: int|
                                0 <= k < old_stack.len() && old_stack[k] == root;
                            if k < old_stack.len() - 1 {
                                assert(stack_before[k] == root);
                                assert(stack_before.contains(root));
                                assert(stack@.contains(root));
                            } else {
                                assert(root == id);
                                assert(visited@.contains(root));
                            }
                        }
                    }
                },
            }
        } else {
            proof {
                assert(visited@.contains(id));
                assert forall|a: ObjectId, b: ObjectId|
                    visited@.contains(a) && #[trigger] edge(*g, a, b)
                    implies visited@.contains(b) || stack@.contains(b) by {
                    if old_stack.contains(b) {
                        let k = choose|k: int| 0 <= k < old_stack.len() && old_stack[k] == b;
                        if k < stack@.len() {
                            assert(stack@[k] == b);
                        } else {
                            assert(b == id);
                        }
                    }
                }
                if stack@.contains(root) {
                } else if old_stack.contains(root) {
                    let k = choose|k: int| 0 <= k < old_stack.len() && old_stack[k] == root;
                    if k < stack@.len() {
                        assert(stack@[k] == root);
                    } else {
                        assert(root == id);
                    }
                }
            }
        }
    }
    proof {
        let vs = visited@.to_set();
        assert(closed_set(*g, vs)) by {
            assert forall|a: ObjectId, b: ObjectId|
                vs.contains(a) && #[trigger] edge(*g, a, b) implies vs.contains(b) by {
                assert(visited@.contains(a));
                assert(visited@.contains(b) || stack@.contains(b));
            }
        }
        assert(vs.contains(root));
        assert forall|id: ObjectId| in_closure(*g, root, id)
            implies visited@.contains(id) by {
            assert(closed_set(*g, vs) && vs.contains(root) ==> vs.contains(id));
        }
    }
    Ok(visited)
}

/// Law: a traversal from a root that is part of a two-cycle — the root
/// references a node that references it back — terminates with exactly the
/// reachable ids, both ends of the cycle among them. Termination itself
/// needs no side condition: every collection terminates, because the
/// visited set never re-expands an id and is bounded.
pub proof fn lemma_two_cycle_collected(
    g: Graph,
    a: ObjectId,
    b: ObjectId,
    v: Seq<ObjectId>,
)
    requires
        g.wf(),
        g.contains_id(a),
        g.contains_id(b),
        a.number != 0,
        b.number != 0,
        has_ref(g.node_at(a), b),
        has_ref(g.node_at(b), a),
        forall|id: ObjectId| v.contains(id) <==> in_closure(g, a, id),
    ensures
        v.contains(a),
        v.contains(b),
{
    assert(in_closure(g, a, a));
    assert(edge(g, a, b));
    lemma_closure_step(g, a, a, b);
}

} // verus!


