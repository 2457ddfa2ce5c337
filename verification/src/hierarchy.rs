//! The hierarchy assembler: builds a balanced grouping tree over an ordered
//! sequence of entry point references, bounding every node's child-list
//! width by a fixed fan-out.
use vstd::prelude::*;

use crate::graph::Graph;
use crate::model::Node;
use crate::model::ObjectId;

verus! {

/// The bytes of the key naming a node's kind.
pub open spec fn spec_key_type() -> Seq<u8> {
    seq![84u8, 121u8, 112u8, 101u8]
}

/// The bytes of the key listing a grouping node's children.
pub open spec fn spec_key_kids() -> Seq<u8> {
    seq![75u8, 105u8, 100u8, 115u8]
}

/// The bytes of the key recording a grouping node's entry point count.
pub open spec fn spec_key_count() -> Seq<u8> {
    seq![67u8, 111u8, 117u8, 110u8, 116u8]
}

/// The bytes of the kind name of a grouping node.
pub open spec fn spec_name_pages() -> Seq<u8> {
    seq![80u8, 97u8, 103u8, 101u8, 115u8]
}

/// The key naming a node's kind ("Type").
pub fn key_type() -> (r: Vec<u8>)
    ensures
        r@ == spec_key_type(),
{
    let mut v: Vec<u8> = Vec::new();
    v.push(84);
    v.push(121);
    v.push(112);
    v.push(101);
    proof {
        assert(v@ =~= spec_key_type());
    }
    v
}

/// The key listing a grouping node's children ("Kids").
pub fn key_kids() -> (r: Vec<u8>)
    ensures
        r@ == spec_key_kids(),
{
    let mut v: Vec<u8> = Vec::new();
    v.push(75);
    v.push(105);
    v.push(100);
    v.push(115);
    proof {
        assert(v@ =~= spec_key_kids());
    }
    v
}

/// The key recording a grouping node's entry point count ("Count").
pub fn key_count() -> (r: Vec<u8>)
    ensures
        r@ == spec_key_count(),
{
    let mut v: Vec<u8> = Vec::new();
    v.push(67);
    v.push(111);
    v.push(117);
    v.push(110);
    v.push(116);
    proof {
        assert(v@ =~= spec_key_count());
    }
    v
}

/// The kind name of a grouping node ("Pages").
pub fn name_pages() -> (r: Vec<u8>)
    ensures
        r@ == spec_name_pages(),
{
    let mut v: Vec<u8> = Vec::new();
    v.push(80);
    v.push(97);
    v.push(103);
    v.push(101);
    v.push(115);
    proof {
        assert(v@ =~= spec_name_pages());
    }
    v
}

/// A hierarchy node: a dictionary with exactly the kind tag, the child
/// list — an array of references — and the recorded entry point count.
pub open spec fn is_hier_node(n: Node) -> bool {
    &&& n is Dict
    &&& n->Dict_0@.len() == 3
    &&& n->Dict_0@[0].0@ == spec_key_type()
    &&& n->Dict_0@[0].1 matches Node::Name(p) && p@ == spec_name_pages()
    &&& n->Dict_0@[1].0@ == spec_key_kids()
    &&& n->Dict_0@[1].1 matches Node::Array(ks)
        && (forall|i: int| 0 <= i < ks@.len() ==> (#[trigger] ks@[i]) is Reference)
    &&& n->Dict_0@[2].0@ == spec_key_count()
    &&& n->Dict_0@[2].1 is Integer
}

/// The child ids of a hierarchy node, in order.
pub open spec fn hier_kid_ids(n: Node) -> Seq<ObjectId>
    recommends
        is_hier_node(n),
{
    n->Dict_0@[1].1->Array_0@.map_values(
        |k: Node|
            match k {
                Node::Reference(i) => i,
                _ => ObjectId { number: 0, generation: 0 },
            },
    )
}

/// The recorded entry point count of a hierarchy node.
pub open spec fn hier_count(n: Node) -> int
    recommends
        is_hier_node(n),
{
    n->Dict_0@[2].1->Integer_0 as int
}

/// Builds one hierarchy node over the given child ids with the given count.
pub fn make_hier_node(kid_ids: &Vec<ObjectId>, count: u64) -> (n: Node)
    requires
        count <= i64::MAX,
    ensures
        is_hier_node(n),
        hier_kid_ids(n) == kid_ids@,
        hier_count(n) == count,
{
    let mut kids: Vec<Node> = Vec::new();
    let mut i: usize = 0;
    #[verifier::loop_isolation(false)]
    while i < kid_ids.len()
        invariant
            0 <= i <= kid_ids@.len(),
            kids@.len() == i,
            forall|j: int| 0 <= j < i ==> (#[trigger] kids@[j]) == Node::Reference(kid_ids@[j]),
        decreases kid_ids@.len() - i,
    {
        kids.push(Node::Reference(kid_ids[i]));
        i = i + 1;
    }
    let mut entries: Vec<(Vec<u8>, Node)> = Vec::new();
    entries.push((key_type(), Node::Name(name_pages())));
    entries.push((key_kids(), Node::Array(kids)));
    entries.push((key_count(), Node::Integer(count as i64)));
    let n = Node::Dict(entries);
    proof {
        assert(hier_kid_ids(n) =~= kid_ids@);
    }
    n
}

} // verus!

verus! {

/// The total of the per-item entry point counts of a level.
pub open spec fn sum_counts(s: Seq<(ObjectId, u64)>) -> int
    decreases s.len(),
{
    if s.len() == 0 {
        0
    } else {
        s[0].1 + sum_counts(s.drop_first())
    }
}

/// Counts never sum to a negative total.
pub proof fn lemma_sum_nonneg(s: Seq<(ObjectId, u64)>)
    ensures
        sum_counts(s) >= 0,
    decreases s.len(),
{
    if s.len() > 0 {
        lemma_sum_nonneg(s.drop_first());
    }
}

/// A single item's total is its count.
pub proof fn lemma_sum_singleton(p: (ObjectId, u64))
    ensures
        sum_counts(seq![p]) == p.1,
{
    assert(seq![p].drop_first() =~= Seq::<(ObjectId, u64)>::empty());
    assert(sum_counts(Seq::<(ObjectId, u64)>::empty()) == 0);
    assert(seq![p][0] == p);
}

/// Count totals add over concatenation.
pub proof fn lemma_sum_concat(a: Seq<(ObjectId, u64)>, b: Seq<(ObjectId, u64)>)
    ensures
        sum_counts(a + b) == sum_counts(a) + sum_counts(b),
    decreases a.len(),
{
    if a.len() == 0 {
        assert(a + b =~= b);
    } else {
        assert((a + b).drop_first() =~= a.drop_first() + b);
        assert((a + b)[0] == a[0]);
        lemma_sum_concat(a.drop_first(), b);
    }
}

/// The ids and the count total of the level slice `[from, to)`.
#[verifier::loop_isolation(false)]
fn collect_chunk(level: &Vec<(ObjectId, u64)>, from: usize, to: usize) -> (r: (Vec<ObjectId>, u64))
    requires
        from < to <= level@.len(),
        sum_counts(level@.subrange(from as int, to as int)) <= u32::MAX,
    ensures
        r.0@ == level@.subrange(from as int, to as int).map_values(|p: (ObjectId, u64)| p.0),
        r.0@.len() == to - from,
        r.1 == sum_counts(level@.subrange(from as int, to as int)),
{
    let mut ids: Vec<ObjectId> = Vec::new();
    let mut sum: u64 = 0;
    let mut k: usize = from;
    while k < to
        invariant
            from <= k <= to,
            ids@ =~= level@.subrange(from as int, k as int).map_values(
                |p: (ObjectId, u64)| p.0,
            ),
            ids@.len() == k - from,
            sum == sum_counts(level@.subrange(from as int, k as int)),
        decreases to - k,
    {
        proof {
            let pre = level@.subrange(from as int, k as int);
            let one = seq![level@[k as int]];
            assert(level@.subrange(from as int, k as int + 1) =~= pre + one);
            lemma_sum_concat(pre, one);
            lemma_sum_singleton(level@[k as int]);
            let done = level@.subrange(from as int, k as int + 1);
            let rest = level@.subrange(k as int + 1, to as int);
            assert(level@.subrange(from as int, to as int) =~= done + rest);
            lemma_sum_concat(done, rest);
            lemma_sum_nonneg(rest);
            lemma_sum_nonneg(pre);
        }
        sum = sum + level[k].1;
        ids.push(level[k].0);
        k = k + 1;
        proof {
            assert(ids@ =~= level@.subrange(from as int, k as int).map_values(
                |p: (ObjectId, u64)| p.0,
            ));
        }
    }
    (ids, sum)
}

/// Assembles the facts about the final root node added over the last
/// level: the whole tree it closes, the direct listing when one level
/// suffices, and the exact two-level shape when one chunking pass was
/// enough.
#[verifier::rlimit(100)]
proof fn lemma_assemble_root(
    g_pre: Graph,
    g: Graph,
    old_g: Graph,
    root: ObjectId,
    level: Seq<(ObjectId, u64)>,
    bounds: Seq<(int, int)>,
    rounds: nat,
    fanout: int,
    refs: Seq<ObjectId>,
)
    requires
        fanout >= 2,
        refs.len() >= 1,
        1 <= level.len() <= fanout,
        bounds.len() == level.len(),
        bounds[0].0 == 0,
        bounds[bounds.len() - 1].1 == refs.len(),
        forall|j: int| 0 <= j < bounds.len()
            ==> 0 <= (#[trigger] bounds[j]).0 < bounds[j].1 <= refs.len(),
        forall|j: int| 0 <= j < bounds.len() - 1 ==> (#[trigger] bounds[j]).1 == bounds[j + 1].0,
        forall|j: int| 0 <= j < level.len()
            ==> (#[trigger] level[j]).1 == bounds[j].1 - bounds[j].0,
        forall|j: int|
            #![trigger level[j]]
            0 <= j < level.len() ==> hier_tree(g_pre, level[j].0, rounds, fanout)
                && hier_leaves(g_pre, level[j].0, rounds) == refs.subrange(
                bounds[j].0,
                bounds[j].1,
            ),
        rounds == 0 ==> level.len() == refs.len() && (forall|j: int|
            0 <= j < level.len() ==> (#[trigger] level[j]) == (refs[j], 1u64)) && (forall|
            j: int,
        |
            0 <= j < bounds.len() ==> (#[trigger] bounds[j]) == (j, j + 1)),
        refs.len() <= fanout ==> rounds == 0,
        refs.len() > fanout ==> rounds >= 1,
        fanout < refs.len() && refs.len() <= fanout * fanout ==> rounds <= 1,
        rounds >= 1 ==> forall|j: int|
            0 <= j < level.len() ==> g_pre.contains_id((#[trigger] level[j]).0)
                && !old_g.contains_id(level[j].0),
        rounds == 1 ==> forall|j: int|
            0 <= j < bounds.len() ==> (#[trigger] bounds[j]) == (
            fanout * j,
            if fanout * (j + 1) <= refs.len() {
                fanout * (j + 1)
            } else {
                refs.len() as int
            },
        ),
        forall|x: ObjectId| g_pre.contains_id(x)
            ==> g.contains_id(x) && g.node_at(x) == g_pre.node_at(x),
        g.contains_id(root),
        is_hier_node(g.node_at(root)),
        hier_kid_ids(g.node_at(root)) == level.map_values(|p: (ObjectId, u64)| p.0),
        hier_count(g.node_at(root)) == refs.len(),
    ensures
        hier_tree(g, root, (rounds + 1) as nat, fanout),
        hier_leaves(g, root, (rounds + 1) as nat) == refs,
        refs.len() <= fanout ==> hier_kid_ids(g.node_at(root)) == refs
            && hier_tree(g, root, 1, fanout) && hier_leaves(g, root, 1) == refs,
        forall|q: int| 0 <= q < hier_kid_ids(g.node_at(root)).len()
            ==> refs.contains(#[trigger] hier_kid_ids(g.node_at(root))[q])
            || (g.contains_id(hier_kid_ids(g.node_at(root))[q]) && !old_g.contains_id(
                hier_kid_ids(g.node_at(root))[q],
            )),
        fanout < refs.len() && refs.len() <= fanout * fanout ==> {
            &&& hier_tree(g, root, 2, fanout)
            &&& hier_leaves(g, root, 2) == refs
            &&& fanout * (hier_kid_ids(g.node_at(root)).len() - 1) < refs.len()
            &&& refs.len() <= fanout * hier_kid_ids(g.node_at(root)).len()
            &&& forall|j: int|
                #![trigger hier_kid_ids(g.node_at(root))[j]]
                0 <= j < hier_kid_ids(g.node_at(root)).len()
                    ==> g.contains_id(hier_kid_ids(g.node_at(root))[j])
                    && !old_g.contains_id(hier_kid_ids(g.node_at(root))[j])
                    && is_hier_node(g.node_at(hier_kid_ids(g.node_at(root))[j]))
                    && hier_kid_ids(g.node_at(hier_kid_ids(g.node_at(root))[j]))
                    == refs.subrange(
                    fanout * j,
                    if fanout * (j + 1) <= refs.len() {
                        fanout * (j + 1)
                    } else {
                        refs.len() as int
                    },
                )
                    && hier_count(g.node_at(hier_kid_ids(g.node_at(root))[j])) == (if fanout
                    * (j + 1) <= refs.len() {
                    fanout * (j + 1)
                } else {
                    refs.len() as int
                }) - fanout * j
        },
{
    let ids = level.map_values(|p: (ObjectId, u64)| p.0);
    lemma_level_span(g_pre, level, bounds, 0, level.len() as int, rounds, fanout, refs);
    assert(level.subrange(0, level.len() as int) =~= level);
    assert(hier_tree_list(g_pre, ids, rounds, fanout));
    assert(hier_leaves_list(g_pre, ids, rounds) == refs.subrange(
        bounds[0].0,
        bounds[bounds.len() - 1].1,
    ));
    lemma_hier_list_preserved(g_pre, g, ids, rounds, fanout);
    assert(refs.subrange(bounds[0].0, bounds[bounds.len() - 1].1) =~= refs);
    assert(hier_leaves(g, root, (rounds + 1) as nat) == refs);
    assert(hier_tree(g, root, (rounds + 1) as nat, fanout));
    assert forall|j: int|
        #![trigger level[j]]
        0 <= j < level.len() implies hier_tree(g, level[j].0, rounds, fanout) && hier_leaves(
        g,
        level[j].0,
        rounds,
    ) == refs.subrange(bounds[j].0, bounds[j].1) by {
        lemma_hier_preserved(g_pre, g, level[j].0, rounds, fanout);
    }
    if refs.len() <= fanout {
        assert(ids =~= refs);
    }
    assert forall|q: int| 0 <= q < hier_kid_ids(g.node_at(root)).len()
        implies refs.contains(#[trigger] hier_kid_ids(g.node_at(root))[q]) || (g.contains_id(
        hier_kid_ids(g.node_at(root))[q],
    ) && !old_g.contains_id(hier_kid_ids(g.node_at(root))[q])) by {
        assert(hier_kid_ids(g.node_at(root))[q] == level[q].0);
        if rounds == 0 {
            assert(level[q] == (refs[q], 1u64));
            assert(refs.contains(level[q].0)) by {
                assert(refs[q] == level[q].0);
            }
        }
    }
    if fanout < refs.len() && refs.len() <= fanout * fanout {
        assert(rounds == 1);
        assert forall|j: int|
            #![trigger hier_kid_ids(g.node_at(root))[j]]
            0 <= j < hier_kid_ids(g.node_at(root)).len() implies g.contains_id(
            hier_kid_ids(g.node_at(root))[j],
        ) && !old_g.contains_id(hier_kid_ids(g.node_at(root))[j]) && is_hier_node(
            g.node_at(hier_kid_ids(g.node_at(root))[j]),
        ) && hier_kid_ids(g.node_at(hier_kid_ids(g.node_at(root))[j])) == refs.subrange(
            fanout * j,
            if fanout * (j + 1) <= refs.len() {
                fanout * (j + 1)
            } else {
                refs.len() as int
            },
        ) && hier_count(g.node_at(hier_kid_ids(g.node_at(root))[j])) == (if fanout * (j + 1)
            <= refs.len() {
            fanout * (j + 1)
        } else {
            refs.len() as int
        }) - fanout * j by {
            let kid = hier_kid_ids(g.node_at(root))[j];
            assert(kid == level[j].0);
            assert(hier_tree(g, kid, 1, fanout));
            assert(hier_leaves(g, kid, 1) == refs.subrange(bounds[j].0, bounds[j].1));
            lemma_leaves_list_zero(g, hier_kid_ids(g.node_at(kid)));
            assert(hier_leaves(g, kid, 1) == hier_leaves_list(
                g,
                hier_kid_ids(g.node_at(kid)),
                0,
            ));
        }
    }
}

/// Builds the hierarchy over `page_refs` with the fan-out bound `fanout`:
/// the inputs are chunked into groups of at most `fanout`, each group gets
/// a hierarchy node, and levels of nodes are grouped in turn until at most
/// `fanout` remain under a single root, whose recorded count is the number
/// of inputs. When the input list already fits the fan-out, the root lists
/// it directly.
#[verifier::rlimit(100)]
#[verifier::spinoff_prover]
#[verifier::loop_isolation(false)]
pub fn create_page_tree(g: &mut Graph, page_refs: &Vec<ObjectId>, fanout: usize) -> (root:
    ObjectId)
    requires
        old(g).wf(),
        fanout >= 2,
        1 <= page_refs@.len(),
        old(g).max_id + 2 * page_refs@.len() <= u32::MAX,
    ensures
        final(g).wf(),
        final(g).trailer == old(g).trailer,
        final(g).entry_points == old(g).entry_points,
        final(g).version == old(g).version,
        forall|x: ObjectId| old(g).contains_id(x)
            ==> final(g).contains_id(x) && final(g).node_at(x) == old(g).node_at(x),
        final(g).objects@.len() - old(g).objects@.len() == final(g).max_id - old(g).max_id,
        old(g).max_id < final(g).max_id <= old(g).max_id + 2 * page_refs@.len(),
        forall|x: ObjectId| final(g).contains_id(x) && !old(g).contains_id(x)
            ==> is_hier_node(final(g).node_at(x))
                && 1 <= hier_kid_ids(final(g).node_at(x)).len() <= fanout,
        forall|x: ObjectId|
            #![trigger final(g).node_at(x)]
            final(g).contains_id(x) && !old(g).contains_id(x)
                ==> forall|q: int|
                0 <= q < hier_kid_ids(final(g).node_at(x)).len()
                    ==> page_refs@.contains(#[trigger] hier_kid_ids(final(g).node_at(x))[q])
                    || (final(g).contains_id(hier_kid_ids(final(g).node_at(x))[q])
                        && !old(g).contains_id(hier_kid_ids(final(g).node_at(x))[q])),
        final(g).contains_id(root),
        !old(g).contains_id(root),
        is_hier_node(final(g).node_at(root)),
        hier_count(final(g).node_at(root)) == page_refs@.len(),
        root.number == final(g).max_id && root.generation == 0,
        exists|d: nat|
            1 <= d && #[trigger] hier_tree(*final(g), root, d, fanout as int)
                && hier_leaves(*final(g), root, d) == page_refs@,
        page_refs@.len() <= fanout ==> hier_kid_ids(final(g).node_at(root)) == page_refs@
            && final(g).objects@.len() == old(g).objects@.len() + 1
            && root == (ObjectId { number: (old(g).max_id + 1) as u32, generation: 0 })
            && hier_tree(*final(g), root, 1, fanout as int)
            && hier_leaves(*final(g), root, 1) == page_refs@,
        fanout < page_refs@.len() && page_refs@.len() <= fanout * fanout ==> {
            &&& hier_tree(*final(g), root, 2, fanout as int)
            &&& hier_leaves(*final(g), root, 2) == page_refs@
            &&& fanout * (hier_kid_ids(final(g).node_at(root)).len() - 1) < page_refs@.len()
            &&& page_refs@.len() <= fanout * hier_kid_ids(final(g).node_at(root)).len()
            &&& final(g).objects@.len() == old(g).objects@.len() + hier_kid_ids(
                final(g).node_at(root),
            ).len() + 1
            &&& forall|j: int|
                #![trigger hier_kid_ids(final(g).node_at(root))[j]]
                0 <= j < hier_kid_ids(final(g).node_at(root)).len()
                    ==> final(g).contains_id(hier_kid_ids(final(g).node_at(root))[j])
                    && !old(g).contains_id(hier_kid_ids(final(g).node_at(root))[j])
                    && is_hier_node(final(g).node_at(hier_kid_ids(final(g).node_at(root))[j]))
                    && hier_kid_ids(
                    final(g).node_at(hier_kid_ids(final(g).node_at(root))[j]),
                ) == page_refs@.subrange(
                    fanout * j,
                    if fanout * (j + 1) <= page_refs@.len() {
                        fanout * (j + 1)
                    } else {
                        page_refs@.len() as int
                    },
                )
                    && hier_count(final(g).node_at(hier_kid_ids(final(g).node_at(root))[j])) == (
                    if fanout * (j + 1) <= page_refs@.len() {
                        fanout * (j + 1)
                    } else {
                        page_refs@.len() as int
                    }) - fanout * j
        },
{
    let n = page_refs.len();
    let mut level: Vec<(ObjectId, u64)> = Vec::new();
    let mut i: usize = 0;
    while i < n
        invariant
            0 <= i <= n,
            n == page_refs@.len(),
            level@.len() == i,
            forall|j: int| 0 <= j < i ==> (#[trigger] level@[j]) == (page_refs@[j], 1u64),
        decreases n - i,
    {
        level.push((page_refs[i], 1));
        i = i + 1;
    }
    let ghost init_level = level@;
    let ghost mut bounds: Seq<(int, int)> = Seq::new(n as nat, |j: int| (j, j + 1));
    let ghost mut rounds: nat = 0;
    proof {
        assert(init_level.map_values(|p: (ObjectId, u64)| p.0) =~= page_refs@);
        assert forall|j: int| 0 <= j < level@.len()
            implies hier_tree(*g, (#[trigger] level@[j]).0, rounds, fanout as int)
                && hier_leaves(*g, level@[j].0, rounds) == page_refs@.subrange(
                bounds[j].0,
                bounds[j].1,
            ) by {
            assert(hier_leaves(*g, level@[j].0, 0) =~= page_refs@.subrange(j, j + 1));
        }
    }
    while level.len() > fanout
        invariant
            g.wf(),
            n == page_refs@.len(),
            1 <= level@.len() <= n,
            bounds.len() == level@.len(),
            bounds[0].0 == 0,
            bounds[bounds.len() - 1].1 == n,
            forall|j: int| 0 <= j < bounds.len()
                ==> 0 <= (#[trigger] bounds[j]).0 < bounds[j].1 <= n,
            forall|j: int| 0 <= j < bounds.len() - 1
                ==> (#[trigger] bounds[j]).1 == bounds[j + 1].0,
            forall|j: int| 0 <= j < level@.len()
                ==> (#[trigger] level@[j]).1 == bounds[j].1 - bounds[j].0,
            forall|j: int|
                #![trigger level@[j]]
                0 <= j < level@.len() ==> hier_tree(*g, level@[j].0, rounds, fanout as int)
                    && hier_leaves(*g, level@[j].0, rounds) == page_refs@.subrange(
                    bounds[j].0,
                    bounds[j].1,
                ),
            rounds == 0 ==> level@ == init_level && g.objects@ == old(g).objects@
                && g.max_id == old(g).max_id && (forall|j: int|
                0 <= j < bounds.len() ==> (#[trigger] bounds[j]) == (j, j + 1)),
            n <= fanout ==> rounds == 0,
            fanout < n && n <= fanout * fanout ==> rounds <= 1,
            rounds >= 1 ==> forall|j: int|
                0 <= j < level@.len() ==> g.contains_id((#[trigger] level@[j]).0)
                    && !old(g).contains_id(level@[j].0),
            rounds == 1 ==> g.objects@.len() == old(g).objects@.len() + level@.len() && (
            forall|j: int|
                0 <= j < bounds.len() ==> (#[trigger] bounds[j]) == (
                fanout * j,
                if fanout * (j + 1) <= n {
                    fanout * (j + 1)
                } else {
                    n as int
                },
            )),
            old(g).max_id <= g.max_id,
            g.trailer == old(g).trailer,
            g.entry_points == old(g).entry_points,
            g.version == old(g).version,
            forall|x: ObjectId| old(g).contains_id(x)
                ==> g.contains_id(x) && g.node_at(x) == old(g).node_at(x),
            forall|x: ObjectId| g.contains_id(x) && !old(g).contains_id(x)
                ==> is_hier_node(g.node_at(x))
                    && 1 <= hier_kid_ids(g.node_at(x)).len() <= fanout,
            forall|x: ObjectId|
                #![trigger g.node_at(x)]
                g.contains_id(x) && !old(g).contains_id(x) ==> forall|q: int|
                    0 <= q < hier_kid_ids(g.node_at(x)).len()
                        ==> page_refs@.contains(#[trigger] hier_kid_ids(g.node_at(x))[q])
                        || (g.contains_id(hier_kid_ids(g.node_at(x))[q]) && !old(
                        g,
                    ).contains_id(hier_kid_ids(g.node_at(x))[q])),
            g.objects@.len() - old(g).objects@.len() == g.max_id - old(g).max_id,
            g.max_id - old(g).max_id + 2 * level@.len() <= 2 * n,
        decreases level@.len(),
    {
        let ghost level_in = level@;
        let ghost bounds_in = bounds;
        let ghost base_delta = g.max_id - old(g).max_id;
        let m = level.len();
        let mut next: Vec<(ObjectId, u64)> = Vec::new();
        let ghost mut next_bounds: Seq<(int, int)> = Seq::empty();
        let mut pos: usize = 0;
        while pos < m
            invariant
                g.wf(),
                n == page_refs@.len(),
                m == level@.len(),
                fanout < m <= n,
                level@ == level_in,
                bounds == bounds_in,
                bounds.len() == m,
                0 <= pos <= m,
                forall|j: int| 0 <= j < bounds.len()
                    ==> 0 <= (#[trigger] bounds[j]).0 < bounds[j].1 <= n,
                forall|j: int| 0 <= j < bounds.len() - 1
                    ==> (#[trigger] bounds[j]).1 == bounds[j + 1].0,
                bounds[0].0 == 0,
                bounds[bounds.len() - 1].1 == n,
                forall|j: int| 0 <= j < level@.len()
                    ==> (#[trigger] level@[j]).1 == bounds[j].1 - bounds[j].0,
                forall|j: int|
                    #![trigger level@[j]]
                    0 <= j < level@.len() ==> hier_tree(*g, level@[j].0, rounds, fanout as int)
                        && hier_leaves(*g, level@[j].0, rounds) == page_refs@.subrange(
                        bounds[j].0,
                        bounds[j].1,
                    ),
                rounds == 0 ==> level@ == init_level && (forall|j: int|
                    0 <= j < bounds.len() ==> (#[trigger] bounds[j]) == (j, j + 1)),
                rounds >= 1 ==> forall|j: int|
                    0 <= j < level@.len() ==> g.contains_id((#[trigger] level@[j]).0)
                        && !old(g).contains_id(level@[j].0),
                next_bounds.len() == next@.len(),
                next@.len() <= pos,
                pos > 0 ==> next@.len() >= 1,
                pos < m ==> 2 * next@.len() <= pos,
                pos == m ==> 2 * next@.len() <= m + 1,
                pos < m ==> pos == fanout * next@.len(),
                pos == m ==> fanout * (next@.len() - 1) < m && m <= fanout * next@.len(),
                forall|j: int| 0 <= j < next_bounds.len()
                    ==> 0 <= (#[trigger] next_bounds[j]).0 < next_bounds[j].1 <= n,
                forall|j: int| 0 <= j < next_bounds.len() - 1
                    ==> (#[trigger] next_bounds[j]).1 == next_bounds[j + 1].0,
                next@.len() >= 1 ==> next_bounds[0].0 == 0,
                next@.len() >= 1 ==> next_bounds[next_bounds.len() - 1].1 == (if pos < m {
                    bounds[pos as int].0
                } else {
                    n as int
                }),
                forall|j: int| 0 <= j < next@.len()
                    ==> (#[trigger] next@[j]).1 == next_bounds[j].1 - next_bounds[j].0,
                forall|j: int|
                    #![trigger next@[j]]
                    0 <= j < next@.len() ==> g.contains_id(next@[j].0) && !old(g).contains_id(
                        next@[j].0,
                    ) && hier_tree(*g, next@[j].0, (rounds + 1) as nat, fanout as int)
                        && hier_leaves(*g, next@[j].0, (rounds + 1) as nat)
                        == page_refs@.subrange(next_bounds[j].0, next_bounds[j].1),
                rounds == 0 ==> forall|j: int|
                    0 <= j < next_bounds.len() ==> (#[trigger] next_bounds[j]) == (
                    fanout * j,
                    if fanout * (j + 1) <= n {
                        fanout * (j + 1)
                    } else {
                        n as int
                    },
                ),
                g.trailer == old(g).trailer,
                g.entry_points == old(g).entry_points,
                g.version == old(g).version,
                forall|x: ObjectId| old(g).contains_id(x)
                    ==> g.contains_id(x) && g.node_at(x) == old(g).node_at(x),
                forall|x: ObjectId| g.contains_id(x) && !old(g).contains_id(x)
                    ==> is_hier_node(g.node_at(x))
                        && 1 <= hier_kid_ids(g.node_at(x)).len() <= fanout,
                forall|x: ObjectId|
                    #![trigger g.node_at(x)]
                    g.contains_id(x) && !old(g).contains_id(x) ==> forall|q: int|
                        0 <= q < hier_kid_ids(g.node_at(x)).len()
                            ==> page_refs@.contains(#[trigger] hier_kid_ids(g.node_at(x))[q])
                            || (g.contains_id(hier_kid_ids(g.node_at(x))[q]) && !old(
                            g,
                        ).contains_id(hier_kid_ids(g.node_at(x))[q])),
                g.objects@.len() - old(g).objects@.len() == g.max_id - old(g).max_id,
                g.max_id - old(g).max_id == base_delta + next@.len(),
                base_delta + 2 * m <= 2 * n,
                base_delta >= 0,
            decreases m - pos,
        {
            let end = if fanout < m - pos {
                pos + fanout
            } else {
                m
            };
            proof {
                lemma_level_span(
                    *g,
                    level@,
                    bounds,
                    pos as int,
                    end as int,
                    rounds,
                    fanout as int,
                    page_refs@,
                );
            }
            let (chunk_ids, chunk_sum) = collect_chunk(&level, pos, end);
            let node = make_hier_node(&chunk_ids, chunk_sum);
            let ghost g_pre = *g;
            let id = g.add_object(node);
            let ghost next_prev = next@;
            let ghost nb_prev = next_bounds;
            next.push((id, chunk_sum));
            proof {
                next_bounds = next_bounds.push((bounds[pos as int].0, bounds[end - 1].1));
                lemma_hier_list_preserved(g_pre, *g, chunk_ids@, rounds, fanout as int);
                assert(hier_leaves(*g, id, (rounds + 1) as nat) == page_refs@.subrange(
                    bounds[pos as int].0,
                    bounds[end - 1].1,
                ));
                assert(hier_tree(*g, id, (rounds + 1) as nat, fanout as int));
                assert forall|j: int|
                    #![trigger next@[j]]
                    0 <= j < next@.len() implies g.contains_id(next@[j].0) && !old(
                    g,
                ).contains_id(next@[j].0) && hier_tree(
                    *g,
                    next@[j].0,
                    (rounds + 1) as nat,
                    fanout as int,
                ) && hier_leaves(*g, next@[j].0, (rounds + 1) as nat) == page_refs@.subrange(
                    next_bounds[j].0,
                    next_bounds[j].1,
                ) by {
                    if j < next_prev.len() {
                        assert(next@[j] == next_prev[j]);
                        lemma_hier_preserved(
                            g_pre,
                            *g,
                            next_prev[j].0,
                            (rounds + 1) as nat,
                            fanout as int,
                        );
                    }
                }
                assert forall|j: int|
                    #![trigger level@[j]]
                    0 <= j < level@.len() implies hier_tree(
                    *g,
                    level@[j].0,
                    rounds,
                    fanout as int,
                ) && hier_leaves(*g, level@[j].0, rounds) == page_refs@.subrange(
                    bounds[j].0,
                    bounds[j].1,
                ) by {
                    lemma_hier_preserved(g_pre, *g, level@[j].0, rounds, fanout as int);
                }
                assert forall|q: int| 0 <= q < hier_kid_ids(g.node_at(id)).len()
                    implies page_refs@.contains(#[trigger] hier_kid_ids(g.node_at(id))[q]) || (
                    g.contains_id(hier_kid_ids(g.node_at(id))[q]) && !old(g).contains_id(
                        hier_kid_ids(g.node_at(id))[q],
                    )) by {
                    assert(hier_kid_ids(g.node_at(id))[q] == level@[pos + q].0);
                    if rounds == 0 {
                        assert(level@[pos + q] == (page_refs@[pos + q], 1u64));
                        assert(page_refs@.contains(level@[pos + q].0)) by {
                            assert(page_refs@[pos + q] == level@[pos + q].0);
                        }
                    }
                }
                assert(fanout * ((next@.len()) as int) == fanout * ((next_prev.len())
                    as int) + fanout) by (nonlinear_arith)
                    requires next@.len() == next_prev.len() + 1;
            }
            pos = end;
        }
        level = next;
        proof {
            bounds = next_bounds;
            if fanout < n && n <= fanout * fanout && rounds == 1 {
                assert(bounds_in[m - 1].0 < n);
                assert(fanout * (m - 1) < n);
                assert(m - 1 < fanout) by (nonlinear_arith)
                    requires fanout * (m - 1) < n, n <= fanout * fanout, fanout >= 2;
                assert(false);
            }
            rounds = rounds + 1;
        }
    }
    proof {
        if n > fanout {
            assert(rounds >= 1);
        }
        lemma_level_span(
            *g,
            level@,
            bounds,
            0,
            level@.len() as int,
            rounds,
            fanout as int,
            page_refs@,
        );
    }
    let (chunk_ids, chunk_sum) = collect_chunk(&level, 0, level.len());
    let node = make_hier_node(&chunk_ids, chunk_sum);
    let ghost g_pre = *g;
    let root = g.add_object(node);
    proof {
        assert(page_refs@.subrange(bounds[0].0, bounds[bounds.len() - 1].1) =~= page_refs@);
        assert(level@.subrange(0, level@.len() as int) =~= level@);
        assert(hier_kid_ids(g.node_at(root)) == level@.map_values(|p: (ObjectId, u64)| p.0));
        assert(hier_count(g.node_at(root)) == page_refs@.len());
        lemma_assemble_root(
            g_pre,
            *g,
            *old(g),
            root,
            level@,
            bounds,
            rounds,
            fanout as int,
            page_refs@,
        );
        if page_refs@.len() <= fanout {
            assert(rounds == 0);
            assert(chunk_ids@ =~= page_refs@);
        }
        assert(1 <= (rounds + 1) as nat && hier_tree(*g, root, (rounds + 1) as nat, fanout
            as int) && hier_leaves(*g, root, (rounds + 1) as nat) == page_refs@);
    }
    root
}

} // verus!

verus! {

/// The bytes of the kind name of a document root node.
pub open spec fn spec_name_catalog() -> Seq<u8> {
    seq![67u8, 97u8, 116u8, 97u8, 108u8, 111u8, 103u8]
}

/// The kind name of a document root node ("Catalog").
pub fn name_catalog() -> (r: Vec<u8>)
    ensures
        r@ == spec_name_catalog(),
{
    let mut v: Vec<u8> = Vec::new();
    v.push(67);
    v.push(97);
    v.push(116);
    v.push(97);
    v.push(108);
    v.push(111);
    v.push(103);
    proof {
        assert(v@ =~= spec_name_catalog());
    }
    v
}

/// A document root node: a dictionary holding the kind tag and a single
/// reference to the hierarchy root.
pub open spec fn is_catalog(n: Node, pages_root: ObjectId) -> bool {
    &&& n is Dict
    &&& n->Dict_0@.len() == 2
    &&& n->Dict_0@[0].0@ == spec_key_type()
    &&& n->Dict_0@[0].1 matches Node::Name(t) && t@ == spec_name_catalog()
    &&& n->Dict_0@[1].0@ == spec_name_pages()
    &&& n->Dict_0@[1].1 == Node::Reference(pages_root)
}

/// Builds the document root node pointing at the hierarchy root.
pub fn make_catalog(pages_root: ObjectId) -> (n: Node)
    ensures
        is_catalog(n, pages_root),
{
    let mut entries: Vec<(Vec<u8>, Node)> = Vec::new();
    entries.push((key_type(), Node::Name(name_catalog())));
    entries.push((name_pages(), Node::Reference(pages_root)));
    Node::Dict(entries)
}

} // verus!

verus! {

/// The leaf-level children of the subtree under `id`, reading `depth`
/// levels of grouping nodes down: at depth zero, `id` itself is the leaf.
pub open spec fn hier_leaves(g: Graph, id: ObjectId, depth: nat) -> Seq<ObjectId>
    decreases depth, 0int,
{
    if depth == 0 {
        seq![id]
    } else {
        hier_leaves_list(g, hier_kid_ids(g.node_at(id)), (depth - 1) as nat)
    }
}

/// The leaf-level children below each id of `ids`, concatenated in order.
pub open spec fn hier_leaves_list(g: Graph, ids: Seq<ObjectId>, depth: nat) -> Seq<ObjectId>
    decreases depth, ids.len() + 1,
{
    if ids.len() == 0 {
        Seq::empty()
    } else {
        hier_leaves(g, ids[0], depth) + hier_leaves_list(g, ids.drop_first(), depth)
    }
}

/// A properly built grouping tree under `id`, `depth` levels deep: every
/// grouping node is stored in the graph, holds between one and `fanout`
/// children, and records as its count the number of leaf-level children
/// below it.
pub open spec fn hier_tree(g: Graph, id: ObjectId, depth: nat, fanout: int) -> bool
    decreases depth, 0int,
{
    if depth == 0 {
        true
    } else {
        &&& g.contains_id(id)
        &&& is_hier_node(g.node_at(id))
        &&& 1 <= hier_kid_ids(g.node_at(id)).len() <= fanout
        &&& hier_count(g.node_at(id)) == hier_leaves(g, id, depth).len()
        &&& hier_tree_list(g, hier_kid_ids(g.node_at(id)), (depth - 1) as nat, fanout)
    }
}

/// Every id of `ids` roots a properly built tree of the given depth.
pub open spec fn hier_tree_list(g: Graph, ids: Seq<ObjectId>, depth: nat, fanout: int) -> bool
    decreases depth, ids.len() + 1,
{
    if ids.len() == 0 {
        true
    } else {
        hier_tree(g, ids[0], depth, fanout) && hier_tree_list(g, ids.drop_first(), depth, fanout)
    }
}

/// At depth zero a list is its own leaf sequence.
pub proof fn lemma_leaves_list_zero(g: Graph, ids: Seq<ObjectId>)
    ensures
        hier_leaves_list(g, ids, 0) == ids,
    decreases ids.len(),
{
    if ids.len() == 0 {
        assert(hier_leaves_list(g, ids, 0) =~= ids);
    } else {
        lemma_leaves_list_zero(g, ids.drop_first());
        assert(hier_leaves(g, ids[0], 0) =~= seq![ids[0]]);
        assert(seq![ids[0]] + ids.drop_first() =~= ids);
    }
}

/// Growing the graph without touching stored objects preserves a built
/// tree and its leaves.
pub proof fn lemma_hier_preserved(g1: Graph, g2: Graph, id: ObjectId, depth: nat, fanout: int)
    requires
        hier_tree(g1, id, depth, fanout),
        forall|x: ObjectId| g1.contains_id(x)
            ==> g2.contains_id(x) && g2.node_at(x) == g1.node_at(x),
    ensures
        hier_tree(g2, id, depth, fanout),
        hier_leaves(g2, id, depth) == hier_leaves(g1, id, depth),
    decreases depth, 0int,
{
    if depth > 0 {
        assert(g1.contains_id(id));
        assert(g2.node_at(id) == g1.node_at(id));
        lemma_hier_list_preserved(
            g1,
            g2,
            hier_kid_ids(g1.node_at(id)),
            (depth - 1) as nat,
            fanout,
        );
    }
}

/// Growing the graph preserves a whole level of built trees.
pub proof fn lemma_hier_list_preserved(
    g1: Graph,
    g2: Graph,
    ids: Seq<ObjectId>,
    depth: nat,
    fanout: int,
)
    requires
        hier_tree_list(g1, ids, depth, fanout),
        forall|x: ObjectId| g1.contains_id(x)
            ==> g2.contains_id(x) && g2.node_at(x) == g1.node_at(x),
    ensures
        hier_tree_list(g2, ids, depth, fanout),
        hier_leaves_list(g2, ids, depth) == hier_leaves_list(g1, ids, depth),
    decreases depth, ids.len() + 1,
{
    if ids.len() > 0 {
        lemma_hier_preserved(g1, g2, ids[0], depth, fanout);
        lemma_hier_list_preserved(g1, g2, ids.drop_first(), depth, fanout);
    }
}

/// A run of level items whose subtrees cover adjacent spans of `refs`
/// concatenates, as a child list, to the single covered span, and its
/// counts sum to that span's width.
#[verifier::rlimit(100)]
pub proof fn lemma_level_span(
    g: Graph,
    items: Seq<(ObjectId, u64)>,
    bnds: Seq<(int, int)>,
    lo: int,
    hi: int,
    depth: nat,
    fanout: int,
    refs: Seq<ObjectId>,
)
    requires
        items.len() == bnds.len(),
        0 <= lo < hi <= items.len(),
        forall|j: int| lo <= j < hi ==> 0 <= (#[trigger] bnds[j]).0 < bnds[j].1 <= refs.len(),
        forall|j: int| lo <= j < hi - 1 ==> (#[trigger] bnds[j]).1 == bnds[j + 1].0,
        forall|j: int| lo <= j < hi ==> hier_tree(g, (#[trigger] items[j]).0, depth, fanout)
            && hier_leaves(g, items[j].0, depth) == refs.subrange(bnds[j].0, bnds[j].1)
            && items[j].1 == bnds[j].1 - bnds[j].0,
    ensures
        hier_tree_list(
            g,
            items.subrange(lo, hi).map_values(|p: (ObjectId, u64)| p.0),
            depth,
            fanout,
        ),
        hier_leaves_list(
            g,
            items.subrange(lo, hi).map_values(|p: (ObjectId, u64)| p.0),
            depth,
        ) == refs.subrange(bnds[lo].0, bnds[hi - 1].1),
        sum_counts(items.subrange(lo, hi)) == bnds[hi - 1].1 - bnds[lo].0,
        bnds[lo].0 < bnds[hi - 1].1,
    decreases hi - lo,
{
    let slice = items.subrange(lo, hi);
    let ids = slice.map_values(|p: (ObjectId, u64)| p.0);
    assert(ids[0] == items[lo].0);
    if hi - lo == 1 {
        assert(ids.drop_first() =~= Seq::<ObjectId>::empty());
        assert(hier_leaves_list(g, Seq::<ObjectId>::empty(), depth) =~= Seq::<ObjectId>::empty());
        assert(hier_leaves_list(g, ids, depth) =~= hier_leaves(g, ids[0], depth));
        assert(slice.drop_first() =~= Seq::<(ObjectId, u64)>::empty());
        assert(sum_counts(Seq::<(ObjectId, u64)>::empty()) == 0);
        assert(slice[0] == items[lo]);
        assert(hier_tree(g, ids[0], depth, fanout));
        assert(hier_tree_list(g, Seq::<ObjectId>::empty(), depth, fanout));
        assert(hier_tree_list(g, ids, depth, fanout));
    } else {
        lemma_level_span(g, items, bnds, lo + 1, hi, depth, fanout, refs);
        assert(ids.drop_first() =~= items.subrange(lo + 1, hi).map_values(
            |p: (ObjectId, u64)| p.0,
        ));
        assert(slice.drop_first() =~= items.subrange(lo + 1, hi));
        assert(bnds[lo].1 == bnds[lo + 1].0);
        assert(slice[0] == items[lo]);
        assert(hier_leaves(g, ids[0], depth) == refs.subrange(bnds[lo].0, bnds[lo].1));
        assert(hier_leaves_list(g, ids.drop_first(), depth) == refs.subrange(
            bnds[lo + 1].0,
            bnds[hi - 1].1,
        ));
        assert(refs.subrange(bnds[lo].0, bnds[lo].1) + refs.subrange(bnds[lo].1, bnds[
            hi - 1].1) =~= refs.subrange(bnds[lo].0, bnds[hi - 1].1));
        assert(hier_leaves_list(g, ids, depth) =~= refs.subrange(bnds[lo].0, bnds[hi - 1].1));
        assert(sum_counts(slice) == slice[0].1 + sum_counts(slice.drop_first()));
        assert(hier_tree(g, ids[0], depth, fanout));
        assert(hier_tree_list(g, ids.drop_first(), depth, fanout));
        assert(hier_tree_list(g, ids, depth, fanout));
    }
}

} // verus!

verus! {

/// A hierarchy node references exactly its children.
pub proof fn lemma_hier_node_refs(n: Node)
    requires
        is_hier_node(n),
    ensures
        forall|y: ObjectId| #[trigger] crate::model::has_ref(n, y)
            <==> hier_kid_ids(n).contains(y),
{
    let ps = n->Dict_0;
    let kids = ps@[1].1->Array_0;
    assert forall|y: ObjectId| #[trigger] crate::model::has_ref(n, y)
        implies hier_kid_ids(n).contains(y) by {
        let i = choose|i: int| 0 <= i < ps@.len() && crate::model::has_ref(ps@[i].1, y);
        assert(i == 1) by {
            if i == 0 {
                assert(!crate::model::has_ref(ps@[0].1, y));
            }
            if i == 2 {
                assert(!crate::model::has_ref(ps@[2].1, y));
            }
        }
        let q = choose|q: int| 0 <= q < kids@.len() && crate::model::has_ref(kids@[q], y);
        assert(kids@[q] == Node::Reference(y));
        assert(hier_kid_ids(n)[q] == y);
    }
    assert forall|y: ObjectId| hier_kid_ids(n).contains(y)
        implies #[trigger] crate::model::has_ref(n, y) by {
        let q = choose|q: int| 0 <= q < hier_kid_ids(n).len() && hier_kid_ids(n)[q] == y;
        assert(kids@[q] == Node::Reference(y));
        assert(crate::model::has_ref(kids@[q], y));
        assert(crate::model::has_ref(ps@[1].1, y));
    }
}

/// A document root node references exactly the hierarchy root.
pub proof fn lemma_catalog_refs(n: Node, pr: ObjectId)
    requires
        is_catalog(n, pr),
    ensures
        forall|y: ObjectId| #[trigger] crate::model::has_ref(n, y) <==> y == pr,
{
    let ps = n->Dict_0;
    assert forall|y: ObjectId| #[trigger] crate::model::has_ref(n, y) implies y == pr by {
        let i = choose|i: int| 0 <= i < ps@.len() && crate::model::has_ref(ps@[i].1, y);
        if i == 0 {
            assert(!crate::model::has_ref(ps@[0].1, y));
        }
        assert(i == 1);
    }
    assert(crate::model::has_ref(ps@[1].1, pr));
    assert(crate::model::has_ref(n, pr));
}

} // verus!
