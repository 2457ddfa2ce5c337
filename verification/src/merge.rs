//! The merge orchestrator: folds several source graphs into one target
//! graph with a single root, renumbering every source into a disjoint id
//! range and rewriting every reference accordingly.
use vstd::prelude::*;

use crate::graph::Graph;
use crate::graph::resolves_internally;
use crate::hierarchy::create_page_tree;
use crate::hierarchy::hier_count;
use crate::hierarchy::hier_kid_ids;
use crate::hierarchy::hier_leaves;
use crate::hierarchy::hier_tree;
use crate::hierarchy::lemma_hier_node_refs;
use crate::hierarchy::lemma_catalog_refs;
use crate::hierarchy::lemma_hier_preserved;
use crate::hierarchy::is_catalog;
use crate::hierarchy::is_hier_node;
use crate::hierarchy::make_catalog;
use crate::metadata::preserve_document_metadata;
use crate::model::ObjectId;
use crate::remap::remap_ids;
use crate::model::has_ref;
use crate::rewrite::lemma_rewritten_refs;
use crate::rewrite::map_target;
use crate::rewrite::node_rewritten;
use crate::rewrite::update_references_in_object;

verus! {

/// Merging is refused when there is nothing to merge, or when a source
/// has nothing to contribute.
#[derive(Clone, Copy, PartialEq, Eq, Structural, Debug)]
pub enum MergeError {
    NoSources,
    NoEntryPoints { source_index: usize },
}

/// The fan-out bound used when merging.
pub const MERGE_FANOUT: usize = 8;

/// The version tag given to graphs the orchestrators build.
pub open spec fn spec_default_version() -> Seq<u8> {
    seq![49u8, 46u8, 53u8]
}

/// The version tag given to graphs the orchestrators build ("1.5").
pub fn default_version() -> (r: Vec<u8>)
    ensures
        r@ == spec_default_version(),
{
    let mut v: Vec<u8> = Vec::new();
    v.push(49);
    v.push(46);
    v.push(53);
    proof {
        assert(v@ =~= spec_default_version());
    }
    v
}

/// The number of objects over all the given graphs.
pub open spec fn total_objects(sources: Seq<Graph>) -> int
    decreases sources.len(),
{
    if sources.len() == 0 {
        0
    } else {
        sources[0].objects@.len() + total_objects(sources.drop_first())
    }
}

/// The number of entry points over all the given graphs.
pub open spec fn total_entry_points(sources: Seq<Graph>) -> int
    decreases sources.len(),
{
    if sources.len() == 0 {
        0
    } else {
        sources[0].entry_points@.len() + total_entry_points(sources.drop_first())
    }
}

/// The id counter at which source `k` starts when folding in order.
pub open spec fn base_counter(sources: Seq<Graph>, k: int) -> int {
    1 + total_objects(sources.take(k))
}

/// The translation table folding `src` in at counter `base`: the object at
/// position `i` of the source table goes to the sequential id `base + i`.
pub open spec fn merge_map(src: Graph, base: int) -> Map<ObjectId, ObjectId> {
    Map::new(
        |id: ObjectId| src.contains_id(id),
        |id: ObjectId| ObjectId { number: (base + src.index_of(id)) as u32, generation: 0 },
    )
}

/// The sequential id given to the object at position `i` of a source
/// folded in at counter `base`.
pub open spec fn fold_id(base: int, i: int) -> ObjectId {
    ObjectId { number: (base + i) as u32, generation: 0 }
}

/// Object totals add over concatenation.
proof fn lemma_total_objects_concat(a: Seq<Graph>, b: Seq<Graph>)
    ensures
        total_objects(a + b) == total_objects(a) + total_objects(b),
    decreases a.len(),
{
    if a.len() == 0 {
        assert(a + b =~= b);
    } else {
        assert((a + b).drop_first() =~= a.drop_first() + b);
        assert((a + b)[0] == a[0]);
        lemma_total_objects_concat(a.drop_first(), b);
    }
}

/// Entry point totals add over concatenation.
proof fn lemma_total_entry_points_concat(a: Seq<Graph>, b: Seq<Graph>)
    ensures
        total_entry_points(a + b) == total_entry_points(a) + total_entry_points(b),
    decreases a.len(),
{
    if a.len() == 0 {
        assert(a + b =~= b);
    } else {
        assert((a + b).drop_first() =~= a.drop_first() + b);
        assert((a + b)[0] == a[0]);
        lemma_total_entry_points_concat(a.drop_first(), b);
    }
}

/// Totals are nonnegative.
proof fn lemma_totals_nonneg(s: Seq<Graph>)
    ensures
        total_objects(s) >= 0,
        total_entry_points(s) >= 0,
    decreases s.len(),
{
    if s.len() > 0 {
        lemma_totals_nonneg(s.drop_first());
    }
}

/// One more source adds its own object and entry point counts.
proof fn lemma_totals_take_step(s: Seq<Graph>, k: int)
    requires
        0 <= k < s.len(),
    ensures
        total_objects(s.take(k + 1)) == total_objects(s.take(k)) + s[k].objects@.len(),
        total_entry_points(s.take(k + 1)) == total_entry_points(s.take(k))
            + s[k].entry_points@.len(),
{
    let one = seq![s[k]];
    assert(s.take(k + 1) =~= s.take(k) + one);
    lemma_total_objects_concat(s.take(k), one);
    lemma_total_entry_points_concat(s.take(k), one);
    assert(one.drop_first() =~= Seq::<Graph>::empty());
    assert(total_objects(Seq::<Graph>::empty()) == 0);
    assert(total_entry_points(Seq::<Graph>::empty()) == 0);
    assert(one[0] == s[k]);
    assert(total_objects(one) == s[k].objects@.len());
    assert(total_entry_points(one) == s[k].entry_points@.len());
}

/// A prefix never exceeds the whole total.
proof fn lemma_totals_prefix_le(s: Seq<Graph>, k: int)
    requires
        0 <= k <= s.len(),
    ensures
        total_objects(s.take(k)) <= total_objects(s),
        total_entry_points(s.take(k)) <= total_entry_points(s),
{
    assert(s =~= s.take(k) + s.skip(k));
    lemma_total_objects_concat(s.take(k), s.skip(k));
    lemma_total_entry_points_concat(s.take(k), s.skip(k));
    lemma_totals_nonneg(s.skip(k));
}

/// Every position in the combined object count falls inside exactly one
/// source's block.
proof fn lemma_locate_source(s: Seq<Graph>, q: int)
    requires
        0 <= q < total_objects(s),
    ensures
        exists|k: int|
            0 <= k < s.len() && total_objects(s.take(k)) <= q && q < total_objects(s.take(k))
                + (#[trigger] s[k]).objects@.len(),
    decreases s.len(),
{
    lemma_totals_nonneg(s.drop_first());
    if q < s[0].objects@.len() {
        assert(s.take(0) =~= Seq::<Graph>::empty());
        assert(total_objects(s.take(0)) == 0);
        assert(0 <= 0 < s.len() && total_objects(s.take(0)) <= q && q < total_objects(s.take(0))
            + s[0].objects@.len());
    } else {
        let tail = s.drop_first();
        lemma_locate_source(tail, q - s[0].objects@.len());
        let k = choose|k: int|
            0 <= k < tail.len() && total_objects(tail.take(k)) <= q - s[0].objects@.len() && q
                - s[0].objects@.len() < total_objects(tail.take(k))
                + (#[trigger] tail[k]).objects@.len();
        assert(s.take(k + 1) =~= seq![s[0]] + tail.take(k));
        lemma_total_objects_concat(seq![s[0]], tail.take(k));
        assert(seq![s[0]].drop_first() =~= Seq::<Graph>::empty());
        assert(total_objects(Seq::<Graph>::empty()) == 0);
        assert(total_objects(seq![s[0]]) == s[0].objects@.len());
        assert(s[k + 1] == tail[k]);
        assert(0 <= k + 1 < s.len() && total_objects(s.take(k + 1)) <= q && q < total_objects(
            s.take(k + 1),
        ) + s[k + 1].objects@.len());
    }
}

/// Copies a vector of ids.
pub fn copy_id_vec(v: &Vec<ObjectId>) -> (r: Vec<ObjectId>)
    ensures
        r@ == v@,
{
    let mut out: Vec<ObjectId> = Vec::new();
    let mut i: usize = 0;
    #[verifier::loop_isolation(false)]
    while i < v.len()
        invariant
            0 <= i <= v@.len(),
            out@ =~= v@.subrange(0, i as int),
        decreases v@.len() - i,
    {
        out.push(v[i]);
        i = i + 1;
        proof {
            assert(out@ =~= v@.subrange(0, i as int));
        }
    }
    proof {
        assert(out@ =~= v@);
    }
    out
}

} // verus!

verus! {

/// Folds the source graphs, in order, into one fresh target graph.
///
/// Each source's objects are renumbered into the next free sequential id
/// range, every reference is rewritten through that source's table, and
/// the mapped entry points are collected in source order, then
/// source-internal order. The first source's trailer metadata is carried
/// over remapped; later sources' metadata is discarded. The collected
/// entry points are grouped under a hierarchy built with fan-out
/// `MERGE_FANOUT`, a root node pointing at it is added, and the trailer's
/// root and size are set. An empty source list and a source without entry
/// points both abort the whole merge, the latter reporting the first such
/// source.
#[verifier::rlimit(100)]
#[verifier::loop_isolation(false)]
pub fn merge_graphs(sources: &Vec<Graph>) -> (r: Result<Graph, MergeError>)
    requires
        forall|k: int| 0 <= k < sources@.len() ==> (#[trigger] sources@[k]).wf(),
        2 + total_objects(sources@) + 2 * total_entry_points(sources@) <= u32::MAX,
    ensures
        sources@.len() == 0 <==> r == Err::<Graph, MergeError>(MergeError::NoSources),
        match r {
            Err(MergeError::NoSources) => sources@.len() == 0,
            Err(MergeError::NoEntryPoints { source_index }) => {
                &&& source_index < sources@.len()
                &&& sources@[source_index as int].entry_points@.len() == 0
                &&& forall|j: int| 0 <= j < source_index
                    ==> sources@[j].entry_points@.len() > 0
            },
            Ok(t) => {
                &&& forall|k: int| 0 <= k < sources@.len()
                    ==> sources@[k].entry_points@.len() > 0
                &&& t.wf()
                &&& t.version@ == spec_default_version()
                &&& t.entry_points@.len() == total_entry_points(sources@)
                &&& forall|k: int, j: int|
                    #![trigger sources@[k].entry_points@[j]]
                    0 <= k < sources@.len() && 0 <= j < sources@[k].entry_points@.len()
                        ==> t.entry_points@[total_entry_points(sources@.take(k)) + j]
                        == merge_map(sources@[k], base_counter(sources@, k))[
                        sources@[k].entry_points@[j]]
                &&& forall|k: int, i: int|
                    #![trigger sources@[k].objects@[i]]
                    #![trigger fold_id(base_counter(sources@, k), i)]
                    0 <= k < sources@.len() && 0 <= i < sources@[k].objects@.len()
                        ==> t.contains_id(fold_id(base_counter(sources@, k), i))
                            && node_rewritten(
                            sources@[k].objects@[i].1,
                            t.node_at(fold_id(base_counter(sources@, k), i)),
                            merge_map(sources@[k], base_counter(sources@, k)),
                        )
                &&& t.trailer.root matches Some(cat) && t.contains_id(cat) && (exists|
                    pr: ObjectId,
                |
                    is_catalog(t.node_at(cat), pr) && #[trigger] t.contains_id(pr)
                        && is_hier_node(t.node_at(pr))
                        && hier_count(t.node_at(pr)) == total_entry_points(sources@)
                        && (total_entry_points(sources@) <= MERGE_FANOUT
                        ==> hier_kid_ids(t.node_at(pr)) == t.entry_points@) && (exists|d: nat|
                        1 <= d && #[trigger] hier_tree(t, pr, d, MERGE_FANOUT as int)
                            && hier_leaves(t, pr, d) == t.entry_points@))
                &&& t.trailer.size == Some(((t.max_id + 1) as i64))
                &&& t.trailer.info == (match sources@[0].trailer.info {
                    Some(i) => if sources@[0].contains_id(i) {
                        Some(merge_map(sources@[0], 1)[i])
                    } else {
                        None::<ObjectId>
                    },
                    None => None::<ObjectId>,
                })
                &&& t.trailer.encrypt == (match sources@[0].trailer.encrypt {
                    Some(i) => if sources@[0].contains_id(i) {
                        Some(merge_map(sources@[0], 1)[i])
                    } else {
                        None::<ObjectId>
                    },
                    None => None::<ObjectId>,
                })
                &&& match sources@[0].trailer.id_blob {
                    Some(n) => t.trailer.id_blob matches Some(m) && crate::model::node_eq(n, m),
                    None => t.trailer.id_blob is None,
                }
                &&& (forall|k: int|
                    0 <= k < sources@.len() ==> resolves_internally(#[trigger] sources@[k]))
                    ==> resolves_internally(t)
            },
        },
{
    if sources.len() == 0 {
        return Err(MergeError::NoSources);
    }
    let mut t = Graph::new(default_version());
    let mut next: u32 = 1;
    let mut k: usize = 0;
    proof {
        assert(sources@.take(0) =~= Seq::<Graph>::empty());
    }
    while k < sources.len()
        invariant
            t.wf(),
            0 <= k <= sources@.len(),
            next >= 1,
            next - 1 == total_objects(sources@.take(k as int)),
            t.max_id == next - 1,
            t.objects@.len() == t.max_id,
            forall|p: int| 0 <= p < t.objects@.len() ==> (#[trigger] t.objects@[p]).0 == (
            ObjectId { number: (p + 1) as u32, generation: 0 }),
            t.version@ == spec_default_version(),
            t.trailer.root is None,
            t.trailer.size is None,
            t.entry_points@.len() == total_entry_points(sources@.take(k as int)),
            k >= 1 ==> t.entry_points@.len() >= 1,
            forall|i: int| 0 <= i < t.entry_points@.len()
                ==> (#[trigger] t.entry_points@[i]).number < next,
            forall|kk: int| 0 <= kk < k ==> sources@[kk].entry_points@.len() > 0,
            forall|kk: int, j: int|
                #![trigger sources@[kk].entry_points@[j]]
                0 <= kk < k && 0 <= j < sources@[kk].entry_points@.len()
                    ==> t.entry_points@[total_entry_points(sources@.take(kk)) + j]
                    == merge_map(sources@[kk], base_counter(sources@, kk))[
                    sources@[kk].entry_points@[j]],
            forall|kk: int, i: int|
                #![trigger sources@[kk].objects@[i]]
                #![trigger fold_id(base_counter(sources@, kk), i)]
                0 <= kk < k && 0 <= i < sources@[kk].objects@.len()
                    ==> t.contains_id(fold_id(base_counter(sources@, kk), i))
                        && node_rewritten(
                        sources@[kk].objects@[i].1,
                        t.node_at(fold_id(base_counter(sources@, kk), i)),
                        merge_map(sources@[kk], base_counter(sources@, kk)),
                    ),
            t.trailer.info == (if k == 0 {
                None::<ObjectId>
            } else {
                match sources@[0].trailer.info {
                    Some(i) => if sources@[0].contains_id(i) {
                        Some(merge_map(sources@[0], 1)[i])
                    } else {
                        None::<ObjectId>
                    },
                    None => None::<ObjectId>,
                }
            }),
            t.trailer.encrypt == (if k == 0 {
                None::<ObjectId>
            } else {
                match sources@[0].trailer.encrypt {
                    Some(i) => if sources@[0].contains_id(i) {
                        Some(merge_map(sources@[0], 1)[i])
                    } else {
                        None::<ObjectId>
                    },
                    None => None::<ObjectId>,
                }
            }),
            (if k == 0 {
                t.trailer.id_blob is None
            } else {
                match sources@[0].trailer.id_blob {
                    Some(n) => t.trailer.id_blob matches Some(m) && crate::model::node_eq(n, m),
                    None => t.trailer.id_blob is None,
                }
            }),
        decreases sources@.len() - k,
    {
        let src = &sources[k];
        proof {
            lemma_totals_take_step(sources@, k as int);
            lemma_totals_prefix_le(sources@, k as int + 1);
            lemma_totals_nonneg(sources@.take(k as int));
            lemma_totals_nonneg(sources@.skip(k as int));
        }
        if src.entry_points.len() == 0 {
            return Err(MergeError::NoEntryPoints { source_index: k });
        }
        let ghost base = next as int;
        let mut ids: Vec<ObjectId> = Vec::new();
        let mut i: usize = 0;
        while i < src.objects.len()
            invariant
                0 <= i <= src.objects@.len(),
                ids@.len() == i,
                forall|j: int| 0 <= j < i ==> (#[trigger] ids@[j]) == src.objects@[j].0,
            decreases src.objects@.len() - i,
        {
            ids.push(src.objects[i].0);
            i = i + 1;
        }
        proof {
            assert(ids@ =~= src.ids());
        }
        let (table, next2) = remap_ids(&ids, next);
        proof {
            assert forall|id: ObjectId| #[trigger] src.contains_id(id)
                implies table@.dom().contains(id) && table@[id] == merge_map(*src, base)[id] by {
                let pi = src.ids().index_of(id);
                assert(0 <= pi < src.ids().len() && src.ids()[pi] == id);
                assert(table@[src.ids()[pi]] == (ObjectId {
                    number: (base + pi) as u32,
                    generation: 0,
                }));
            }
            assert(table@ =~= merge_map(*src, base));
        }
        let ghost eps_in = t.entry_points@;
        let ghost trailer_in = t.trailer;
        let mut i: usize = 0;
        while i < src.objects.len()
            invariant
                0 <= i <= src.objects@.len(),
                t.wf(),
                t.max_id == next - 1 + i,
                t.objects@.len() == t.max_id,
                forall|p: int| 0 <= p < t.objects@.len() ==> (#[trigger] t.objects@[p]).0 == (
                ObjectId { number: (p + 1) as u32, generation: 0 }),
                t.entry_points@ == eps_in,
                t.trailer == trailer_in,
                t.version@ == spec_default_version(),
                forall|ii: int|
                    #![trigger sources@[k as int].objects@[ii]]
                    #![trigger fold_id(base, ii)]
                    0 <= ii < i
                        ==> t.contains_id(fold_id(base, ii)) && node_rewritten(
                        sources@[k as int].objects@[ii].1,
                        t.node_at(fold_id(base, ii)),
                        merge_map(sources@[k as int], base),
                    ),
                forall|kk: int, ii: int|
                    #![trigger sources@[kk].objects@[ii]]
                    #![trigger fold_id(base_counter(sources@, kk), ii)]
                    0 <= kk < k && 0 <= ii < sources@[kk].objects@.len()
                        ==> t.contains_id(fold_id(base_counter(sources@, kk), ii))
                            && node_rewritten(
                            sources@[kk].objects@[ii].1,
                            t.node_at(fold_id(base_counter(sources@, kk), ii)),
                            merge_map(sources@[kk], base_counter(sources@, kk)),
                        ),
            decreases src.objects@.len() - i,
        {
            let ghost t_pre = t;
            let node = update_references_in_object(&src.objects[i].1, &table);
            let nid = ObjectId { number: next + (i as u32), generation: 0 };
            proof {
                if t.contains_id(nid) {
                    let jx = t.ids().index_of(nid);
                    assert(0 <= jx < t.ids().len() && t.ids()[jx] == nid);
                    assert(t.objects@[jx].0 == nid);
                }
            }
            t.insert_object(nid, node);
            i = i + 1;
            proof {
                assert forall|ii: int|
                    #![trigger sources@[k as int].objects@[ii]]
                    #![trigger fold_id(base, ii)]
                    0 <= ii < i implies t.contains_id(fold_id(base, ii)) && node_rewritten(
                    sources@[k as int].objects@[ii].1,
                    t.node_at(fold_id(base, ii)),
                    merge_map(sources@[k as int], base),
                ) by {
                    let probe = sources@[k as int].objects@[ii];
                    if ii < i - 1 {
                        assert(t_pre.contains_id(fold_id(base, ii)));
                        assert(t.contains_id(fold_id(base, ii)));
                        assert(t.node_at(fold_id(base, ii)) == t_pre.node_at(fold_id(base, ii)));
                    } else {
                        assert(fold_id(base, ii) == nid);
                        assert(t.contains_id(nid) && t.node_at(nid) == node);
                        assert(node_rewritten(sources@[k as int].objects@[ii].1, node, merge_map(
                            sources@[k as int],
                            base,
                        )));
                    }
                }
                assert forall|kk: int, ii: int|
                    #![trigger sources@[kk].objects@[ii]]
                    #![trigger fold_id(base_counter(sources@, kk), ii)]
                    0 <= kk < k && 0 <= ii < sources@[kk].objects@.len()
                    implies t.contains_id(fold_id(base_counter(sources@, kk), ii))
                        && node_rewritten(
                        sources@[kk].objects@[ii].1,
                        t.node_at(fold_id(base_counter(sources@, kk), ii)),
                        merge_map(sources@[kk], base_counter(sources@, kk)),
                    ) by {
                    let probe = sources@[kk].objects@[ii];
                    assert(t_pre.contains_id(fold_id(base_counter(sources@, kk), ii)));
                    assert(t.contains_id(fold_id(base_counter(sources@, kk), ii)));
                    assert(t.node_at(fold_id(base_counter(sources@, kk), ii)) == t_pre.node_at(
                        fold_id(base_counter(sources@, kk), ii),
                    ));
                }
            }
        }
        let ghost objs_mid = t.objects@;
        let mut j: usize = 0;
        while j < src.entry_points.len()
            invariant
                0 <= j <= src.entry_points@.len(),
                t.wf(),
                t.objects@ == objs_mid,
                t.max_id == next2 - 1,
                t.objects@.len() == t.max_id,
                forall|p: int| 0 <= p < t.objects@.len() ==> (#[trigger] t.objects@[p]).0 == (
                ObjectId { number: (p + 1) as u32, generation: 0 }),
                t.trailer == trailer_in,
                t.version@ == spec_default_version(),
                t.entry_points@.len() == eps_in.len() + j,
                forall|idx: int| 0 <= idx < eps_in.len()
                    ==> (#[trigger] t.entry_points@[idx]) == eps_in[idx],
                forall|idx: int| 0 <= idx < eps_in.len()
                    ==> (#[trigger] eps_in[idx]).number < base,
                forall|jj: int| 0 <= jj < j
                    ==> (#[trigger] t.entry_points@[eps_in.len() + jj])
                    == merge_map(sources@[k as int], base)[
                    sources@[k as int].entry_points@[jj]],
                forall|ii: int|
                    #![trigger sources@[k as int].objects@[ii]]
                    #![trigger fold_id(base, ii)]
                    0 <= ii < src.objects@.len()
                        ==> t.contains_id(fold_id(base, ii)) && node_rewritten(
                        sources@[k as int].objects@[ii].1,
                        t.node_at(fold_id(base, ii)),
                        merge_map(sources@[k as int], base),
                    ),
                forall|kk: int, ii: int|
                    #![trigger sources@[kk].objects@[ii]]
                    #![trigger fold_id(base_counter(sources@, kk), ii)]
                    0 <= kk < k && 0 <= ii < sources@[kk].objects@.len()
                        ==> t.contains_id(fold_id(base_counter(sources@, kk), ii))
                            && node_rewritten(
                            sources@[kk].objects@[ii].1,
                            t.node_at(fold_id(base_counter(sources@, kk), ii)),
                            merge_map(sources@[kk], base_counter(sources@, kk)),
                        ),
            decreases src.entry_points@.len() - j,
        {
            let ep = src.entry_points[j];
            proof {
                assert(src.contains_id(ep));
            }
            let ne = match table.get(ep) {
                Some(x) => x,
                None => {
                    proof {
                        assert(false);
                    }
                    ep
                },
            };
            proof {
                let pi = src.index_of(ep);
                assert(0 <= pi < src.ids().len() && src.ids()[pi] == ep);
                assert(ne == merge_map(*src, base)[ep]);
                assert(ne.number == base + pi);
                let probe = sources@[k as int].objects@[pi];
                assert(t.contains_id(fold_id(base, pi)));
                assert(fold_id(base, pi) == ne);
                if t.entry_points@.contains(ne) {
                    let idx = choose|idx: int|
                        0 <= idx < t.entry_points@.len() && t.entry_points@[idx] == ne;
                    if idx < eps_in.len() {
                        assert(eps_in[idx].number < base);
                        assert(false);
                    } else {
                        let jj = idx - eps_in.len();
                        let ep2 = sources@[k as int].entry_points@[jj];
                        assert(eps_in.len() + jj == idx);
                        assert(t.entry_points@[eps_in.len() + jj] == merge_map(*src, base)[
                            sources@[k as int].entry_points@[jj]]);
                        assert(t.entry_points@[idx] == merge_map(*src, base)[ep2]);
                        assert(src.contains_id(ep2));
                        let pi2 = src.index_of(ep2);
                        assert(0 <= pi2 < src.ids().len() && src.ids()[pi2] == ep2);
                        assert(merge_map(*src, base)[ep2].number == base + pi2);
                        assert(pi2 == pi);
                        assert(ep2 == ep);
                        assert(src.entry_points@[jj] == src.entry_points@[j as int]);
                        assert(false);
                    }
                }
            }
            t.push_entry_point(ne);
            j = j + 1;
        }
        let ghost t_eps = t;
        if k == 0 {
            preserve_document_metadata(src, &mut t, &table);
        }
        next = next2;
        k = k + 1;
        proof {
            assert(t.entry_points@ == t_eps.entry_points@);
            assert(base_counter(sources@, k - 1) == base);
            assert forall|i: int| 0 <= i < t.entry_points@.len()
                implies (#[trigger] t.entry_points@[i]).number < next by {
                if i < eps_in.len() {
                    assert(t_eps.entry_points@[i] == eps_in[i]);
                } else {
                    let jj = i - eps_in.len();
                    let ep2 = sources@[k - 1].entry_points@[jj];
                    assert(eps_in.len() + jj == i);
                    assert(t_eps.entry_points@[eps_in.len() + jj] == merge_map(
                        sources@[k - 1],
                        base,
                    )[sources@[k - 1].entry_points@[jj]]);
                    assert(t.entry_points@[i] == merge_map(sources@[k - 1], base)[ep2]);
                    assert(sources@[k - 1].contains_id(ep2));
                    let pi2 = sources@[k - 1].index_of(ep2);
                    assert(0 <= pi2 < sources@[k - 1].ids().len());
                }
            }
            assert forall|kk: int, j2: int|
                #![trigger sources@[kk].entry_points@[j2]]
                0 <= kk < k && 0 <= j2 < sources@[kk].entry_points@.len()
                implies t.entry_points@[total_entry_points(sources@.take(kk)) + j2]
                    == merge_map(sources@[kk], base_counter(sources@, kk))[
                    sources@[kk].entry_points@[j2]] by {
                if kk < k - 1 {
                    let idx2 = total_entry_points(sources@.take(kk)) + j2;
                    lemma_totals_nonneg(sources@.take(kk));
                    assert(0 <= idx2 < eps_in.len()) by {
                        lemma_totals_take_step(sources@, kk);
                        lemma_totals_prefix_le(sources@.take(k - 1), kk + 1);
                        assert(sources@.take(k - 1).take(kk + 1) =~= sources@.take(kk + 1));
                    }
                    assert(t_eps.entry_points@[idx2] == eps_in[idx2]);
                    assert(t.entry_points@[idx2] == eps_in[idx2]);
                } else {
                    assert(t_eps.entry_points@[eps_in.len() + j2] == merge_map(
                        sources@[k - 1],
                        base,
                    )[sources@[k - 1].entry_points@[j2]]);
                    assert(t.entry_points@[eps_in.len() + j2] == merge_map(
                        sources@[k - 1],
                        base,
                    )[sources@[k - 1].entry_points@[j2]]);
                }
            }
        }
    }
    proof {
        assert(sources@.take(sources@.len() as int) =~= sources@);
        lemma_totals_nonneg(sources@);
    }
    let eps_copy = copy_id_vec(&t.entry_points);
    let ghost t_loop = t;
    let pages_root = create_page_tree(&mut t, &eps_copy, MERGE_FANOUT);
    let ghost t_tree = t;
    let cat = t.add_object(make_catalog(pages_root));
    let ghost t_cat = t;
    t.trailer.root = Some(cat);
    let size_val = t.max_id as i64 + 1;
    t.trailer.size = Some(size_val);
    proof {
        assert(t.objects == t_cat.objects);
        assert(t.ids() == t_cat.ids());
        assert(t.entry_points@ == t_loop.entry_points@);
        assert forall|k2: int, i2: int|
            #![trigger sources@[k2].objects@[i2]]
            #![trigger fold_id(base_counter(sources@, k2), i2)]
            0 <= k2 < sources@.len() && 0 <= i2 < sources@[k2].objects@.len()
            implies t.contains_id(fold_id(base_counter(sources@, k2), i2)) && node_rewritten(
            sources@[k2].objects@[i2].1,
            t.node_at(fold_id(base_counter(sources@, k2), i2)),
            merge_map(sources@[k2], base_counter(sources@, k2)),
        ) by {
            let probe = sources@[k2].objects@[i2];
            let fid = fold_id(base_counter(sources@, k2), i2);
            assert(t_loop.contains_id(fid));
            assert(t_tree.contains_id(fid) && t_tree.node_at(fid) == t_loop.node_at(fid));
            assert(t_cat.contains_id(fid) && t_cat.node_at(fid) == t_tree.node_at(fid));
            assert(t.contains_id(fid));
            assert(t.node_at(fid) == t_cat.node_at(fid));
        }
        assert(t_cat.contains_id(pages_root) && t_cat.node_at(pages_root) == t_tree.node_at(
            pages_root,
        ));
        assert(t.contains_id(pages_root));
        assert(t.node_at(pages_root) == t_cat.node_at(pages_root));
        assert(t.contains_id(cat));
        assert(t.node_at(cat) == t_cat.node_at(cat));
        assert(is_catalog(t.node_at(cat), pages_root));
        assert(is_hier_node(t.node_at(pages_root)));
        assert(hier_count(t.node_at(pages_root)) == total_entry_points(sources@));
        let d = choose|d: nat|
            1 <= d && #[trigger] hier_tree(t_tree, pages_root, d, MERGE_FANOUT as int)
                && hier_leaves(t_tree, pages_root, d) == eps_copy@;
        assert forall|x: ObjectId| t_cat.contains_id(x)
            implies t.contains_id(x) && t.node_at(x) == t_cat.node_at(x) by {
            assert(t.ids() == t_cat.ids());
        }
        lemma_hier_preserved(t_tree, t_cat, pages_root, d, MERGE_FANOUT as int);
        lemma_hier_preserved(t_cat, t, pages_root, d, MERGE_FANOUT as int);
        assert(1 <= d && hier_tree(t, pages_root, d, MERGE_FANOUT as int) && hier_leaves(
            t,
            pages_root,
            d,
        ) == t.entry_points@);
        assert(t.wf()) by {
            assert(t.objects@ == t_cat.objects@);
            assert(t.entry_points@ == t_cat.entry_points@);
            assert(t.max_id == t_cat.max_id);
            assert(t.ids().no_duplicates());
            assert forall|i: int| 0 <= i < t.objects@.len()
                implies 1 <= (#[trigger] t.objects@[i]).0.number <= t.max_id by {
                assert(t.objects@[i] == t_cat.objects@[i]);
            }
            assert forall|i: int| 0 <= i < t.entry_points@.len()
                implies t.contains_id(#[trigger] t.entry_points@[i])
                    && t.entry_points@[i].number != 0 by {
                assert(t.entry_points@[i] == t_cat.entry_points@[i]);
                assert(t_cat.contains_id(t_cat.entry_points@[i]));
            }
        }
        if forall|k2: int|
            0 <= k2 < sources@.len() ==> resolves_internally(#[trigger] sources@[k2]) {
            assert forall|id: ObjectId, y: ObjectId|
                t.contains_id(id) && #[trigger] has_ref(t.node_at(id), y) && y.number != 0
                implies t.contains_id(y) by {
                if t_loop.contains_id(id) {
                    let p = t_loop.ids().index_of(id);
                    assert(0 <= p < t_loop.ids().len() && t_loop.ids()[p] == id);
                    assert(t_loop.objects@[p].0 == id);
                    assert(id == (ObjectId { number: (p + 1) as u32, generation: 0 }));
                    lemma_locate_source(sources@, p);
                    let k = choose|k: int|
                        0 <= k < sources@.len() && total_objects(sources@.take(k)) <= p && p
                            < total_objects(sources@.take(k))
                            + (#[trigger] sources@[k]).objects@.len();
                    let i = p - total_objects(sources@.take(k));
                    let src = sources@[k];
                    let bc = base_counter(sources@, k);
                    let probe = sources@[k].objects@[i];
                    assert(fold_id(bc, i) == id);
                    assert(t.contains_id(fold_id(bc, i)) && node_rewritten(
                        src.objects@[i].1,
                        t.node_at(fold_id(bc, i)),
                        merge_map(src, bc),
                    ));
                    lemma_rewritten_refs(src.objects@[i].1, t.node_at(id), merge_map(src, bc));
                    let x = choose|x: ObjectId| #[trigger] has_ref(src.objects@[i].1, x) && y
                        == map_target(merge_map(src, bc), x);
                    assert(src.wf());
                    src.lemma_found_index(i, src.objects@[i].0);
                    assert(src.contains_id(src.objects@[i].0) && src.node_at(
                        src.objects@[i].0,
                    ) == src.objects@[i].1);
                    if x.number == 0 {
                        if src.contains_id(x) {
                            let jx = src.ids().index_of(x);
                            assert(0 <= jx < src.ids().len() && src.ids()[jx] == x);
                            assert(src.objects@[jx].0 == x);
                        }
                        assert(!merge_map(src, bc).dom().contains(x));
                        assert(y == x);
                        assert(false);
                    } else {
                        assert(has_ref(src.node_at(src.objects@[i].0), x));
                        assert(resolves_internally(src));
                        assert(src.contains_id(x));
                        let ix = src.index_of(x);
                        assert(0 <= ix < src.ids().len() && src.ids()[ix] == x);
                        assert(y == fold_id(bc, ix));
                        let probe2 = sources@[k].objects@[ix];
                        assert(t.contains_id(fold_id(bc, ix)));
                    }
                } else if id == cat {
                    lemma_catalog_refs(t.node_at(id), pages_root);
                    assert(y == pages_root);
                    assert(t.contains_id(pages_root));
                } else {
                    assert(t_cat.contains_id(id));
                    assert(t_cat.ids() == t_tree.ids().push(cat));
                    let pidx = t_cat.ids().index_of(id);
                    assert(0 <= pidx < t_cat.ids().len() && t_cat.ids()[pidx] == id);
                    assert(pidx < t_tree.ids().len()) by {
                        if pidx == t_tree.ids().len() {
                            assert(t_cat.ids()[pidx] == cat);
                        }
                    }
                    assert(t_tree.ids()[pidx] == id);
                    assert(t_tree.contains_id(id));
                    assert(!t_loop.contains_id(id));
                    assert(is_hier_node(t_tree.node_at(id)));
                    assert(t.node_at(id) == t_tree.node_at(id)) by {
                        assert(t_cat.contains_id(id) && t_cat.node_at(id) == t_tree.node_at(
                            id,
                        ));
                    }
                    lemma_hier_node_refs(t.node_at(id));
                    assert(hier_kid_ids(t.node_at(id)).contains(y));
                    let q = choose|q: int|
                        0 <= q < hier_kid_ids(t.node_at(id)).len() && hier_kid_ids(
                            t.node_at(id),
                        )[q] == y;
                    assert(hier_kid_ids(t_tree.node_at(id))[q] == y);
                    assert(eps_copy@.contains(y) || (t_tree.contains_id(y)
                        && !t_loop.contains_id(y)));
                    if eps_copy@.contains(y) {
                        let e = choose|e: int| 0 <= e < eps_copy@.len() && eps_copy@[e] == y;
                        assert(t_loop.entry_points@[e] == y);
                        assert(t_loop.contains_id(y));
                        assert(t.contains_id(y));
                    } else {
                        assert(t_cat.contains_id(y));
                        assert(t.contains_id(y));
                    }
                }
            }
            assert(resolves_internally(t));
        }
    }
    Ok(t)
}

} // verus!

