//! The split orchestrator: extracts each selected entry point, with
//! everything reachable from it, into a brand-new, independently valid
//! graph numbered from one.
use vstd::prelude::*;

use crate::graph::Graph;
use crate::graph::resolves_internally;
use crate::hierarchy::create_page_tree;
use crate::hierarchy::hier_count;
use crate::hierarchy::hier_kid_ids;
use crate::hierarchy::is_catalog;
use crate::hierarchy::is_hier_node;
use crate::hierarchy::make_catalog;
use crate::merge::MERGE_FANOUT;
use crate::merge::default_version;
use crate::merge::fold_id;
use crate::merge::merge_map;
use crate::merge::spec_default_version;
use crate::metadata::preserve_document_metadata;
use crate::model::Node;
use crate::model::ObjectId;
use crate::model::clone_bytes;
use crate::model::has_ref;
use crate::reach::StructuralError;
use crate::reach::collect_referenced_objects;
use crate::reach::collectible;
use crate::reach::closed_set;
use crate::reach::edge;
use crate::reach::in_closure;
use crate::reach::lemma_closure_step;
use crate::remap::remap_ids;
use crate::remap::sequential_remap;
use crate::rewrite::compose_tables;
use crate::rewrite::lemma_rewritten_compose;
use crate::rewrite::lemma_rewritten_refs;
use crate::rewrite::map_target;
use crate::rewrite::node_rewritten;
use crate::rewrite::update_references_in_object;

verus! {

/// How a split is refused: an empty selection, a selected index outside
/// the document, or structural corruption met while collecting a page.
#[derive(Clone, Copy, PartialEq, Eq, Structural, Debug)]
pub enum SplitError {
    EmptySelection,
    PageOutOfRange { index: usize, total: usize },
    Corrupt(StructuralError),
}

/// The bytes of the key linking a page back to its grouping node.
pub open spec fn spec_key_parent() -> Seq<u8> {
    seq![80u8, 97u8, 114u8, 101u8, 110u8, 116u8]
}

/// The key linking a page back to its grouping node ("Parent").
pub fn key_parent() -> (r: Vec<u8>)
    ensures
        r@ == spec_key_parent(),
{
    let mut v: Vec<u8> = Vec::new();
    v.push(80);
    v.push(97);
    v.push(114);
    v.push(101);
    v.push(110);
    v.push(116);
    proof {
        assert(v@ =~= spec_key_parent());
    }
    v
}

/// Whether two byte vectors hold the same bytes.
pub fn bytes_eq(a: &Vec<u8>, b: &Vec<u8>) -> (r: bool)
    ensures
        r == (a@ == b@),
{
    if a.len() != b.len() {
        return false;
    }
    let mut i: usize = 0;
    #[verifier::loop_isolation(false)]
    while i < a.len()
        invariant
            0 <= i <= a@.len(),
            a@.len() == b@.len(),
            forall|j: int| 0 <= j < i ==> a@[j] == b@[j],
        decreases a@.len() - i,
    {
        if a[i] != b[i] {
            return false;
        }
        i = i + 1;
    }
    proof {
        assert(a@ =~= b@);
    }
    true
}

/// Relates a dictionary entry list to the same list with `key` set to `v`:
/// the first entry under `key` is replaced, or a new entry is appended when
/// the key is absent.
pub open spec fn dict_set_rel(a: Seq<(Vec<u8>, Node)>, b: Seq<(Vec<u8>, Node)>, key: Seq<u8>, v: Node) -> bool {
    if exists|j: int| 0 <= j < a.len() && (#[trigger] a[j]).0@ == key {
        exists|j: int|
            {
                &&& 0 <= j < a.len()
                &&& (#[trigger] a[j]).0@ == key
                &&& (forall|jj: int| 0 <= jj < j ==> (#[trigger] a[jj]).0@ != key)
                &&& b.len() == a.len()
                &&& b[j].0@ == key
                &&& b[j].1 == v
                &&& (forall|x: int| 0 <= x < a.len() && x != j ==> (#[trigger] b[x]) == a[x])
            }
    } else {
        &&& b.len() == a.len() + 1
        &&& (forall|x: int| 0 <= x < a.len() ==> (#[trigger] b[x]) == a[x])
        &&& b[a.len() as int].0@ == key
        &&& b[a.len() as int].1 == v
    }
}

/// Sets `key` to `v` in an entry list: the first entry under the key is
/// replaced, or the entry is appended when the key is absent.
#[verifier::loop_isolation(false)]
pub fn set_dict_entry(entries: Vec<(Vec<u8>, Node)>, key: &Vec<u8>, v: Node) -> (r: Vec<
    (Vec<u8>, Node),
>)
    ensures
        dict_set_rel(entries@, r@, key@, v),
{
    let ghost orig = entries@;
    let mut entries = entries;
    let mut i: usize = 0;
    while i < entries.len()
        invariant
            0 <= i <= entries@.len(),
            entries@ == orig,
            forall|j: int| 0 <= j < i ==> (#[trigger] orig[j]).0@ != key@,
        decreases entries@.len() - i,
    {
        if bytes_eq(&entries[i].0, key) {
            vstd::pervasive::VecAdditionalExecFns::set(&mut entries, i, (clone_bytes(key), v));
            proof {
                assert(orig[i as int].0@ == key@);
                assert forall|x: int| 0 <= x < orig.len() && x != i
                    implies (#[trigger] entries@[x]) == orig[x] by {}
            }
            return entries;
        }
        i = i + 1;
    }
    entries.push((clone_bytes(key), v));
    proof {
        assert(forall|j: int| 0 <= j < orig.len() ==> (#[trigger] orig[j]).0@ != key@);
        assert forall|x: int| 0 <= x < orig.len()
            implies (#[trigger] entries@[x]) == orig[x] by {}
    }
    entries
}

/// How the selected page's own node is stored: a dictionary page gets its
/// parent link set to the grouping node; any other shape is stored as
/// rewritten.
pub open spec fn page_stored(rw: Node, stored: Node, pid: ObjectId) -> bool {
    if rw is Dict {
        stored matches Node::Dict(qs) && dict_set_rel(
            rw->Dict_0@,
            qs@,
            spec_key_parent(),
            Node::Reference(pid),
        )
    } else {
        stored == rw
    }
}

/// The extracted graph `sub` holds exactly the part of `g` reachable from
/// `root`, renumbered from one in the order of `reach`, its references
/// rewritten through `m`; behind the objects stand the grouping node and
/// the root node, and the trailer metadata is carried over through `m`.
pub open spec fn extraction_of(
    sub: Graph,
    g: Graph,
    root: ObjectId,
    reach: Seq<ObjectId>,
    m: Map<ObjectId, ObjectId>,
) -> bool {
    &&& (forall|id: ObjectId| #[trigger] reach.contains(id) <==> in_closure(g, root, id))
    &&& reach.no_duplicates()
    &&& reach.contains(root)
    &&& sequential_remap(m, reach, 1)
    &&& sub.entry_points@ == seq![m[root]]
    &&& sub.objects@.len() == reach.len() + 2
    &&& sub.max_id == reach.len() + 2
    &&& (forall|i: int|
        #![trigger reach[i]]
        #![trigger fold_id(1, i)]
        0 <= i < reach.len() ==> sub.contains_id(fold_id(1, i)) && (reach[i] == root
            || node_rewritten(g.node_at(reach[i]), sub.node_at(fold_id(1, i)), m)))
    &&& (exists|rw: Node| #[trigger] node_rewritten(g.node_at(root), rw, m) && page_stored(
        rw,
        sub.node_at(m[root]),
        fold_id(1, reach.len() as int),
    ))
    &&& sub.contains_id(fold_id(1, reach.len() as int))
    &&& is_hier_node(sub.node_at(fold_id(1, reach.len() as int)))
    &&& hier_count(sub.node_at(fold_id(1, reach.len() as int))) == 1
    &&& hier_kid_ids(sub.node_at(fold_id(1, reach.len() as int))) == seq![m[root]]
    &&& sub.contains_id(fold_id(1, reach.len() as int + 1))
    &&& is_catalog(sub.node_at(fold_id(1, reach.len() as int + 1)), fold_id(1, reach.len() as int))
    &&& sub.trailer.root == Some(fold_id(1, reach.len() as int + 1))
    &&& sub.trailer.size == Some(((sub.max_id + 1) as i64))
    &&& sub.trailer.info == (match g.trailer.info {
        Some(i) => if m.dom().contains(i) {
            Some(m[i])
        } else {
            None::<ObjectId>
        },
        None => None::<ObjectId>,
    })
    &&& sub.trailer.encrypt == (match g.trailer.encrypt {
        Some(i) => if m.dom().contains(i) {
            Some(m[i])
        } else {
            None::<ObjectId>
        },
        None => None::<ObjectId>,
    })
    &&& (match g.trailer.id_blob {
        Some(n) => sub.trailer.id_blob matches Some(mm) && crate::model::node_eq(n, mm),
        None => sub.trailer.id_blob is None,
    })
}

/// One extracted, independently valid document per selected entry point.
pub open spec fn extracted_doc(sub: Graph, g: Graph, root: ObjectId) -> bool {
    &&& sub.wf()
    &&& sub.version@ == spec_default_version()
    &&& sub.entry_points@.len() == 1
    &&& (exists|reach: Seq<ObjectId>, m: Map<ObjectId, ObjectId>|
        extraction_of(sub, g, root, reach, m))
}

} // verus!

verus! {

/// Extracts one independent graph per selected page index.
///
/// Every selected index is validated against the entry point enumeration
/// first; an index outside it is a validation error reporting the index
/// and the bound. Then, for each selected page in order, everything
/// reachable from its entry point is collected, renumbered from one,
/// rewritten, and assembled under a fresh grouping node, root node and
/// trailer, with the source's metadata carried over. A structural failure
/// on any page aborts the whole split. Splitting succeeds exactly when the
/// selection is nonempty, in range, and every selected page collects.
#[verifier::rlimit(100)]
#[verifier::loop_isolation(false)]
pub fn split_graph(g: &Graph, page_numbers: &Vec<usize>) -> (r: Result<Vec<Graph>, SplitError>)
    requires
        g.wf(),
    ensures
        r matches Ok(v) ==> {
            &&& page_numbers@.len() >= 1
            &&& v@.len() == page_numbers@.len()
            &&& forall|i: int| 0 <= i < v@.len() ==> extracted_doc(
                #[trigger] v@[i],
                *g,
                g.entry_points@[page_numbers@[i] - 1],
            )
        },
        r matches Err(e) ==> match e {
            SplitError::EmptySelection => page_numbers@.len() == 0,
            SplitError::PageOutOfRange { index, total } => total == g.entry_points@.len()
                && page_numbers@.contains(index) && (index < 1 || index > g.entry_points@.len()),
            SplitError::Corrupt(se) => (forall|i: int|
                0 <= i < page_numbers@.len() ==> 1 <= (#[trigger] page_numbers@[i])
                    <= g.entry_points@.len()) && (exists|i: int|
                0 <= i < page_numbers@.len() && !collectible(
                    *g,
                    g.entry_points@[(#[trigger] page_numbers@[i]) - 1],
                )),
        },
        r is Ok <==> (page_numbers@.len() >= 1 && (forall|i: int|
            0 <= i < page_numbers@.len() ==> 1 <= (#[trigger] page_numbers@[i])
                <= g.entry_points@.len()) && (forall|i: int|
            0 <= i < page_numbers@.len() ==> collectible(
                *g,
                g.entry_points@[(#[trigger] page_numbers@[i]) - 1],
            ))),
{
    if page_numbers.len() == 0 {
        return Err(SplitError::EmptySelection);
    }
    let total = g.entry_points.len();
    let mut i: usize = 0;
    while i < page_numbers.len()
        invariant
            0 <= i <= page_numbers@.len(),
            total == g.entry_points@.len(),
            forall|j: int| 0 <= j < i ==> 1 <= (#[trigger] page_numbers@[j])
                <= g.entry_points@.len(),
        decreases page_numbers@.len() - i,
    {
        let p = page_numbers[i];
        if p < 1 || p > total {
            proof {
                assert(page_numbers@.contains(p)) by {
                    assert(page_numbers@[i as int] == p);
                }
            }
            return Err(SplitError::PageOutOfRange { index: p, total });
        }
        i = i + 1;
    }
    let mut out: Vec<Graph> = Vec::new();
    let mut i: usize = 0;
    while i < page_numbers.len()
        invariant
            0 <= i <= page_numbers@.len(),
            out@.len() == i,
            total == g.entry_points@.len(),
            page_numbers@.len() >= 1,
            forall|j: int| 0 <= j < page_numbers@.len() ==> 1 <= (#[trigger] page_numbers@[j])
                <= g.entry_points@.len(),
            forall|j: int| 0 <= j < i ==> extracted_doc(
                #[trigger] out@[j],
                *g,
                g.entry_points@[page_numbers@[j] - 1],
            ),
            forall|j: int| 0 <= j < i ==> collectible(
                *g,
                g.entry_points@[(#[trigger] page_numbers@[j]) - 1],
            ),
        decreases page_numbers@.len() - i,
    {
        let p = page_numbers[i];
        let ep = g.entry_points[p - 1];
        proof {
            assert(g.contains_id(ep) && ep.number != 0) by {
                assert(g.entry_points@[p - 1] == ep);
            }
        }
        let reached = match collect_referenced_objects(g, ep) {
            Ok(v) => v,
            Err(e) => {
                proof {
                    assert(!collectible(*g, g.entry_points@[(page_numbers@[i as int]) - 1]));
                }
                return Err(SplitError::Corrupt(e));
            },
        };
        proof {
            assert(in_closure(*g, ep, ep));
            assert(reached@.contains(ep));
            let vs = reached@.to_set();
            assert forall|a: ObjectId, b: ObjectId|
                vs.contains(a) && #[trigger] edge(*g, a, b) implies vs.contains(b) by {
                assert(reached@.contains(a));
                lemma_closure_step(*g, ep, a, b);
                assert(reached@.contains(b));
            }
            assert(closed_set(*g, vs));
            reached@.unique_seq_to_set();
            assert(collectible(*g, ep)) by {
                assert(closed_set(*g, vs) && vs.contains(ep) && vs.finite() && vs.len()
                    <= crate::reach::VISIT_BOUND && (forall|id: ObjectId| vs.contains(id)
                    ==> g.contains_id(id)));
            }
        }
        let (table, _next_counter) = remap_ids(&reached, 1);
        let ghost pi = reached@.index_of(ep);
        proof {
            assert(0 <= pi < reached@.len() && reached@[pi] == ep);
        }
        let pid = ObjectId { number: (reached.len() as u32) + 1, generation: 0 };
        let mut sub = Graph::new(default_version());
        let ghost mut root_rw: Node = Node::Null;
        let mut ii: usize = 0;
        while ii < reached.len()
            invariant
                0 <= ii <= reached@.len(),
                sub.wf(),
                sub.objects@.len() == ii,
                sub.max_id == ii,
                sub.entry_points@.len() == 0,
                sub.version@ == spec_default_version(),
                sub.trailer.root is None,
                sub.trailer.size is None,
                sub.trailer.info is None,
                sub.trailer.id_blob is None,
                sub.trailer.encrypt is None,
                pid == fold_id(1, reached@.len() as int),
                forall|jj: int|
                    #![trigger fold_id(1, jj)]
                    0 <= jj < ii ==> sub.contains_id(fold_id(1, jj)) && (jj == pi
                        || node_rewritten(
                        g.node_at(reached@[jj]),
                        sub.node_at(fold_id(1, jj)),
                        table@,
                    )),
                pi < ii ==> node_rewritten(g.node_at(ep), root_rw, table@) && page_stored(
                    root_rw,
                    sub.node_at(fold_id(1, pi)),
                    fold_id(1, reached@.len() as int),
                ),
            decreases reached@.len() - ii,
        {
            let ghost sub_pre = sub;
            let rid = reached[ii];
            proof {
                assert(reached@.contains(rid)) by {
                    assert(reached@[ii as int] == rid);
                }
            }
            let node = match g.get(rid) {
                Some(n) => n,
                None => {
                    proof {
                        assert(false);
                    }
                    return Err(SplitError::Corrupt(StructuralError::DanglingReference(rid)));
                },
            };
            let rw = update_references_in_object(node, &table);
            let nid = ObjectId { number: 1 + (ii as u32), generation: 0 };
            let stored: Node;
            if rid == ep {
                proof {
                    assert(ii as int == pi) by {
                        assert(reached@[ii as int] == reached@[pi]);
                    }
                    root_rw = rw;
                }
                let parent_key = key_parent();
                stored = match rw {
                    Node::Dict(entries) => Node::Dict(
                        set_dict_entry(entries, &parent_key, Node::Reference(pid)),
                    ),
                    other => other,
                };
                proof {
                    assert(page_stored(root_rw, stored, pid));
                }
            } else {
                proof {
                    assert(ii as int != pi) by {
                        if ii as int == pi {
                            assert(reached@[pi] == ep);
                        }
                    }
                }
                stored = rw;
            }
            proof {
                if sub.contains_id(nid) {
                    let jx = sub.ids().index_of(nid);
                    assert(0 <= jx < sub.ids().len() && sub.ids()[jx] == nid);
                    assert(sub.objects@[jx].0 == nid);
                }
            }
            sub.insert_object(nid, stored);
            ii = ii + 1;
            proof {
                assert forall|jj: int|
                    #![trigger fold_id(1, jj)]
                    0 <= jj < ii implies sub.contains_id(fold_id(1, jj)) && (jj == pi
                        || node_rewritten(
                        g.node_at(reached@[jj]),
                        sub.node_at(fold_id(1, jj)),
                        table@,
                    )) by {
                    if jj < ii - 1 {
                        assert(sub_pre.contains_id(fold_id(1, jj)));
                        assert(sub.contains_id(fold_id(1, jj)));
                        assert(sub.node_at(fold_id(1, jj)) == sub_pre.node_at(fold_id(1, jj)));
                    } else {
                        assert(fold_id(1, jj) == nid);
                        assert(sub.contains_id(nid) && sub.node_at(nid) == stored);
                    }
                }
                if pi < ii {
                    if pi < ii - 1 {
                        assert(sub_pre.contains_id(fold_id(1, pi)));
                        assert(sub.node_at(fold_id(1, pi)) == sub_pre.node_at(fold_id(1, pi)));
                    } else {
                        assert(fold_id(1, pi) == nid);
                        assert(sub.node_at(nid) == stored);
                    }
                }
            }
        }
        let new_ep = match table.get(ep) {
            Some(x) => x,
            None => {
                proof {
                    assert(false);
                }
                ep
            },
        };
        proof {
            assert(new_ep == table@[reached@[pi]]);
            assert(new_ep == fold_id(1, pi));
        }
        let mut pr_vec: Vec<ObjectId> = Vec::new();
        pr_vec.push(new_ep);
        proof {
            assert(pr_vec@ =~= seq![new_ep]);
            assert(sub.contains_id(fold_id(1, pi)));
        }
        let ghost sub_objs = sub;
        let pages_id = create_page_tree(&mut sub, &pr_vec, MERGE_FANOUT);
        let ghost sub_tree = sub;
        proof {
            assert(pages_id == pid);
        }
        let cat = sub.add_object(make_catalog(pages_id));
        let ghost sub_cat = sub;
        proof {
            assert(cat == fold_id(1, reached@.len() as int + 1));
            assert(sub.contains_id(new_ep)) by {
                assert(sub_objs.contains_id(fold_id(1, pi)));
                assert(sub_tree.contains_id(fold_id(1, pi)));
            }
            assert(!sub.entry_points@.contains(new_ep));
        }
        sub.push_entry_point(new_ep);
        preserve_document_metadata(g, &mut sub, &table);
        sub.trailer.root = Some(cat);
        let size_val = sub.max_id as i64 + 1;
        sub.trailer.size = Some(size_val);
        proof {
            assert(sub.objects@ == sub_cat.objects@);
            assert(sub.ids() == sub_cat.ids());
            assert(extraction_of(sub, *g, ep, reached@, table@)) by {
                assert forall|jj: int|
                    #![trigger reached@[jj]]
                    #![trigger fold_id(1, jj)]
                    0 <= jj < reached@.len() implies sub.contains_id(fold_id(1, jj))
                        && (reached@[jj] == ep || node_rewritten(
                        g.node_at(reached@[jj]),
                        sub.node_at(fold_id(1, jj)),
                        table@,
                    )) by {
                    assert(sub_objs.contains_id(fold_id(1, jj)));
                    assert(sub_tree.contains_id(fold_id(1, jj)) && sub_tree.node_at(
                        fold_id(1, jj),
                    ) == sub_objs.node_at(fold_id(1, jj)));
                    assert(sub_cat.contains_id(fold_id(1, jj)) && sub_cat.node_at(fold_id(1, jj))
                        == sub_tree.node_at(fold_id(1, jj)));
                    assert(sub.contains_id(fold_id(1, jj)));
                    assert(sub.node_at(fold_id(1, jj)) == sub_cat.node_at(fold_id(1, jj)));
                    if reached@[jj] == ep {
                    } else {
                        assert(jj != pi) by {
                            if jj == pi {
                                assert(reached@[pi] == ep);
                            }
                        }
                    }
                }
                assert(node_rewritten(g.node_at(ep), root_rw, table@) && page_stored(
                    root_rw,
                    sub.node_at(fold_id(1, pi)),
                    fold_id(1, reached@.len() as int),
                )) by {
                    assert(sub_objs.node_at(fold_id(1, pi)) == sub_cat.node_at(fold_id(1, pi)));
                    assert(sub.node_at(fold_id(1, pi)) == sub_cat.node_at(fold_id(1, pi)));
                }
                assert(sub.node_at(pid) == sub_cat.node_at(pid) && sub.contains_id(pid)) by {
                    assert(sub_cat.contains_id(pid) && sub_cat.node_at(pid) == sub_tree.node_at(
                        pid,
                    ));
                }
                assert(is_hier_node(sub.node_at(pid)) && hier_count(sub.node_at(pid)) == 1
                    && hier_kid_ids(sub.node_at(pid)) == seq![table@[ep]]) by {
                    assert(hier_kid_ids(sub_tree.node_at(pid)) == pr_vec@);
                }
                assert(sub.contains_id(cat) && is_catalog(sub.node_at(cat), pid)) by {
                    assert(sub.node_at(cat) == sub_cat.node_at(cat));
                }
                assert(sub.entry_points@ =~= seq![table@[ep]]);
            }
            assert(extracted_doc(sub, *g, g.entry_points@[page_numbers@[i as int] - 1]));
        }
        out.push(sub);
        i = i + 1;
        proof {
            assert forall|j: int| 0 <= j < i implies extracted_doc(
                #[trigger] out@[j],
                *g,
                g.entry_points@[page_numbers@[j] - 1],
            ) by {
                if j < i - 1 {
                    assert(out@[j] == out@.subrange(0, i - 1)[j]);
                }
            }
        }
    }
    Ok(out)
}

} // verus!

verus! {

/// Law: round trip — an entry point folded into a merged graph and then
/// extracted again keeps its content up to one renumbering. For every
/// object reachable from the entry point in a self-contained source, the
/// extracted graph holds exactly one copy, a single rewriting of the
/// source object under the composed translation table; the entry point's
/// own node is exempt because extraction patches its parent link.
#[verifier::rlimit(100)]
pub proof fn lemma_round_trip_entry(
    src: Graph,
    t: Graph,
    sub: Graph,
    base: int,
    ep: ObjectId,
    reach: Seq<ObjectId>,
    m2: Map<ObjectId, ObjectId>,
)
    requires
        src.wf(),
        resolves_internally(src),
        base >= 1,
        base + src.objects@.len() <= u32::MAX + 1,
        forall|i: int|
            #![trigger fold_id(base, i)]
            0 <= i < src.objects@.len() ==> t.contains_id(fold_id(base, i)) && node_rewritten(
                src.objects@[i].1,
                t.node_at(fold_id(base, i)),
                merge_map(src, base),
            ),
        src.contains_id(ep),
        ep.number != 0,
        extraction_of(sub, t, merge_map(src, base)[ep], reach, m2),
    ensures
        forall|x: ObjectId| #[trigger] in_closure(src, ep, x) ==> src.contains_id(x)
            && m2.dom().contains(merge_map(src, base)[x]) && (x == ep || node_rewritten(
            src.node_at(x),
            sub.node_at(m2[merge_map(src, base)[x]]),
            compose_tables(merge_map(src, base), m2),
        )),
{
    let m1 = merge_map(src, base);
    let root_t = m1[ep];
    let all_src = Set::new(|z: ObjectId| src.contains_id(z));
    assert(closed_set(src, all_src)) by {
        assert forall|a: ObjectId, b: ObjectId|
            all_src.contains(a) && #[trigger] edge(src, a, b) implies all_src.contains(b) by {
            assert(has_ref(src.node_at(a), b));
            assert(src.contains_id(b));
        }
    }
    assert(all_src.contains(ep));
    assert forall|x: ObjectId| #[trigger] in_closure(src, ep, x) implies src.contains_id(x)
        && m2.dom().contains(m1[x]) && (x == ep || node_rewritten(
        src.node_at(x),
        sub.node_at(m2[m1[x]]),
        compose_tables(m1, m2),
    )) by {
        assert(all_src.contains(x));
        assert(src.contains_id(x));
        let ix = src.index_of(x);
        assert(0 <= ix < src.ids().len() && src.ids()[ix] == x);
        assert(m1[x] == fold_id(base, ix));
        assert(in_closure(t, root_t, m1[x])) by {
            assert forall|st: Set<ObjectId>|
                #[trigger] closed_set(t, st) && st.contains(root_t)
                implies st.contains(m1[x]) by {
                let pre = Set::new(|z: ObjectId| src.contains_id(z) && st.contains(m1[z]));
                assert(closed_set(src, pre)) by {
                    assert forall|a: ObjectId, b: ObjectId|
                        pre.contains(a) && #[trigger] edge(src, a, b)
                        implies pre.contains(b) by {
                        assert(has_ref(src.node_at(a), b));
                        assert(src.contains_id(b));
                        let ia = src.index_of(a);
                        assert(0 <= ia < src.ids().len() && src.ids()[ia] == a);
                        assert(src.objects@[ia].0 == a);
                        src.lemma_found_index(ia, a);
                        assert(fold_id(base, ia) == m1[a]);
                        assert(t.contains_id(fold_id(base, ia)) && node_rewritten(
                            src.objects@[ia].1,
                            t.node_at(fold_id(base, ia)),
                            m1,
                        ));
                        lemma_rewritten_refs(src.objects@[ia].1, t.node_at(m1[a]), m1);
                        let ib = src.index_of(b);
                        assert(0 <= ib < src.ids().len() && src.ids()[ib] == b);
                        assert(map_target(m1, b) == m1[b]);
                        assert(has_ref(t.node_at(m1[a]), m1[b])) by {
                            assert(has_ref(src.objects@[ia].1, b) && m1[b] == map_target(
                                m1,
                                b,
                            ));
                        }
                        assert(m1[b].number == base + ib);
                        assert(edge(t, m1[a], m1[b]));
                        assert(st.contains(m1[b]));
                    }
                }
                assert(pre.contains(ep)) by {
                    assert(st.contains(m1[ep]));
                }
                assert(pre.contains(x));
                assert(st.contains(m1[x]));
            }
        }
        assert(reach.contains(m1[x]));
        assert(m2.dom().contains(m1[x]));
        if x != ep {
            let iz = reach.index_of(m1[x]);
            assert(0 <= iz < reach.len() && reach[iz] == m1[x]);
            assert(m2[reach[iz]] == fold_id(1, iz));
            assert(sub.contains_id(fold_id(1, iz)) && (reach[iz] == root_t || node_rewritten(
                t.node_at(reach[iz]),
                sub.node_at(fold_id(1, iz)),
                m2,
            )));
            assert(reach[iz] != root_t) by {
                if m1[x] == m1[ep] {
                    let ie = src.index_of(ep);
                    assert(0 <= ie < src.ids().len() && src.ids()[ie] == ep);
                    assert(m1[x].number == base + ix && m1[ep].number == base + ie);
                    assert(ix == ie);
                    assert(x == ep);
                }
            }
            src.lemma_found_index(ix, x);
            assert(node_rewritten(src.node_at(x), t.node_at(m1[x]), m1)) by {
                assert(t.contains_id(fold_id(base, ix)) && node_rewritten(
                    src.objects@[ix].1,
                    t.node_at(fold_id(base, ix)),
                    m1,
                ));
            }
            lemma_rewritten_compose(
                src.node_at(x),
                t.node_at(m1[x]),
                sub.node_at(fold_id(1, iz)),
                m1,
                m2,
            );
            assert(m2[m1[x]] == fold_id(1, iz));
        }
    }
}

} // verus!
