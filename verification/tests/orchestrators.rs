use pdfer::Graph;
use pdfer::Node;
use pdfer::ObjectId;
use pdfer::merge::MergeError;
use pdfer::merge::merge_graphs;
use pdfer::split::SplitError;
use pdfer::split::split_graph;

fn oid(number: u32) -> ObjectId {
    ObjectId { number, generation: 0 }
}

fn dict(entries: Vec<(&str, Node)>) -> Node {
    Node::Dict(entries.into_iter().map(|(k, v)| (k.as_bytes().to_vec(), v)).collect())
}

fn dict_get<'a>(n: &'a Node, key: &str) -> Option<&'a Node> {
    match n {
        Node::Dict(entries) => entries
            .iter()
            .find(|(k, _)| k.as_slice() == key.as_bytes())
            .map(|(_, v)| v),
        _ => None,
    }
}

fn node_of<'a>(g: &'a Graph, id: ObjectId) -> &'a Node {
    &g.objects.iter().find(|(i, _)| *i == id).unwrap().1
}

/// A document with one page carrying a distinguishing payload.
fn single_page_doc(tag: i64) -> Graph {
    let mut g = Graph::new(b"1.5".to_vec());
    g.insert_object(
        oid(1),
        dict(vec![("Type", Node::Name(b"Page".to_vec())), ("Data", Node::Integer(tag))]),
    );
    g.push_entry_point(oid(1));
    g
}

#[test]
fn merging_two_single_page_docs_gives_two_entry_points_in_order() {
    let d1 = single_page_doc(7);
    let d2 = single_page_doc(8);
    let t = merge_graphs(&vec![d1, d2]).unwrap();
    assert_eq!(t.entry_points, vec![oid(1), oid(2)]);
    // the first source's page keeps its payload, the second is renumbered
    assert!(matches!(dict_get(node_of(&t, oid(1)), "Data"), Some(Node::Integer(7))));
    assert!(matches!(dict_get(node_of(&t, oid(2)), "Data"), Some(Node::Integer(8))));
    // the hierarchy root records both entry points
    let cat = t.trailer.root.unwrap();
    let pages_ref = match dict_get(node_of(&t, cat), "Pages") {
        Some(Node::Reference(i)) => *i,
        _ => panic!("root node must point at the hierarchy"),
    };
    let pages = node_of(&t, pages_ref);
    assert!(matches!(dict_get(pages, "Count"), Some(Node::Integer(2))));
    match dict_get(pages, "Kids") {
        Some(Node::Array(kids)) => {
            assert_eq!(kids.len(), 2);
            assert!(matches!(&kids[0], Node::Reference(i) if *i == oid(1)));
            assert!(matches!(&kids[1], Node::Reference(i) if *i == oid(2)));
        },
        _ => panic!("kid list expected"),
    }
    assert_eq!(t.trailer.size, Some(t.max_id as i64 + 1));
}

#[test]
fn merge_rewrites_cross_references_per_source() {
    let mut d1 = single_page_doc(1);
    d1.insert_object(oid(2), dict(vec![("Owner", Node::Reference(oid(1)))]));
    let d2 = single_page_doc(2);
    let t = merge_graphs(&vec![d1, d2]).unwrap();
    // the second object of source one still points at the first page
    assert!(matches!(dict_get(node_of(&t, oid(2)), "Owner"), Some(Node::Reference(i)) if *i == oid(1)));
    // source two's page landed after source one's objects
    assert!(matches!(dict_get(node_of(&t, oid(3)), "Data"), Some(Node::Integer(2))));
    assert_eq!(t.entry_points, vec![oid(1), oid(3)]);
}

#[test]
fn merge_refuses_an_empty_source_list() {
    let r = merge_graphs(&vec![]);
    assert!(matches!(r, Err(MergeError::NoSources)));
}

#[test]
fn merge_refuses_a_source_without_entry_points() {
    let d1 = single_page_doc(1);
    let empty = Graph::new(b"1.5".to_vec());
    let r = merge_graphs(&vec![d1, empty]);
    assert!(matches!(r, Err(MergeError::NoEntryPoints { source_index: 1 })));
}

#[test]
fn merge_keeps_first_source_metadata_only() {
    let mut d1 = single_page_doc(1);
    d1.insert_object(oid(2), dict(vec![("Title", Node::Text(b"one".to_vec(), false))]));
    d1.trailer.info = Some(oid(2));
    d1.trailer.id_blob = Some(Node::Text(b"blob".to_vec(), true));
    let mut d2 = single_page_doc(2);
    d2.insert_object(oid(2), dict(vec![("Title", Node::Text(b"two".to_vec(), false))]));
    d2.trailer.info = Some(oid(2));
    let t = merge_graphs(&vec![d1, d2]).unwrap();
    assert_eq!(t.trailer.info, Some(oid(2)));
    assert!(matches!(dict_get(node_of(&t, oid(2)), "Title"), Some(Node::Text(s, false)) if s.as_slice() == b"one"));
    assert!(matches!(&t.trailer.id_blob, Some(Node::Text(s, true)) if s.as_slice() == b"blob"));
    assert!(t.trailer.encrypt.is_none());
}

#[test]
fn splitting_twenty_five_pages_gives_independent_docs() {
    let mut g = Graph::new(b"1.5".to_vec());
    for i in 1..=25u32 {
        g.insert_object(oid(i), dict(vec![("Data", Node::Integer(i as i64))]));
    }
    for i in 1..=25u32 {
        g.push_entry_point(oid(i));
    }
    let pages: Vec<usize> = (1..=25).collect();
    let docs = split_graph(&g, &pages).unwrap();
    assert_eq!(docs.len(), 25);
    for (idx, d) in docs.iter().enumerate() {
        assert_eq!(d.entry_points.len(), 1);
        // no id rises above the local watermark
        for (id, _) in &d.objects {
            assert!(id.number >= 1 && id.number <= d.max_id);
        }
        // page, grouping node, root node
        assert_eq!(d.objects.len(), 3);
        let page = node_of(d, d.entry_points[0]);
        assert!(matches!(dict_get(page, "Data"), Some(Node::Integer(v)) if *v == (idx as i64) + 1));
    }
}

#[test]
fn split_sets_the_parent_link_on_the_page() {
    let g = {
        let mut g = Graph::new(b"1.5".to_vec());
        g.insert_object(oid(1), dict(vec![("Type", Node::Name(b"Page".to_vec()))]));
        g.push_entry_point(oid(1));
        g
    };
    let docs = split_graph(&g, &vec![1]).unwrap();
    let d = &docs[0];
    let page = node_of(d, d.entry_points[0]);
    let parent = match dict_get(page, "Parent") {
        Some(Node::Reference(i)) => *i,
        _ => panic!("the page must link back to its grouping node"),
    };
    let pages = node_of(d, parent);
    assert!(matches!(dict_get(pages, "Count"), Some(Node::Integer(1))));
    let cat = d.trailer.root.unwrap();
    assert!(matches!(dict_get(node_of(d, cat), "Pages"), Some(Node::Reference(i)) if *i == parent));
    assert_eq!(d.trailer.size, Some(d.max_id as i64 + 1));
}

#[test]
fn split_shares_reachable_objects_per_page() {
    let mut g = Graph::new(b"1.5".to_vec());
    g.insert_object(oid(1), dict(vec![("Font", Node::Reference(oid(3)))]));
    g.insert_object(oid(2), dict(vec![("Font", Node::Reference(oid(3)))]));
    g.insert_object(oid(3), dict(vec![("Kind", Node::Name(b"F".to_vec()))]));
    g.push_entry_point(oid(1));
    g.push_entry_point(oid(2));
    let docs = split_graph(&g, &vec![1, 2]).unwrap();
    assert_eq!(docs.len(), 2);
    for d in &docs {
        // page + shared font + grouping node + root node
        assert_eq!(d.objects.len(), 4);
        let page = node_of(d, d.entry_points[0]);
        let font_ref = match dict_get(page, "Font") {
            Some(Node::Reference(i)) => *i,
            _ => panic!("font reference expected"),
        };
        assert!(matches!(dict_get(node_of(d, font_ref), "Kind"), Some(Node::Name(n)) if n.as_slice() == b"F"));
    }
}

#[test]
fn split_rejects_an_empty_selection() {
    let g = single_page_doc(1);
    assert!(matches!(split_graph(&g, &vec![]), Err(SplitError::EmptySelection)));
}

#[test]
fn split_rejects_an_out_of_range_index() {
    let g = single_page_doc(1);
    let r = split_graph(&g, &vec![1, 3]);
    assert!(matches!(r, Err(SplitError::PageOutOfRange { index: 3, total: 1 })));
}

#[test]
fn split_aborts_on_a_dangling_reference() {
    let mut g = Graph::new(b"1.5".to_vec());
    g.insert_object(oid(1), dict(vec![("Gone", Node::Reference(oid(9)))]));
    g.push_entry_point(oid(1));
    let r = split_graph(&g, &vec![1]);
    assert!(matches!(r, Err(SplitError::Corrupt(_))));
}

#[test]
fn merging_then_splitting_restores_page_content() {
    let docs: Vec<Graph> = vec![single_page_doc(11), single_page_doc(22), single_page_doc(33)];
    let merged = merge_graphs(&docs).unwrap();
    assert_eq!(merged.entry_points.len(), 3);
    let pages: Vec<usize> = (1..=3).collect();
    let back = split_graph(&merged, &pages).unwrap();
    assert_eq!(back.len(), 3);
    let tags = [11i64, 22, 33];
    for (idx, d) in back.iter().enumerate() {
        assert_eq!(d.entry_points.len(), 1);
        let page = node_of(d, d.entry_points[0]);
        assert!(matches!(dict_get(page, "Type"), Some(Node::Name(n)) if n.as_slice() == b"Page"));
        assert!(matches!(dict_get(page, "Data"), Some(Node::Integer(v)) if *v == tags[idx]));
    }
}

#[test]
fn merging_seventeen_docs_builds_a_two_level_resolving_tree() {
    let docs: Vec<Graph> = (1..=17).map(|k| single_page_doc(k as i64)).collect();
    let t = merge_graphs(&docs).unwrap();
    assert_eq!(t.entry_points.len(), 17);
    // every reference anywhere in the merged graph resolves
    fn check_refs(g: &Graph, n: &Node) {
        match n {
            Node::Reference(id) => {
                if id.number != 0 {
                    assert!(
                        g.objects.iter().any(|(i, _)| i == id),
                        "dangling reference to {} {}",
                        id.number,
                        id.generation
                    );
                }
            }
            Node::Array(items) => items.iter().for_each(|x| check_refs(g, x)),
            Node::Dict(entries) | Node::Stream(entries, _) => {
                entries.iter().for_each(|(_, v)| check_refs(g, v))
            }
            _ => {}
        }
    }
    for (_, node) in &t.objects {
        check_refs(&t, node);
    }
    // the hierarchy has two levels of the chunked shape
    let cat = t.trailer.root.unwrap();
    let pages_ref = match dict_get(node_of(&t, cat), "Pages") {
        Some(Node::Reference(i)) => *i,
        _ => panic!("root node must point at the hierarchy"),
    };
    let root_node = node_of(&t, pages_ref);
    assert!(matches!(dict_get(root_node, "Count"), Some(Node::Integer(17))));
    let mids: Vec<ObjectId> = match dict_get(root_node, "Kids") {
        Some(Node::Array(kids)) => kids
            .iter()
            .map(|k| match k {
                Node::Reference(i) => *i,
                _ => panic!("reference expected"),
            })
            .collect(),
        _ => panic!("kid list expected"),
    };
    assert_eq!(mids.len(), 3);
    let mut leaves: Vec<ObjectId> = Vec::new();
    for (w, mid) in [8usize, 8, 1].iter().zip(mids.iter()) {
        let mid_node = node_of(&t, *mid);
        assert!(matches!(dict_get(mid_node, "Count"), Some(Node::Integer(c)) if *c == *w as i64));
        match dict_get(mid_node, "Kids") {
            Some(Node::Array(kids)) => {
                assert_eq!(kids.len(), *w);
                for k in kids {
                    match k {
                        Node::Reference(i) => leaves.push(*i),
                        _ => panic!("reference expected"),
                    }
                }
            }
            _ => panic!("kid list expected"),
        }
    }
    assert_eq!(leaves, t.entry_points, "leaf order must be the page order");
}
