use pdfer::Graph;
use pdfer::Node;
use pdfer::ObjectId;
use pdfer::hierarchy::create_page_tree;
use pdfer::reach::StructuralError;
use pdfer::reach::collect_referenced_objects;
use pdfer::remap::remap_ids;
use pdfer::rewrite::update_references_in_object;

fn oid(number: u32) -> ObjectId {
    ObjectId { number, generation: 0 }
}

fn dict(entries: Vec<(&str, Node)>) -> Node {
    Node::Dict(entries.into_iter().map(|(k, v)| (k.as_bytes().to_vec(), v)).collect())
}

fn dict_get<'a>(n: &'a Node, key: &str) -> Option<&'a Node> {
    match n {
        Node::Dict(entries) => entries
            .iter()
            .find(|(k, _)| k.as_slice() == key.as_bytes())
            .map(|(_, v)| v),
        _ => None,
    }
}

fn node_of<'a>(g: &'a Graph, id: ObjectId) -> &'a Node {
    &g.objects.iter().find(|(i, _)| *i == id).unwrap().1
}

#[test]
fn remapping_is_sequential_and_injective() {
    let ids = vec![oid(9), ObjectId { number: 4, generation: 7 }, oid(2)];
    let (table, next) = remap_ids(&ids, 5);
    assert_eq!(next, 8);
    assert_eq!(table.get(oid(9)), Some(oid(5)));
    assert_eq!(table.get(ObjectId { number: 4, generation: 7 }), Some(oid(6)));
    assert_eq!(table.get(oid(2)), Some(oid(7)));
    assert_eq!(table.get(oid(4)), None);
    // a second set remapped after the first lands in a disjoint range
    let ids2 = vec![oid(9), oid(1)];
    let (table2, next2) = remap_ids(&ids2, next);
    assert_eq!(next2, 10);
    assert_eq!(table2.get(oid(9)), Some(oid(8)));
    assert_eq!(table2.get(oid(1)), Some(oid(9)));
}

#[test]
fn rewriting_replaces_only_mapped_references() {
    let (table, _) = remap_ids(&vec![oid(1)], 10);
    let node = dict(vec![
        ("A", Node::Reference(oid(1))),
        ("B", Node::Array(vec![Node::Reference(oid(2)), Node::Integer(7)])),
        ("S", Node::Stream(vec![(b"R".to_vec(), Node::Reference(oid(1)))], vec![1, 2, 3])),
    ]);
    let rewritten = update_references_in_object(&node, &table);
    assert!(matches!(dict_get(&rewritten, "A"), Some(Node::Reference(i)) if *i == oid(10)));
    match dict_get(&rewritten, "B") {
        Some(Node::Array(items)) => {
            assert!(matches!(&items[0], Node::Reference(i) if *i == oid(2)));
            assert!(matches!(&items[1], Node::Integer(7)));
        },
        _ => panic!("array expected"),
    }
    match dict_get(&rewritten, "S") {
        Some(Node::Stream(entries, payload)) => {
            assert!(matches!(&entries[0].1, Node::Reference(i) if *i == oid(10)));
            assert_eq!(payload, &vec![1, 2, 3]);
        },
        _ => panic!("stream expected"),
    }
}

#[test]
fn rewriting_twice_changes_nothing_more() {
    let (table, _) = remap_ids(&vec![oid(1), oid(2)], 10);
    let node = Node::Array(vec![Node::Reference(oid(1)), Node::Reference(oid(2))]);
    let once = update_references_in_object(&node, &table);
    let twice = update_references_in_object(&once, &table);
    match (&once, &twice) {
        (Node::Array(a), Node::Array(b)) => {
            assert_eq!(a.len(), 2);
            assert_eq!(b.len(), 2);
            for i in 0..2 {
                match (&a[i], &b[i]) {
                    (Node::Reference(x), Node::Reference(y)) => assert_eq!(x, y),
                    _ => panic!("references expected"),
                }
            }
        },
        _ => panic!("arrays expected"),
    }
}

#[test]
fn reachability_terminates_on_a_two_cycle() {
    let mut g = Graph::new(b"1.5".to_vec());
    g.insert_object(oid(1), dict(vec![("Next", Node::Reference(oid(2)))]));
    g.insert_object(oid(2), dict(vec![("Back", Node::Reference(oid(1)))]));
    g.insert_object(oid(3), Node::Integer(9));
    let reached = collect_referenced_objects(&g, oid(1)).unwrap();
    let mut nums: Vec<u32> = reached.iter().map(|i| i.number).collect();
    nums.sort();
    assert_eq!(nums, vec![1, 2]);
}

#[test]
fn reachability_skips_the_sentinel_id() {
    let mut g = Graph::new(b"1.5".to_vec());
    g.insert_object(oid(1), dict(vec![("Empty", Node::Reference(oid(0)))]));
    let reached = collect_referenced_objects(&g, oid(1)).unwrap();
    assert_eq!(reached.len(), 1);
    assert_eq!(reached[0], oid(1));
}

#[test]
fn dangling_reference_aborts_collection() {
    let mut g = Graph::new(b"1.5".to_vec());
    g.insert_object(oid(1), dict(vec![("Gone", Node::Reference(oid(7)))]));
    let r = collect_referenced_objects(&g, oid(1));
    assert!(matches!(r, Err(StructuralError::DanglingReference(i)) if i == oid(7)));
}

#[test]
fn oversized_graph_aborts_collection() {
    let mut g = Graph::new(b"1.5".to_vec());
    let n: u32 = 10_001;
    for i in 1..=n {
        let node = if i < n {
            dict(vec![("Next", Node::Reference(oid(i + 1)))])
        } else {
            Node::Null
        };
        g.insert_object(oid(i), node);
    }
    let r = collect_referenced_objects(&g, oid(1));
    assert!(matches!(r, Err(StructuralError::OversizedGraph)));
}

#[test]
fn hierarchy_of_seventeen_refs_has_two_levels() {
    let mut g = Graph::new(b"1.5".to_vec());
    let refs: Vec<ObjectId> = (100..117).map(oid).collect();
    let root = create_page_tree(&mut g, &refs, 8);
    let root_node = node_of(&g, root);
    assert!(matches!(dict_get(root_node, "Count"), Some(Node::Integer(17))));
    let mids: Vec<ObjectId> = match dict_get(root_node, "Kids") {
        Some(Node::Array(kids)) => kids
            .iter()
            .map(|k| match k {
                Node::Reference(i) => *i,
                _ => panic!("reference expected"),
            })
            .collect(),
        _ => panic!("kid list expected"),
    };
    assert_eq!(mids.len(), 3);
    let mut leaves: Vec<ObjectId> = Vec::new();
    let expected_widths = [8usize, 8, 1];
    for (w, mid) in expected_widths.iter().zip(mids.iter()) {
        let mid_node = node_of(&g, *mid);
        match dict_get(mid_node, "Kids") {
            Some(Node::Array(kids)) => {
                assert_eq!(kids.len(), *w, "chunk width");
                for k in kids {
                    match k {
                        Node::Reference(i) => leaves.push(*i),
                        _ => panic!("reference expected"),
                    }
                }
            },
            _ => panic!("kid list expected"),
        }
        assert!(matches!(dict_get(mid_node, "Count"), Some(Node::Integer(c)) if *c == *w as i64));
    }
    assert_eq!(leaves, refs, "leaf order must match the input order");
}

#[test]
fn small_hierarchy_lists_the_refs_directly() {
    let mut g = Graph::new(b"1.5".to_vec());
    let refs: Vec<ObjectId> = vec![oid(41), oid(42)];
    let root = create_page_tree(&mut g, &refs, 8);
    let root_node = node_of(&g, root);
    assert!(matches!(dict_get(root_node, "Count"), Some(Node::Integer(2))));
    match dict_get(root_node, "Kids") {
        Some(Node::Array(kids)) => {
            assert_eq!(kids.len(), 2);
            assert!(matches!(&kids[0], Node::Reference(i) if *i == oid(41)));
            assert!(matches!(&kids[1], Node::Reference(i) if *i == oid(42)));
        },
        _ => panic!("kid list expected"),
    }
}
