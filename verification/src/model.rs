//! The in-memory representation of a single object: a tagged value that may
//! embed references to other objects by id.
use vstd::prelude::*;

verus! {

/// Identifier of a stored object: an object number and a generation.
/// The number 0 is a structural sentinel ("no object") and never identifies
/// a real stored object.
#[derive(Clone, Copy, PartialEq, Eq, Structural, Debug, Hash)]
pub struct ObjectId {
    pub number: u32,
    pub generation: u16,
}

/// A node of the object graph: a scalar leaf, a reference to another object,
/// or a container (array, dictionary, stream) that may embed further nodes.
///
/// A real-number scalar is carried as its raw bit pattern; the library never
/// interprets it. A text scalar carries a flag telling the two serialized
/// text forms apart. A stream holds its own dictionary and an opaque byte
/// payload that is never traversed.
pub enum Node {
    Null,
    Boolean(bool),
    Integer(i64),
    RealBits(u32),
    Text(Vec<u8>, bool),
    Name(Vec<u8>),
    Reference(ObjectId),
    Array(Vec<Node>),
    Dict(Vec<(Vec<u8>, Node)>),
    Stream(Vec<(Vec<u8>, Node)>, Vec<u8>),
}

/// Structural equivalence of two nodes: same shape, same scalar contents,
/// same references.
pub open spec fn node_eq(a: Node, b: Node) -> bool
    decreases a,
{
    match a {
        Node::Null => b is Null,
        Node::Boolean(x) => b matches Node::Boolean(y) && x == y,
        Node::Integer(x) => b matches Node::Integer(y) && x == y,
        Node::RealBits(x) => b matches Node::RealBits(y) && x == y,
        Node::Text(x, f) => b matches Node::Text(y, g) && x@ == y@ && f == g,
        Node::Name(x) => b matches Node::Name(y) && x@ == y@,
        Node::Reference(i) => b matches Node::Reference(j) && i == j,
        Node::Array(xs) => b matches Node::Array(ys) && xs@.len() == ys@.len()
            && (forall|i: int| 0 <= i < xs@.len() ==> node_eq(#[trigger] xs@[i], ys@[i])),
        Node::Dict(ps) => b matches Node::Dict(qs) && ps@.len() == qs@.len()
            && (forall|i: int| 0 <= i < ps@.len()
                ==> (#[trigger] ps@[i]).0@ == qs@[i].0@ && node_eq(ps@[i].1, qs@[i].1)),
        Node::Stream(ps, d) => b matches Node::Stream(qs, e) && ps@.len() == qs@.len()
            && (forall|i: int| 0 <= i < ps@.len()
                ==> (#[trigger] ps@[i]).0@ == qs@[i].0@ && node_eq(ps@[i].1, qs@[i].1))
            && d@ == e@,
    }
}

/// Structural equivalence of two dictionary entry lists.
pub open spec fn entries_eq(ps: Seq<(Vec<u8>, Node)>, qs: Seq<(Vec<u8>, Node)>) -> bool {
    ps.len() == qs.len()
        && (forall|i: int| 0 <= i < ps.len()
            ==> (#[trigger] ps[i]).0@ == qs[i].0@ && node_eq(ps[i].1, qs[i].1))
}

/// True when `n` embeds a reference to `id`, at any depth, not counting a
/// stream's opaque payload.
pub open spec fn has_ref(n: Node, id: ObjectId) -> bool
    decreases n,
{
    match n {
        Node::Reference(i) => i == id,
        Node::Array(xs) => exists|i: int| 0 <= i < xs@.len() && has_ref(#[trigger] xs@[i], id),
        Node::Dict(ps) => exists|i: int| 0 <= i < ps@.len() && has_ref((#[trigger] ps@[i]).1, id),
        Node::Stream(ps, _) => exists|i: int|
            0 <= i < ps@.len() && has_ref((#[trigger] ps@[i]).1, id),
        _ => false,
    }
}

/// Copies a byte vector.
pub fn clone_bytes(b: &Vec<u8>) -> (r: Vec<u8>)
    ensures
        r@ == b@,
{
    let mut out: Vec<u8> = Vec::new();
    let mut i: usize = 0;
    while i < b.len()
        invariant
            0 <= i <= b@.len(),
            out@ == b@.subrange(0, i as int),
        decreases b@.len() - i,
    {
        out.push(b[i]);
        i = i + 1;
        proof {
            assert(out@ =~= b@.subrange(0, i as int));
        }
    }
    proof {
        assert(out@ =~= b@);
    }
    out
}

/// Deep copy of a node, structurally equivalent to the original.
#[verifier::loop_isolation(false)]
pub fn clone_node(n: &Node) -> (r: Node)
    ensures
        node_eq(*n, r),
    decreases *n,
{
    match n {
        Node::Null => Node::Null,
        Node::Boolean(x) => Node::Boolean(*x),
        Node::Integer(x) => Node::Integer(*x),
        Node::RealBits(x) => Node::RealBits(*x),
        Node::Text(x, f) => Node::Text(clone_bytes(x), *f),
        Node::Name(x) => Node::Name(clone_bytes(x)),
        Node::Reference(i) => Node::Reference(*i),
        Node::Array(xs) => {
            let mut ys: Vec<Node> = Vec::new();
            let mut i: usize = 0;
            while i < xs.len()
                invariant
                    0 <= i <= xs@.len(),
                    ys@.len() == i,
                    forall|j: int| 0 <= j < i ==> node_eq(xs@[j], #[trigger] ys@[j]),
                decreases xs@.len() - i,
            {
                proof {
                    vstd::std_specs::vec::axiom_vec_index_decreases(*xs, i as int);
                    assert(decreases_to!(*n => xs@[i as int]));
                }
                ys.push(clone_node(&xs[i]));
                i = i + 1;
            }
            Node::Array(ys)
        },
        Node::Dict(ps) => Node::Dict(clone_entries(ps)),
        Node::Stream(ps, d) => Node::Stream(clone_entries(ps), clone_bytes(d)),
    }
}

/// Deep copy of a dictionary entry list.
#[verifier::loop_isolation(false)]
pub fn clone_entries(ps: &Vec<(Vec<u8>, Node)>) -> (r: Vec<(Vec<u8>, Node)>)
    ensures
        entries_eq(ps@, r@),
    decreases ps@,
{
    let mut qs: Vec<(Vec<u8>, Node)> = Vec::new();
    let mut i: usize = 0;
    while i < ps.len()
        invariant
            0 <= i <= ps@.len(),
            qs@.len() == i,
            forall|j: int| 0 <= j < i ==> (#[trigger] ps@[j]).0@ == qs@[j].0@
                && node_eq(ps@[j].1, qs@[j].1),
        decreases ps@.len() - i,
    {
        let (k, v) = &ps[i];
        qs.push((clone_bytes(k), clone_node(v)));
        i = i + 1;
    }
    qs
}

} // verus!

