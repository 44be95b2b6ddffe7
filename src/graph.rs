//! The distance graph, held in a `petgraph::Graph`.
//!
//! What a graph holds is named by two spec functions: the weight of each node
//! in index order, and each edge `(source, target, weight)` in index order.
//! This crate never removes nodes or edges, so indices are positions in those
//! sequences.
use vstd::prelude::*;

use petgraph::graph::{EdgeIndex, NodeIndex};
use petgraph::Graph;

verus! {

#[verifier::external_type_specification]
#[verifier::external_body]
#[verifier::reject_recursive_types(N)]
#[verifier::reject_recursive_types(E)]
#[verifier::reject_recursive_types(Ty)]
#[verifier::reject_recursive_types(Ix)]
pub struct ExGraph<N, E, Ty, Ix>(petgraph::Graph<N, E, Ty, Ix>);

#[verifier::external_type_specification]
#[verifier::external_body]
pub struct ExDirected(petgraph::Directed);

/// The node weights of a graph, in node index order.
pub uninterp spec fn graph_nodes(g: Graph<i32, i64>) -> Seq<i32>;

/// The edges of a graph as `(source, target, weight)`, in edge index order.
pub uninterp spec fn graph_edges(g: Graph<i32, i64>) -> Seq<(usize, usize, i64)>;

/// Whether the edge list holds an edge from `a` to `b`.
pub open spec fn has_edge(edges: Seq<(usize, usize, i64)>, a: usize, b: usize) -> bool {
    exists|e: int| 0 <= e < edges.len() && edges[e].0 == a && edges[e].1 == b
}

/// No two edges share both source and target.
pub open spec fn distinct_pairs(edges: Seq<(usize, usize, i64)>) -> bool {
    forall|e1: int, e2: int|
        0 <= e1 < edges.len() && 0 <= e2 < edges.len() && e1 != e2 ==> !(#[trigger] edges[e1].0 == #[trigger] edges[e2].0
            && edges[e1].1 == edges[e2].1)
}

/// The weight of the edge from `a` to `b`, if there is one.
pub open spec fn weight_between(edges: Seq<(usize, usize, i64)>, a: usize, b: usize) -> Option<int> {
    if has_edge(edges, a, b) {
        let e = choose|e: int| 0 <= e < edges.len() && edges[e].0 == a && edges[e].1 == b;
        Some(edges[e].2 as int)
    } else {
        None
    }
}

/// With distinct pairs, the weight between the endpoints of an edge is that
/// edge's weight.
pub proof fn lemma_weight_of_edge(edges: Seq<(usize, usize, i64)>, e: int)
    requires
        distinct_pairs(edges),
        0 <= e < edges.len(),
    ensures
        weight_between(edges, edges[e].0, edges[e].1) == Some(edges[e].2 as int),
{
    let a = edges[e].0;
    let b = edges[e].1;
    assert(has_edge(edges, a, b));
    let c = choose|c: int| 0 <= c < edges.len() && edges[c].0 == a && edges[c].1 == b;
    if c != e {
        assert(edges[c].0 == edges[e].0);
    }
}

/// Setting the weight from `a` to `b` the way `graph_update_edge` does keeps
/// pairs distinct, gives that pair the new weight, and leaves every other pair
/// alone.
pub proof fn lemma_update_weight(
    before: Seq<(usize, usize, i64)>,
    after: Seq<(usize, usize, i64)>,
    a: usize,
    b: usize,
    w: i64,
    r: usize,
)
    requires
        distinct_pairs(before),
        has_edge(before, a, b) ==> {
            &&& r < before.len()
            &&& before[r as int].0 == a
            &&& before[r as int].1 == b
            &&& after == before.update(r as int, (a, b, w))
        },
        !has_edge(before, a, b) ==> after == before.push((a, b, w)),
    ensures
        distinct_pairs(after),
        weight_between(after, a, b) == Some(w as int),
        forall|x: usize, y: usize| !(x == a && y == b) ==> #[trigger] weight_between(after, x, y) == weight_between(before, x, y),
        forall|e: int| 0 <= e < after.len() ==> (#[trigger] after[e].0 == a && after[e].1 == b) || exists|f: int|
            0 <= f < before.len() && before[f] == after[e],
{
    let pos: int = if has_edge(before, a, b) { r as int } else { before.len() as int };
    assert(after[pos] == (a, b, w));
    assert forall|e1: int, e2: int|
        0 <= e1 < after.len() && 0 <= e2 < after.len() && e1 != e2 implies !(#[trigger] after[e1].0 == #[trigger] after[e2].0
            && after[e1].1 == after[e2].1) by {
        if e1 != pos && e2 != pos {
            assert(after[e1] == before[e1] && after[e2] == before[e2]);
        } else if e1 == pos {
            if after[e2].0 == a && after[e2].1 == b {
                assert(after[e2] == before[e2]);
                if has_edge(before, a, b) {
                    assert(before[e2].0 == before[r as int].0);
                }
            }
        } else {
            if after[e1].0 == a && after[e1].1 == b {
                assert(after[e1] == before[e1]);
                if has_edge(before, a, b) {
                    assert(before[e1].0 == before[r as int].0);
                }
            }
        }
    }
    lemma_weight_of_edge(after, pos);
    assert forall|x: usize, y: usize| !(x == a && y == b) implies #[trigger] weight_between(after, x, y) == weight_between(before, x, y) by {
        if has_edge(before, x, y) {
            let e = choose|e: int| 0 <= e < before.len() && before[e].0 == x && before[e].1 == y;
            assert(after[e] == before[e]);
            lemma_weight_of_edge(before, e);
            lemma_weight_of_edge(after, e);
        }
        if has_edge(after, x, y) {
            let e = choose|e: int| 0 <= e < after.len() && after[e].0 == x && after[e].1 == y;
            assert(e != pos);
            assert(after[e] == before[e]);
        }
    }
    assert forall|e: int| 0 <= e < after.len() implies (#[trigger] after[e].0 == a && after[e].1 == b) || exists|f: int|
        0 <= f < before.len() && before[f] == after[e] by {
        if e != pos {
            assert(before[e] == after[e]);
        }
    }
}

/// The largest node or edge count that `petgraph`'s default `u32` indices
/// allow: index `u32::MAX` is reserved as the end marker.
pub open spec fn index_limit() -> nat {
    u32::MAX as nat
}

/// Relies on `Graph::new`: a directed graph with no nodes and no edges.
#[verifier::external_body]
pub(crate) fn graph_new() -> (g: Graph<i32, i64>)
    ensures
        graph_nodes(g) == Seq::<i32>::empty(),
        graph_edges(g) == Seq::<(usize, usize, i64)>::empty(),
{
    Graph::new()
}

/// Relies on `Graph::node_count`: the number of nodes.
#[verifier::external_body]
pub(crate) fn graph_node_count(g: &Graph<i32, i64>) -> (r: usize)
    ensures
        r == graph_nodes(*g).len(),
{
    g.node_count()
}

/// Relies on `Graph::edge_count`: the number of edges.
#[verifier::external_body]
pub(crate) fn graph_edge_count(g: &Graph<i32, i64>) -> (r: usize)
    ensures
        r == graph_edges(*g).len(),
{
    g.edge_count()
}

/// Relies on `Graph::add_node`: appends a node and returns its index. It
/// panics when the node count has reached the index limit.
#[verifier::external_body]
pub(crate) fn graph_add_node(g: &mut Graph<i32, i64>, weight: i32) -> (r: usize)
    requires
        graph_nodes(*old(g)).len() < index_limit(),
    ensures
        r == graph_nodes(*old(g)).len(),
        graph_nodes(*final(g)) == graph_nodes(*old(g)).push(weight),
        graph_edges(*final(g)) == graph_edges(*old(g)),
{
    g.add_node(weight).index()
}

/// Relies on `Graph::add_edge`: appends an edge and returns its index. It
/// panics when a node does not exist or the edge count has reached the index
/// limit.
#[verifier::external_body]
pub(crate) fn graph_add_edge(g: &mut Graph<i32, i64>, a: usize, b: usize, weight: i64) -> (r: usize)
    requires
        a < graph_nodes(*old(g)).len(),
        b < graph_nodes(*old(g)).len(),
        graph_nodes(*old(g)).len() <= index_limit(),
        graph_edges(*old(g)).len() < index_limit(),
    ensures
        r == graph_edges(*old(g)).len(),
        graph_nodes(*final(g)) == graph_nodes(*old(g)),
        graph_edges(*final(g)) == graph_edges(*old(g)).push((a, b, weight)),
{
    g.add_edge(NodeIndex::new(a), NodeIndex::new(b), weight).index()
}

/// Relies on `Graph::update_edge`: when an edge from `a` to `b` exists, one
/// such edge gets the new weight; otherwise a new edge is appended.
#[verifier::external_body]
pub(crate) fn graph_update_edge(g: &mut Graph<i32, i64>, a: usize, b: usize, weight: i64) -> (r: usize)
    requires
        a < graph_nodes(*old(g)).len(),
        b < graph_nodes(*old(g)).len(),
        graph_nodes(*old(g)).len() <= index_limit(),
        graph_edges(*old(g)).len() < index_limit(),
    ensures
        graph_nodes(*final(g)) == graph_nodes(*old(g)),
        has_edge(graph_edges(*old(g)), a, b) ==> {
            &&& r < graph_edges(*old(g)).len()
            &&& graph_edges(*old(g))[r as int].0 == a
            &&& graph_edges(*old(g))[r as int].1 == b
            &&& graph_edges(*final(g)) == graph_edges(*old(g)).update(r as int, (a, b, weight))
        },
        !has_edge(graph_edges(*old(g)), a, b) ==> {
            &&& r == graph_edges(*old(g)).len()
            &&& graph_edges(*final(g)) == graph_edges(*old(g)).push((a, b, weight))
        },
{
    g.update_edge(NodeIndex::new(a), NodeIndex::new(b), weight).index()
}

/// Relies on `Graph::find_edge`: some edge from `a` to `b`, or `None` when
/// there is none.
#[verifier::external_body]
pub(crate) fn graph_find_edge(g: &Graph<i32, i64>, a: usize, b: usize) -> (r: Option<usize>)
    requires
        a < graph_nodes(*g).len(),
        b < graph_nodes(*g).len(),
        graph_nodes(*g).len() <= index_limit(),
    ensures
        r is None <==> !has_edge(graph_edges(*g), a, b),
        r matches Some(e) ==> e < graph_edges(*g).len() && graph_edges(*g)[e as int].0 == a
            && graph_edges(*g)[e as int].1 == b,
{
    g.find_edge(NodeIndex::new(a), NodeIndex::new(b)).map(|e| e.index())
}

/// Relies on `Graph::edge_weight`: the weight of an existing edge.
#[verifier::external_body]
pub(crate) fn graph_edge_weight(g: &Graph<i32, i64>, e: usize) -> (r: Option<i64>)
    requires
        e < graph_edges(*g).len(),
        graph_edges(*g).len() <= index_limit(),
    ensures
        r == Some(graph_edges(*g)[e as int].2),
{
    g.edge_weight(EdgeIndex::new(e)).copied()
}

} // verus!
