//! The vertices and edges of the graph, which `petgraph` holds, and what is
//! true of walks along the edges.

use vstd::prelude::*;
use petgraph::graph::Graph;
use petgraph::graph::NodeIndex;
use vstd::set_lib::set_int_range;

verus! {

/// `petgraph::graph::Graph`: a graph whose vertices and edges are numbered in
/// the order of their addition. Nothing inside it is seen from here.
#[verifier::external_type_specification]
#[verifier::external_body]
#[verifier::reject_recursive_types(N)]
#[verifier::reject_recursive_types(E)]
#[verifier::reject_recursive_types(Ty)]
#[verifier::reject_recursive_types(Ix)]
pub struct ExGraph<N, E, Ty, Ix>(petgraph::graph::Graph<N, E, Ty, Ix>);

/// `petgraph::Directed`: the marker of a graph whose edges have a direction.
#[verifier::external_type_specification]
#[verifier::external_body]
pub struct ExDirected(petgraph::Directed);

/// The number of vertices of a graph.
pub uninterp spec fn topology_nodes(g: Graph<(), ()>) -> nat;

/// The edges of a graph, each from its first vertex to its second, in the
/// order in which they were added.
pub uninterp spec fn topology_edges(g: Graph<(), ()>) -> Seq<(int, int)>;

/// An edge leads from the vertex at place `i` of `walk` to the next one.
pub open spec fn linked(edges: Seq<(int, int)>, walk: Seq<int>, i: int) -> bool {
    edges.contains((walk[i], walk[i + 1]))
}

/// `walk` goes along edges from each of its vertices to the next.
pub open spec fn is_walk(edges: Seq<(int, int)>, walk: Seq<int>) -> bool {
    &&& walk.len() >= 1
    &&& forall|i: int| 0 <= i < walk.len() - 1 ==> #[trigger] linked(edges, walk, i)
}

/// Some walk leads from `from` to `to`. Every vertex reaches itself.
pub open spec fn reachable(edges: Seq<(int, int)>, from: int, to: int) -> bool {
    exists|walk: Seq<int>| #[trigger] is_walk(edges, walk) && walk.first() == from && walk.last() == to
}

/// The vertices that the edges from `a` lead to, the newest edge first.
pub open spec fn successors(edges: Seq<(int, int)>, a: int) -> Seq<int>
    decreases edges.len(),
{
    if edges.len() == 0 {
        Seq::empty()
    } else if edges.last().0 == a {
        seq![edges.last().1] + successors(edges.drop_last(), a)
    } else {
        successors(edges.drop_last(), a)
    }
}

/// `petgraph::graph::Graph::new`: a directed graph without vertices and
/// without edges.
#[verifier::external_body]
pub(crate) fn topology_new() -> (g: Graph<(), ()>)
    ensures
        topology_nodes(g) == 0,
        topology_edges(g) == Seq::<(int, int)>::empty(),
{
    Graph::new()
}

/// `Graph::node_count`: the number of vertices.
#[verifier::external_body]
pub(crate) fn topology_node_count(g: &Graph<(), ()>) -> (n: usize)
    ensures
        n == topology_nodes(*g),
{
    g.node_count()
}

/// `Graph::edge_count`: the number of edges.
#[verifier::external_body]
pub(crate) fn topology_edge_count(g: &Graph<(), ()>) -> (n: usize)
    ensures
        n == topology_edges(*g).len(),
{
    g.edge_count()
}

/// `Graph::add_node`: adds one vertex and hands back its index, which is the
/// number of vertices before. The edges stay. The graph panics at the limit
/// of its 32-bit index, which the caller must stay under.
#[verifier::external_body]
pub(crate) fn topology_add_node(g: &mut Graph<(), ()>) -> (index: usize)
    requires
        topology_nodes(*old(g)) < u32::MAX,
    ensures
        index == topology_nodes(*old(g)),
        topology_nodes(*final(g)) == topology_nodes(*old(g)) + 1,
        topology_edges(*final(g)) == topology_edges(*old(g)),
{
    g.add_node(()).index()
}

/// `Graph::add_edge`: adds an edge from vertex `a` to vertex `b` behind the
/// other edges. The vertices stay. The graph panics where a vertex does not
/// exist and at the limit of its 32-bit index, which the caller must rule
/// out.
#[verifier::external_body]
pub(crate) fn topology_add_edge(g: &mut Graph<(), ()>, a: usize, b: usize)
    requires
        a < topology_nodes(*old(g)),
        b < topology_nodes(*old(g)),
        topology_nodes(*old(g)) <= u32::MAX,
        topology_edges(*old(g)).len() < u32::MAX,
    ensures
        topology_nodes(*final(g)) == topology_nodes(*old(g)),
        topology_edges(*final(g)) == topology_edges(*old(g)).push((a as int, b as int)),
{
    g.add_edge(NodeIndex::new(a), NodeIndex::new(b), ());
}

/// `Graph::neighbors`: the vertices that the edges from `a` lead to. For a
/// directed graph they come in the reverse order of the edges' addition.
#[verifier::external_body]
pub(crate) fn topology_neighbors(g: &Graph<(), ()>, a: usize) -> (r: Vec<usize>)
    requires
        a < topology_nodes(*g),
        topology_nodes(*g) <= u32::MAX,
    ensures
        r@.len() == successors(topology_edges(*g), a as int).len(),
        forall|i: int| 0 <= i < r@.len() ==> r@[i] == successors(topology_edges(*g), a as int)[i],
{
    g.neighbors(NodeIndex::new(a)).map(|n| n.index()).collect()
}

/// `petgraph::algo::has_path_connecting`: whether a path leads from `from`
/// to `to`; it does where the two are the same vertex.
#[verifier::external_body]
pub(crate) fn topology_has_path(g: &Graph<(), ()>, from: usize, to: usize) -> (r: bool)
    requires
        from < topology_nodes(*g),
        to < topology_nodes(*g),
        topology_nodes(*g) <= u32::MAX,
    ensures
        r == reachable(topology_edges(*g), from as int, to as int),
{
    petgraph::algo::has_path_connecting(g, NodeIndex::new(from), NodeIndex::new(to), None)
}

/// Every edge joins two of the first `n` vertices.
pub open spec fn in_range(edges: Seq<(int, int)>, n: nat) -> bool {
    forall|i: int|
        0 <= i < edges.len() ==> 0 <= (#[trigger] edges[i]).0 < n && 0 <= edges[i].1 < n
}

/// No edge leads to a vertex from which its own start can be reached: no
/// walk along one edge or more comes back to where it began.
pub open spec fn acyclic(edges: Seq<(int, int)>) -> bool {
    forall|i: int| 0 <= i < edges.len() ==> !reachable(edges, (#[trigger] edges[i]).1, edges[i].0)
}

/// The vertices among the first `n` that can be reached from `a`.
pub open spec fn descendants(edges: Seq<(int, int)>, n: nat, a: int) -> Set<int> {
    Set::new(|x: int| 0 <= x < n && reachable(edges, a, x))
}

/// Every vertex reaches itself.
pub proof fn lemma_reaches_itself(edges: Seq<(int, int)>, a: int)
    ensures
        reachable(edges, a, a),
{
    let walk = seq![a];
    assert(is_walk(edges, walk));
}

/// A walk to `b` and a walk from `b` make a walk.
pub proof fn lemma_reachable_trans(edges: Seq<(int, int)>, a: int, b: int, c: int)
    requires
        reachable(edges, a, b),
        reachable(edges, b, c),
    ensures
        reachable(edges, a, c),
{
    let w1 = choose|walk: Seq<int>| #[trigger]
        is_walk(edges, walk) && walk.first() == a && walk.last() == b;
    let w2 = choose|walk: Seq<int>| #[trigger]
        is_walk(edges, walk) && walk.first() == b && walk.last() == c;
    let walk = w1 + w2.drop_first();
    assert forall|i: int| 0 <= i < walk.len() - 1 implies #[trigger] linked(edges, walk, i) by {
        if i < w1.len() - 1 {
            assert(linked(edges, w1, i));
        } else {
            let k = i - (w1.len() - 1);
            assert(linked(edges, w2, k));
            assert(walk[i + 1] == w2[k + 1]);
            if k == 0 {
                assert(walk[i] == w1.last());
            } else {
                assert(walk[i] == w2[k]);
            }
        }
    }
    assert(is_walk(edges, walk));
    assert(walk.first() == a);
    if w2.len() == 1 {
        assert(walk.last() == w1.last());
    } else {
        assert(walk.last() == w2.last());
    }
}

/// An edge is a walk of one step.
pub proof fn lemma_edge_reaches(edges: Seq<(int, int)>, a: int, b: int)
    requires
        edges.contains((a, b)),
    ensures
        reachable(edges, a, b),
{
    let walk = seq![a, b];
    assert forall|i: int| 0 <= i < walk.len() - 1 implies #[trigger] linked(edges, walk, i) by {
        assert(i == 0);
    }
    assert(is_walk(edges, walk));
}

/// Each successor of a vertex is the end of an edge from it.
pub proof fn lemma_successor_is_edge(edges: Seq<(int, int)>, a: int, i: int)
    requires
        0 <= i < successors(edges, a).len(),
    ensures
        edges.contains((a, successors(edges, a)[i])),
    decreases edges.len(),
{
    if edges.len() > 0 {
        let rest = edges.drop_last();
        if edges.last().0 == a {
            if i == 0 {
                assert(edges[edges.len() - 1] == (a, successors(edges, a)[i]));
            } else {
                lemma_successor_is_edge(rest, a, i - 1);
                let k = rest.index_of((a, successors(rest, a)[i - 1]));
                assert(edges[k] == rest[k]);
            }
        } else {
            lemma_successor_is_edge(rest, a, i);
            let k = rest.index_of((a, successors(rest, a)[i]));
            assert(edges[k] == rest[k]);
        }
    }
}

/// The end of each edge from a vertex is one of its successors.
pub proof fn lemma_edge_is_successor(edges: Seq<(int, int)>, a: int, c: int)
    requires
        edges.contains((a, c)),
    ensures
        successors(edges, a).contains(c),
    decreases edges.len(),
{
    let k = edges.index_of((a, c));
    let rest = edges.drop_last();
    if k == edges.len() - 1 {
        assert(successors(edges, a)[0] == c);
    } else {
        assert(rest[k] == (a, c));
        lemma_edge_is_successor(rest, a, c);
        let i = successors(rest, a).index_of(c);
        if edges.last().0 == a {
            assert(successors(edges, a)[i + 1] == c);
        } else {
            assert(successors(edges, a)[i] == c);
        }
    }
}

/// In an acyclic graph a vertex reaches fewer vertices than any vertex with
/// an edge to it.
pub proof fn lemma_descendants_shrink(edges: Seq<(int, int)>, n: nat, a: int, c: int)
    requires
        acyclic(edges),
        edges.contains((a, c)),
        0 <= a < n,
    ensures
        descendants(edges, n, a).finite(),
        descendants(edges, n, c).finite(),
        descendants(edges, n, c).len() < descendants(edges, n, a).len(),
        descendants(edges, n, a).len() <= n,
{
    let all = set_int_range(0, n as int);
    let from_a = descendants(edges, n, a);
    let from_c = descendants(edges, n, c);
    vstd::set_lib::lemma_int_range(0, n as int);
    assert(from_a.subset_of(all));
    vstd::set_lib::lemma_len_subset(from_a, all);
    lemma_reaches_itself(edges, a);
    assert(from_a.contains(a));
    lemma_edge_reaches(edges, a, c);
    let i = edges.index_of((a, c));
    assert(edges[i] == (a, c));
    assert forall|x: int| from_c.contains(x) implies from_a.remove(a).contains(x) by {
        lemma_reachable_trans(edges, a, c, x);
    }
    assert(from_c.subset_of(from_a.remove(a)));
    vstd::set_lib::lemma_len_subset(from_c, from_a.remove(a));
}

/// The vertices that a vertex reaches are among the first `n`.
pub proof fn lemma_descendants_bound(edges: Seq<(int, int)>, n: nat, a: int)
    ensures
        descendants(edges, n, a).finite(),
        descendants(edges, n, a).len() <= n,
{
    let all = set_int_range(0, n as int);
    vstd::set_lib::lemma_int_range(0, n as int);
    assert(descendants(edges, n, a).subset_of(all));
    vstd::set_lib::lemma_len_subset(descendants(edges, n, a), all);
}

/// A walk that may use the new edge from `p` to `c` either is a walk
/// without it, or leads to `p` and on from `c` without it.
pub proof fn lemma_walk_split(edges: Seq<(int, int)>, p: int, c: int, walk: Seq<int>)
    requires
        is_walk(edges.push((p, c)), walk),
    ensures
        reachable(edges, walk.first(), walk.last()) || (reachable(edges, walk.first(), p)
            && reachable(edges, c, walk.last())),
    decreases walk.len(),
{
    let grown = edges.push((p, c));
    if walk.len() == 1 {
        lemma_reaches_itself(edges, walk.first());
    } else {
        let rest = walk.drop_first();
        assert forall|i: int| 0 <= i < rest.len() - 1 implies #[trigger] linked(grown, rest, i) by {
            assert(linked(grown, walk, i + 1));
        }
        assert(is_walk(grown, rest));
        lemma_walk_split(edges, p, c, rest);
        let a = walk[0];
        let b = walk[1];
        assert(rest.first() == b);
        assert(rest.last() == walk.last());
        assert(linked(grown, walk, 0));
        let k = grown.index_of((a, b));
        if k < edges.len() {
            assert(edges[k] == (a, b));
            lemma_edge_reaches(edges, a, b);
            if reachable(edges, b, walk.last()) {
                lemma_reachable_trans(edges, a, b, walk.last());
            } else {
                lemma_reachable_trans(edges, a, b, p);
            }
        } else {
            assert((a, b) == (p, c));
            lemma_reaches_itself(edges, p);
            if !reachable(edges, b, walk.last()) {
                assert(reachable(edges, c, walk.last()));
            }
        }
    }
}

/// An edge that closes no walk keeps the graph acyclic.
pub proof fn lemma_add_edge_keeps_acyclic(edges: Seq<(int, int)>, p: int, c: int)
    requires
        acyclic(edges),
        !reachable(edges, c, p),
    ensures
        acyclic(edges.push((p, c))),
{
    let grown = edges.push((p, c));
    assert forall|i: int| 0 <= i < grown.len() implies !reachable(
        grown,
        (#[trigger] grown[i]).1,
        grown[i].0,
    ) by {
        let a = grown[i].0;
        let b = grown[i].1;
        if reachable(grown, b, a) {
            let walk = choose|walk: Seq<int>| #[trigger]
                is_walk(grown, walk) && walk.first() == b && walk.last() == a;
            lemma_walk_split(edges, p, c, walk);
            if i < edges.len() {
                assert(edges[i] == (a, b));
                assert(!reachable(edges, b, a));
                lemma_edge_reaches(edges, a, b);
                lemma_reachable_trans(edges, c, a, b);
                lemma_reachable_trans(edges, c, b, p);
            } else {
                if !reachable(edges, b, a) {
                    lemma_reachable_trans(edges, c, a, a);
                }
            }
        }
    }
}

} // verus!
