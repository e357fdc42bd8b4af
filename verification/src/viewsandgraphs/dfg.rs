//! The graph of operators: its construction and its use.

use vstd::prelude::*;
use petgraph::graph::Graph;
use crate::operators::leaf::is_listing;
use crate::operators::leaf::is_snapshot;
use crate::operators::leaf::without;
use crate::operators::leaf::Delivery;
use crate::operators::leaf::LeafModel;
use crate::operators::operation::same_kind;
use crate::operators::operation::Operation;
use crate::operators::operation::OperationModel;
use crate::types::changetype::ChangeType;
use crate::types::datatype::DataType;
use crate::types::datatype::Value;
use crate::types::error::Error;
use crate::units::change::Change;
use crate::units::change::ChangeModel;
use crate::units::row::Row;
use crate::units::serverchange::ServerChange;
use crate::units::table::rows_text;
use crate::units::table::Table;
use crate::viewsandgraphs::topology::acyclic;
use crate::viewsandgraphs::topology::in_range;
use crate::viewsandgraphs::topology::lemma_descendants_bound;
use crate::viewsandgraphs::topology::lemma_successor_is_edge;
use crate::viewsandgraphs::topology::successors;
use crate::viewsandgraphs::topology::topology_edges;
use crate::viewsandgraphs::topology::topology_neighbors;
use crate::viewsandgraphs::topology::topology_nodes;
use crate::viewsandgraphs::propagation::lemma_visit_keeps_kinds;
use crate::viewsandgraphs::propagation::propagate;
use crate::viewsandgraphs::propagation::same_kinds;
use crate::viewsandgraphs::propagation::settles;
use crate::viewsandgraphs::propagation::visit;
use crate::viewsandgraphs::propagation::Outcome;

verus! {

/// The mathematical value of a `DataFlowGraph`.
pub struct GraphModel {
    /// The operator at each vertex.
    pub nodes: Seq<OperationModel>,
    /// The edges, each from a parent to a child, in the order of their
    /// addition.
    pub edges: Seq<(int, int)>,
    /// The vertex of each root, by the root's name.
    pub roots: Map<Seq<char>, usize>,
    /// The vertices that are leaves, in the order of their addition.
    pub leaves: Seq<usize>,
}

impl GraphModel {
    /// Every edge into a join comes from one of the two parents of the join,
    /// and no two edges into a join come from the same vertex.
    pub open spec fn joins_fed(self) -> bool {
        &&& forall|i: int|
            0 <= i < self.edges.len() ==> (self.nodes[(
            #[trigger] self.edges[i]).1] matches OperationModel::InnerJoinor(m) ==> self.edges[i].0
                == m.left_parent || self.edges[i].0 == m.right_parent)
        &&& forall|i: int, j: int|
            0 <= i < j < self.edges.len() && self.nodes[(
            #[trigger] self.edges[i]).1] is InnerJoinor ==> self.edges[i] != #[trigger] self.edges[j]
    }

    /// The edges join vertices of the graph and close no walk; no edge
    /// leads to a root or from a leaf; a join is fed by its two parents and
    /// by each at most once; each root stands under its name in the registry
    /// and the registry holds nothing else; the leaves are the vertices that
    /// hold a leaf.
    pub open spec fn valid(self) -> bool {
        &&& in_range(self.edges, self.nodes.len())
        &&& acyclic(self.edges)
        &&& self.joins_fed()
        &&& forall|i: int|
            0 <= i < self.edges.len() ==> !(self.nodes[(#[trigger] self.edges[i]).0] is Leafor) && !(
            self.nodes[self.edges[i].1] is Rootor)
        &&& forall|id: Seq<char>| #[trigger]
            self.roots.contains_key(id) ==> self.roots[id] < self.nodes.len() && (
            self.nodes[self.roots[id] as int] matches OperationModel::Rootor(m) && m.root_id == id)
        &&& forall|i: int|
            0 <= i < self.nodes.len() ==> ((#[trigger] self.nodes[i]) matches OperationModel::Rootor(
                m,
            ) ==> self.roots.contains_key(m.root_id) && self.roots[m.root_id] == i)
        &&& forall|i: int|
            0 <= i < self.leaves.len() ==> (#[trigger] self.leaves[i]) < self.nodes.len()
                && self.nodes[self.leaves[i] as int] is Leafor
        &&& forall|i: int|
            0 <= i < self.nodes.len() && (#[trigger] self.nodes[i]) is Leafor ==> self.leaves.contains(
                i as usize,
            )
    }

    /// What follows when `changes` are sent to the root at vertex `root`:
    /// the root stands as its own parent.
    pub open spec fn submit(self, root: int, changes: Seq<ChangeModel>) -> Outcome {
        visit(self.edges, self.nodes, root, root, changes, self.nodes.len())
    }

    /// Whether an edge from `parent` to `child` may be added: both are
    /// vertices, the parent is no leaf, the child is no root, a child that is
    /// a join has the parent as one of its two parents and no edge from it
    /// yet, and no walk leads from the child to the parent.
    pub open spec fn admits_edge(self, parent: int, child: int) -> bool {
        &&& 0 <= parent < self.nodes.len()
        &&& 0 <= child < self.nodes.len()
        &&& !(self.nodes[parent] is Leafor)
        &&& !(self.nodes[child] is Rootor)
        &&& self.nodes[child] matches OperationModel::InnerJoinor(m) ==> (parent == m.left_parent
            || parent == m.right_parent) && !self.edges.contains((parent, child))
        &&& !crate::viewsandgraphs::topology::reachable(self.edges, child, parent)
    }

    /// Whether an operator may be added: a root needs a name that no root
    /// has yet.
    pub open spec fn admits_node(self, op: OperationModel) -> bool {
        op matches OperationModel::Rootor(m) ==> !self.roots.contains_key(m.root_id)
    }

    /// The graph with `op` as its newest vertex.
    pub open spec fn with_node(self, op: OperationModel) -> GraphModel {
        GraphModel {
            nodes: self.nodes.push(op),
            edges: self.edges,
            roots: match op {
                OperationModel::Rootor(m) => self.roots.insert(m.root_id, self.nodes.len() as usize),
                _ => self.roots,
            },
            leaves: match op {
                OperationModel::Leafor(_) => self.leaves.push(self.nodes.len() as usize),
                _ => self.leaves,
            },
        }
    }
}

/// The graph after the operators of `ops` have been added in their order;
/// `None` where one of them is not admitted.
pub open spec fn with_nodes(g: GraphModel, ops: Seq<OperationModel>) -> Option<GraphModel>
    decreases ops.len(),
{
    if ops.len() == 0 {
        Some(g)
    } else {
        match with_nodes(g, ops.drop_last()) {
            Some(before) => if before.admits_node(ops.last()) {
                Some(before.with_node(ops.last()))
            } else {
                None
            },
            None => None,
        }
    }
}

/// The graph after the edges of `edges` have been added in their order;
/// `None` where one of them is not admitted.
pub open spec fn with_edges(g: GraphModel, edges: Seq<(usize, usize)>) -> Option<GraphModel>
    decreases edges.len(),
{
    if edges.len() == 0 {
        Some(g)
    } else {
        match with_edges(g, edges.drop_last()) {
            Some(before) => if before.admits_edge(edges.last().0 as int, edges.last().1 as int) {
                Some(
                    GraphModel {
                        edges: before.edges.push((edges.last().0 as int, edges.last().1 as int)),
                        ..before
                    },
                )
            } else {
                None
            },
            None => None,
        }
    }
}

/// The graph that a list of operators and a list of edges between their
/// places in the list describe; `None` where the description does not hold
/// together or is longer than a graph can be.
pub open spec fn assembled(ops: Seq<OperationModel>, edges: Seq<(usize, usize)>) -> Option<
    GraphModel,
> {
    let empty = GraphModel {
        nodes: Seq::empty(),
        edges: Seq::empty(),
        roots: Map::empty(),
        leaves: Seq::empty(),
    };
    if ops.len() < u32::MAX && edges.len() < u32::MAX {
        match with_nodes(empty, ops) {
            Some(g) => with_edges(g, edges),
            None => None,
        }
    } else {
        None
    }
}

/// A change that keeps every operator's kind and name keeps the graph valid.
pub proof fn lemma_same_kinds_keep_valid(before: GraphModel, after: Seq<OperationModel>)
    requires
        before.valid(),
        same_kinds(before.nodes, after),
    ensures
        (GraphModel { nodes: after, ..before }).valid(),
{
    let g = GraphModel { nodes: after, ..before };
    assert(g.joins_fed()) by {
        assert forall|i: int| 0 <= i < g.edges.len() implies (g.nodes[(
        #[trigger] g.edges[i]).1] matches OperationModel::InnerJoinor(m) ==> g.edges[i].0
            == m.left_parent || g.edges[i].0 == m.right_parent) by {
            assert(same_kind(before.nodes[g.edges[i].1], after[g.edges[i].1]));
        }
        assert forall|i: int, j: int|
            0 <= i < j < g.edges.len() && g.nodes[(
            #[trigger] g.edges[i]).1] is InnerJoinor implies g.edges[i] != #[trigger] g.edges[j] by {
            assert(same_kind(before.nodes[g.edges[i].1], after[g.edges[i].1]));
        }
    }
    assert forall|i: int| 0 <= i < g.edges.len() implies !(g.nodes[(#[trigger] g.edges[i]).0] is Leafor)
        && !(g.nodes[g.edges[i].1] is Rootor) by {
        assert(same_kind(before.nodes[g.edges[i].0], after[g.edges[i].0]));
        assert(same_kind(before.nodes[g.edges[i].1], after[g.edges[i].1]));
    }
    assert forall|id: Seq<char>| #[trigger] g.roots.contains_key(id) implies g.roots[id]
        < g.nodes.len() && (g.nodes[g.roots[id] as int] matches OperationModel::Rootor(m)
        && m.root_id == id) by {
        assert(same_kind(before.nodes[g.roots[id] as int], after[g.roots[id] as int]));
    }
    assert forall|i: int| 0 <= i < g.nodes.len() implies ((#[trigger] g.nodes[i]) matches OperationModel::Rootor(
        m,
    ) ==> g.roots.contains_key(m.root_id) && g.roots[m.root_id] == i) by {
        assert(same_kind(before.nodes[i], after[i]));
    }
    assert forall|i: int| 0 <= i < g.leaves.len() implies (#[trigger] g.leaves[i]) < g.nodes.len()
        && g.nodes[g.leaves[i] as int] is Leafor by {
        assert(same_kind(before.nodes[g.leaves[i] as int], after[g.leaves[i] as int]));
    }
    assert forall|i: int| 0 <= i < g.nodes.len() && (#[trigger] g.nodes[i]) is Leafor implies g.leaves.contains(
        i as usize,
    ) by {
        assert(same_kind(before.nodes[i], after[i]));
    }
}

/// Once an operator is turned down, the list of operators is turned down.
pub proof fn lemma_with_nodes_stays_none(g: GraphModel, ops: Seq<OperationModel>, n: int)
    requires
        0 <= n <= ops.len(),
        with_nodes(g, ops.take(n)) is None,
    ensures
        with_nodes(g, ops) is None,
    decreases ops.len() - n,
{
    if n < ops.len() {
        assert(ops.take(n + 1).drop_last() =~= ops.take(n));
        lemma_with_nodes_stays_none(g, ops, n + 1);
    } else {
        assert(ops.take(n) =~= ops);
    }
}

/// Once an edge is turned down, the list of edges is turned down.
pub proof fn lemma_with_edges_stays_none(g: GraphModel, edges: Seq<(usize, usize)>, n: int)
    requires
        0 <= n <= edges.len(),
        with_edges(g, edges.take(n)) is None,
    ensures
        with_edges(g, edges) is None,
    decreases edges.len() - n,
{
    if n < edges.len() {
        assert(edges.take(n + 1).drop_last() =~= edges.take(n));
        lemma_with_edges_stays_none(g, edges, n + 1);
    } else {
        assert(edges.take(n) =~= edges);
    }
}

/// A change that is sent to a vertex of a valid graph leaves the graph valid,
/// whether it runs its course or fails on the way.
pub proof fn lemma_submit_keeps_valid(g: GraphModel, root: int, changes: Seq<ChangeModel>)
    requires
        g.valid(),
        0 <= root < g.nodes.len(),
    ensures
        (GraphModel { nodes: g.submit(root, changes).nodes, ..g }).valid(),
{
    lemma_visit_keeps_kinds(g.edges, g.nodes, root, root, changes, g.nodes.len());
    lemma_same_kinds_keep_valid(g, g.submit(root, changes).nodes);
}

/// The graph of operators: the operators at its vertices, the edges from
/// parent to child, the roots by name and the leaves.
#[derive(Debug)]
pub struct DataFlowGraph {
    pub(crate) data: Graph<(), ()>,
    nodes: Vec<Operation>,
    root_id_map: Table<String, usize>,
    leaf_id_vec: Vec<usize>,
}

impl View for DataFlowGraph {
    type V = GraphModel;

    closed spec fn view(&self) -> GraphModel {
        GraphModel {
            nodes: self.nodes.deep_view(),
            edges: topology_edges(self.data),
            roots: self.root_id_map.map(),
            leaves: self.leaf_id_vec@,
        }
    }
}

impl DataFlowGraph {
    #[verifier::type_invariant]
    closed spec fn inv(&self) -> bool {
        &&& topology_nodes(self.data) == self.nodes@.len()
        &&& self.nodes@.len() <= u32::MAX
        &&& topology_edges(self.data).len() <= u32::MAX
        &&& self@.valid()
    }

    /// A graph without vertices.
    pub fn new() -> (g: DataFlowGraph)
        ensures
            g@ == (GraphModel {
                nodes: Seq::empty(),
                edges: Seq::empty(),
                roots: Map::empty(),
                leaves: Seq::empty(),
            }),
            g@.valid(),
    {
        let data = crate::viewsandgraphs::topology::topology_new();
        let nodes: Vec<Operation> = Vec::new();
        let root_id_map: Table<String, usize> = Table::new();
        let leaf_id_vec: Vec<usize> = Vec::new();
        assert(nodes.deep_view() =~= Seq::<OperationModel>::empty());
        DataFlowGraph { data, nodes, root_id_map, leaf_id_vec }
    }

    /// The graph that the operators, in their order, and the edges between
    /// their places in that order describe. The description is turned down
    /// where two roots share a name, where an edge is not admitted when its
    /// turn comes, and where there are more operators or edges than a graph
    /// can number.
    pub fn assemble(operators: Vec<Operation>, edges: Vec<(usize, usize)>) -> (r: Result<
        DataFlowGraph,
        Error,
    >)
        ensures
            match r {
                Ok(g) => assembled(operators.deep_view(), edges@) == Some(g@) && g@.valid(),
                Err(e) => e == Error::MalformedSpec && assembled(operators.deep_view(), edges@)
                    is None,
            },
    {
        if operators.len() >= u32::MAX as usize || edges.len() >= u32::MAX as usize {
            return Err(Error::MalformedSpec);
        }
        let mut g = DataFlowGraph::new();
        let ghost empty = g@;
        let ghost ops = operators.deep_view();
        let ghost count = operators@.len();
        let mut added: usize = 0;
        assert(ops.take(0) =~= Seq::<OperationModel>::empty());
        for op in it: operators
            invariant
                added == it.index(),
                count == it.seq().len(),
                count < u32::MAX,
                edges@.len() < u32::MAX,
                ops == operators.deep_view(),
                empty == (GraphModel {
                    nodes: Seq::empty(),
                    edges: Seq::empty(),
                    roots: Map::empty(),
                    leaves: Seq::empty(),
                }),
                ops.len() == count,
                forall|k: int| 0 <= k < count ==> it.seq()[k]@ == #[trigger] ops[k],
                with_nodes(empty, ops.take(added as int)) == Some(g@),
                g@.nodes.len() == added,
                g@.edges.len() == 0,
                g@.valid(),
        {
            proof {
                assert(ops.take(added + 1).drop_last() =~= ops.take(added as int));
                assert(ops.take(added + 1).last() == ops[added as int]);
            }
            match g.add_node(op) {
                Ok(_) => {},
                Err(e) => {
                    proof {
                        lemma_with_nodes_stays_none(empty, ops, added + 1);
                    }
                    return Err(e);
                },
            }
            added += 1;
        }
        assert(ops.take(added as int) =~= ops);
        let ghost nodes = g@;
        let mut i: usize = 0;
        assert(edges@.take(0) =~= Seq::<(usize, usize)>::empty());
        while i < edges.len()
            invariant
                i <= edges@.len(),
                edges@.len() < u32::MAX,
                ops == operators.deep_view(),
                ops.len() < u32::MAX,
                empty == (GraphModel {
                    nodes: Seq::empty(),
                    edges: Seq::empty(),
                    roots: Map::empty(),
                    leaves: Seq::empty(),
                }),
                with_nodes(empty, ops) == Some(nodes),
                with_edges(nodes, edges@.take(i as int)) == Some(g@),
                g@.edges.len() == i,
                g@.valid(),
            decreases edges@.len() - i,
        {
            proof {
                assert(edges@.take(i + 1).drop_last() =~= edges@.take(i as int));
                assert(edges@.take(i + 1).last() == edges@[i as int]);
            }
            match g.add_edge(edges[i].0, edges[i].1) {
                Ok(_) => {},
                Err(e) => {
                    proof {
                        lemma_with_edges_stays_none(nodes, edges@, i + 1);
                    }
                    return Err(e);
                },
            }
            i += 1;
        }
        assert(edges@.take(i as int) =~= edges@);
        Ok(g)
    }

    /// The number of vertices.
    pub fn node_count(&self) -> (n: usize)
        ensures
            n == self@.nodes.len(),
            self@.valid(),
    {
        proof {
            use_type_invariant(self);
        }
        crate::viewsandgraphs::topology::topology_node_count(&self.data)
    }

    /// The number of edges.
    pub fn edge_count(&self) -> (n: usize)
        ensures
            n == self@.edges.len(),
    {
        crate::viewsandgraphs::topology::topology_edge_count(&self.data)
    }

    /// Takes the graph apart and leaves an empty one in its place.
    fn take(&mut self) -> (parts: (Graph<(), ()>, Vec<Operation>, Table<String, usize>, Vec<usize>))
        ensures
            topology_nodes(parts.0) == parts.1@.len(),
            parts.1@.len() <= u32::MAX,
            topology_edges(parts.0).len() <= u32::MAX,
            old(self)@.valid(),
            old(self)@ == (GraphModel {
                nodes: parts.1.deep_view(),
                edges: topology_edges(parts.0),
                roots: parts.2.map(),
                leaves: parts.3@,
            }),
    {
        proof {
            use_type_invariant(&*self);
        }
        let mut taken = DataFlowGraph::new();
        core::mem::swap(self, &mut taken);
        let DataFlowGraph { data, nodes, root_id_map, leaf_id_vec } = taken;
        (data, nodes, root_id_map, leaf_id_vec)
    }

    /// Adds an operator as the newest vertex and hands back its index. A
    /// root is entered in the registry under its name, a leaf in the list of
    /// leaves. A root whose name another root has is turned down, and the
    /// graph stays as it was.
    pub fn add_node(&mut self, op: Operation) -> (r: Result<usize, Error>)
        requires
            old(self)@.nodes.len() < u32::MAX,
        ensures
            final(self)@.valid(),
            match r {
                Ok(index) => {
                    &&& old(self)@.admits_node(op@)
                    &&& index == old(self)@.nodes.len()
                    &&& final(self)@ == old(self)@.with_node(op@)
                },
                Err(e) => {
                    &&& e == Error::MalformedSpec
                    &&& !old(self)@.admits_node(op@)
                    &&& final(self)@ == old(self)@
                },
            },
    {
        let (mut data, mut nodes, mut root_id_map, mut leaf_id_vec) = self.take();
        let ghost before = old(self)@;
        let ghost model = op@;
        let ghost after = before.with_node(model);
        let index = nodes.len();
        let admitted = match &op {
            Operation::Rootor(root) => {
                if root_id_map.get(root.root_id()).is_some() {
                    false
                } else {
                    root_id_map.insert(root.root_id().clone(), index);
                    true
                }
            },
            Operation::Leafor(_) => {
                leaf_id_vec.push(index);
                true
            },
            _ => true,
        };
        if admitted {
            crate::viewsandgraphs::topology::topology_add_node(&mut data);
            nodes.push(op);
            proof {
                assert(nodes.deep_view() =~= before.nodes.push(model));
                assert(after.valid()) by {
                    assert(after.joins_fed()) by {
                        assert forall|i: int| 0 <= i < after.edges.len() implies (after.nodes[(
                        #[trigger] after.edges[i]).1] matches OperationModel::InnerJoinor(m)
                            ==> after.edges[i].0 == m.left_parent || after.edges[i].0
                            == m.right_parent) by {
                            assert(after.nodes[after.edges[i].1] == before.nodes[before.edges[i].1]);
                        }
                        assert forall|i: int, j: int|
                            0 <= i < j < after.edges.len() && after.nodes[(
                            #[trigger] after.edges[i]).1] is InnerJoinor implies after.edges[i]
                            != #[trigger] after.edges[j] by {
                            assert(after.nodes[after.edges[i].1] == before.nodes[before.edges[i].1]);
                        }
                    }
                    assert forall|i: int| 0 <= i < after.edges.len() implies !(after.nodes[(
                    #[trigger] after.edges[i]).0] is Leafor) && !(after.nodes[after.edges[i].1] is Rootor) by {
                        assert(after.nodes[after.edges[i].0] == before.nodes[before.edges[i].0]);
                        assert(after.nodes[after.edges[i].1] == before.nodes[before.edges[i].1]);
                    }
                    assert forall|id: Seq<char>| #[trigger]
                        after.roots.contains_key(id) implies after.roots[id] < after.nodes.len() && (
                    after.nodes[after.roots[id] as int] matches OperationModel::Rootor(m) && m.root_id
                        == id) by {
                        if before.roots.contains_key(id) {
                            assert(after.nodes[before.roots[id] as int]
                                == before.nodes[before.roots[id] as int]);
                        }
                    }
                    assert forall|i: int| 0 <= i < after.nodes.len() implies ((
                    #[trigger] after.nodes[i]) matches OperationModel::Rootor(m)
                        ==> after.roots.contains_key(m.root_id) && after.roots[m.root_id] == i) by {
                        if i < before.nodes.len() {
                            assert(after.nodes[i] == before.nodes[i]);
                        }
                    }
                    assert forall|i: int| 0 <= i < after.leaves.len() implies (
                    #[trigger] after.leaves[i]) < after.nodes.len()
                        && after.nodes[after.leaves[i] as int] is Leafor by {
                        if i < before.leaves.len() {
                            assert(after.leaves[i] == before.leaves[i]);
                            assert(after.nodes[before.leaves[i] as int]
                                == before.nodes[before.leaves[i] as int]);
                        }
                    }
                    assert forall|i: int|
                        0 <= i < after.nodes.len() && (#[trigger] after.nodes[i]) is Leafor implies after.leaves.contains(
                        i as usize,
                    ) by {
                        if i < before.nodes.len() {
                            assert(after.nodes[i] == before.nodes[i]);
                            let k = before.leaves.index_of(i as usize);
                            assert(after.leaves[k] == i as usize);
                        } else {
                            assert(after.leaves[before.leaves.len() as int] == i as usize);
                        }
                    }
                }
            }
            *self = DataFlowGraph { data, nodes, root_id_map, leaf_id_vec };
            Ok(index)
        } else {
            *self = DataFlowGraph { data, nodes, root_id_map, leaf_id_vec };
            Err(Error::MalformedSpec)
        }
    }

    /// Adds an empty view named `root_pair_id`, whose rows are known by
    /// their column `key_index`, as the newest vertex, and hands back its
    /// index.
    pub fn add_leaf(&mut self, root_pair_id: String, key_index: usize) -> (index: usize)
        requires
            old(self)@.nodes.len() < u32::MAX,
        ensures
            final(self)@.valid(),
            index == old(self)@.nodes.len(),
            final(self)@ == old(self)@.with_node(
                OperationModel::Leafor(
                    crate::operators::leaf::LeafModel {
                        table: Map::empty(),
                        sockets: Seq::empty(),
                        root_pair_id: root_pair_id@,
                        key_index: key_index as int,
                    },
                ),
            ),
    {
        let leaf = crate::operators::leaf::Leaf::new(root_pair_id, key_index);
        match self.add_node(Operation::Leafor(leaf)) {
            Ok(index) => index,
            Err(_) => 0,
        }
    }

    /// Adds an edge from vertex `pi` to vertex `ci`, behind the edges that
    /// are there. The edge is turned down, and the graph stays as it was,
    /// where one of the two is no vertex, where it would leave a leaf or
    /// enter a root, and where it would close a walk.
    pub fn add_edge(&mut self, pi: usize, ci: usize) -> (r: Result<(), Error>)
        requires
            old(self)@.edges.len() < u32::MAX,
        ensures
            final(self)@.valid(),
            match r {
                Ok(_) => {
                    &&& old(self)@.admits_edge(pi as int, ci as int)
                    &&& final(self)@ == (GraphModel {
                        edges: old(self)@.edges.push((pi as int, ci as int)),
                        ..old(self)@
                    })
                },
                Err(e) => {
                    &&& e == Error::MalformedSpec
                    &&& !old(self)@.admits_edge(pi as int, ci as int)
                    &&& final(self)@ == old(self)@
                },
            },
    {
        let (mut data, nodes, root_id_map, leaf_id_vec) = self.take();
        let ghost before = old(self)@;
        let n = nodes.len();
        let admitted = pi < n && ci < n && !is_leaf(&nodes[pi]) && !is_root(&nodes[ci]) && feeds(
            &data,
            &nodes,
            pi,
            ci,
        ) && !crate::viewsandgraphs::topology::topology_has_path(&data, ci, pi);
        if admitted {
            crate::viewsandgraphs::topology::topology_add_edge(&mut data, pi, ci);
            proof {
                let after = GraphModel { edges: before.edges.push((pi as int, ci as int)), ..before };
                crate::viewsandgraphs::topology::lemma_add_edge_keeps_acyclic(
                    before.edges,
                    pi as int,
                    ci as int,
                );
                assert forall|i: int| 0 <= i < after.edges.len() implies 0 <= (
                #[trigger] after.edges[i]).0 < after.nodes.len() && 0 <= after.edges[i].1
                    < after.nodes.len() by {
                    if i < before.edges.len() {
                        assert(after.edges[i] == before.edges[i]);
                    }
                }
                assert forall|i: int| 0 <= i < after.edges.len() implies !(after.nodes[(
                #[trigger] after.edges[i]).0] is Leafor) && !(after.nodes[after.edges[i].1] is Rootor) by {
                    if i < before.edges.len() {
                        assert(after.edges[i] == before.edges[i]);
                    }
                }
                assert(after.joins_fed()) by {
                    assert forall|i: int| 0 <= i < after.edges.len() implies (after.nodes[(
                    #[trigger] after.edges[i]).1] matches OperationModel::InnerJoinor(m)
                        ==> after.edges[i].0 == m.left_parent || after.edges[i].0
                        == m.right_parent) by {
                        if i < before.edges.len() {
                            assert(after.edges[i] == before.edges[i]);
                        }
                    }
                    assert forall|i: int, j: int|
                        0 <= i < j < after.edges.len() && after.nodes[(
                        #[trigger] after.edges[i]).1] is InnerJoinor implies after.edges[i]
                        != #[trigger] after.edges[j] by {
                        assert(after.edges[i] == before.edges[i]);
                        if j < before.edges.len() {
                            assert(after.edges[j] == before.edges[j]);
                        } else if after.edges[i] == after.edges[j] {
                            assert(before.edges.contains((pi as int, ci as int)));
                        }
                    }
                }
                assert(after.valid());
            }
            *self = DataFlowGraph { data, nodes, root_id_map, leaf_id_vec };
            Ok(())
        } else {
            *self = DataFlowGraph { data, nodes, root_id_map, leaf_id_vec };
            Err(Error::MalformedSpec)
        }
    }

    /// Sends one change to the root named `root_string` and runs it through
    /// the graph. The answer holds the messages that are owed to sinks, in
    /// the order in which the leaves were reached. Where no root has the
    /// name, nothing happens. Where an operator fails, the run ends there:
    /// what the operators before it took in stays.
    pub fn change_to_root(&mut self, root_string: &String, change: Change) -> (r: Result<
        Vec<Delivery>,
        Error,
    >)
        ensures
            final(self)@.valid(),
            if old(self)@.roots.contains_key(root_string@) {
                let outcome = old(self)@.submit(
                    old(self)@.roots[root_string@] as int,
                    seq![change@],
                );
                &&& final(self)@ == (GraphModel { nodes: outcome.nodes, ..old(self)@ })
                &&& settles(outcome.nodes, r, outcome)
            } else {
                &&& r == Err::<Vec<Delivery>, Error>(Error::UnknownRoot)
                &&& final(self)@ == old(self)@
            },
    {
        let (data, mut nodes, root_id_map, leaf_id_vec) = self.take();
        let ghost before = old(self)@;
        let found = match root_id_map.get(root_string) {
            Some(index) => Some(*index),
            None => None,
        };
        let r = match found {
            None => Err(Error::UnknownRoot),
            Some(root) => {
                let mut change_vec: Vec<Change> = Vec::new();
                change_vec.push(change);
                assert(change_vec.deep_view() =~= seq![change@]);
                proof {
                    lemma_descendants_bound(before.edges, before.nodes.len(), root as int);
                }
                let answer = propagate(&data, &mut nodes, root, root, change_vec);
                proof {
                    lemma_same_kinds_keep_valid(before, nodes.deep_view());
                    assert(settles(
                        nodes.deep_view(),
                        answer,
                        visit(
                            before.edges,
                            before.nodes,
                            root as int,
                            root as int,
                            seq![change@],
                            before.nodes.len(),
                        ),
                    ));
                }
                answer
            },
        };
        *self = DataFlowGraph { data, nodes, root_id_map, leaf_id_vec };
        r
    }

    /// Attaches the sink `ws` to the leaf at vertex `leaf_index` and hands
    /// back the message that is owed to the sink at once: all the rows of the
    /// view as one insertion. Where the vertex is no leaf, nothing happens.
    pub fn attach(&mut self, leaf_index: usize, ws: usize) -> (r: Option<ServerChange>)
        ensures
            final(self)@.valid(),
            match r {
                Some(message) => {
                    &&& leaf_index < old(self)@.nodes.len()
                    &&& old(self)@.nodes[leaf_index as int] matches OperationModel::Leafor(leaf)
                    &&& is_snapshot(message@, leaf)
                    &&& final(self)@ == (GraphModel {
                        nodes: old(self)@.nodes.update(
                            leaf_index as int,
                            OperationModel::Leafor(
                                LeafModel { sockets: leaf.sockets.push(ws), ..leaf },
                            ),
                        ),
                        ..old(self)@
                    })
                },
                None => {
                    &&& !(leaf_index < old(self)@.nodes.len()
                        && old(self)@.nodes[leaf_index as int] is Leafor)
                    &&& final(self)@ == old(self)@
                },
            },
    {
        let (data, mut nodes, root_id_map, leaf_id_vec) = self.take();
        let ghost before = old(self)@;
        let r = if leaf_index < nodes.len() {
            match &mut nodes[leaf_index] {
                Operation::Leafor(leaf) => Some(leaf.initial_connect(ws)),
                _ => None,
            }
        } else {
            None
        };
        proof {
            if r is Some {
                assert(nodes.deep_view() =~= before.nodes.update(
                    leaf_index as int,
                    nodes.deep_view()[leaf_index as int],
                ));
            } else {
                assert(nodes.deep_view() =~= before.nodes);
            }
            assert(same_kinds(before.nodes, nodes.deep_view()));
            lemma_same_kinds_keep_valid(before, nodes.deep_view());
        }
        *self = DataFlowGraph { data, nodes, root_id_map, leaf_id_vec };
        r
    }

    /// Detaches the sink `ws` from the leaf at vertex `leaf_index`. Where
    /// the vertex is no leaf, nothing happens.
    pub fn detach(&mut self, leaf_index: usize, ws: usize)
        ensures
            final(self)@.valid(),
            if leaf_index < old(self)@.nodes.len()
                && old(self)@.nodes[leaf_index as int] is Leafor {
                let leaf = old(self)@.nodes[leaf_index as int]->Leafor_0;
                final(self)@ == (GraphModel {
                    nodes: old(self)@.nodes.update(
                        leaf_index as int,
                        OperationModel::Leafor(
                            LeafModel { sockets: without(leaf.sockets, ws), ..leaf },
                        ),
                    ),
                    ..old(self)@
                })
            } else {
                final(self)@ == old(self)@
            },
    {
        let (data, mut nodes, root_id_map, leaf_id_vec) = self.take();
        let ghost before = old(self)@;
        if leaf_index < nodes.len() {
            match &mut nodes[leaf_index] {
                Operation::Leafor(leaf) => {
                    leaf.detach(ws);
                },
                _ => {},
            }
        }
        proof {
            if leaf_index < before.nodes.len() && before.nodes[leaf_index as int] is Leafor {
                assert(nodes.deep_view() =~= before.nodes.update(
                    leaf_index as int,
                    nodes.deep_view()[leaf_index as int],
                ));
            } else {
                assert(nodes.deep_view() =~= before.nodes);
            }
            assert(same_kinds(before.nodes, nodes.deep_view()));
            lemma_same_kinds_keep_valid(before, nodes.deep_view());
        }
        *self = DataFlowGraph { data, nodes, root_id_map, leaf_id_vec };
    }

    /// All the rows of the leaf at vertex `leaf_index` as one insertion, as
    /// `attach` would tell them, with no sink attached. `None` where the
    /// vertex is no leaf.
    pub fn snapshot(&self, leaf_index: usize) -> (r: Option<Change>)
        ensures
            match r {
                Some(change) => {
                    &&& leaf_index < self@.nodes.len()
                    &&& self@.nodes[leaf_index as int] matches OperationModel::Leafor(leaf)
                    &&& change@.typing == ChangeType::Insertion
                    &&& change@.batch == self.leaf_rows(leaf_index as int)
                    &&& is_listing(change@.batch, leaf.table)
                },
                None => !(leaf_index < self@.nodes.len() && self@.nodes[leaf_index as int] is Leafor),
            },
    {
        if leaf_index < self.nodes.len() {
            match &self.nodes[leaf_index] {
                Operation::Leafor(leaf) => Some(leaf.snapshot()),
                _ => None,
            }
        } else {
            None
        }
    }

    /// The row under `key` in the leaf at vertex `leaf_index`. `None` where
    /// the vertex is no leaf or the leaf holds no row under the key.
    pub fn read(&self, leaf_index: usize, key: &DataType) -> (r: Option<Row>)
        ensures
            match r {
                Some(row) => {
                    &&& leaf_index < self@.nodes.len()
                    &&& self@.nodes[leaf_index as int] matches OperationModel::Leafor(leaf)
                    &&& leaf.table.contains_key(key@)
                    &&& row@ == leaf.table[key@]
                },
                None => !(leaf_index < self@.nodes.len() && (
                self@.nodes[leaf_index as int] matches OperationModel::Leafor(leaf)
                    && leaf.table.contains_key(key@))),
            },
    {
        if leaf_index < self.nodes.len() {
            match &self.nodes[leaf_index] {
                Operation::Leafor(leaf) => leaf.read(key),
                _ => None,
            }
        } else {
            None
        }
    }

    /// The rows of the leaf at vertex `index` in the order in which the leaf
    /// holds them; no rows where the vertex is no leaf.
    pub closed spec fn leaf_rows(&self, index: int) -> Seq<Seq<Value>> {
        match self.nodes@[index] {
            Operation::Leafor(leaf) => leaf.rows(),
            _ => Seq::empty(),
        }
    }

    /// The text of the first `count` leaves: the rows of each leaf in turn,
    /// each row in the pretty debug format with a space and a line feed
    /// behind it.
    pub open spec fn leaves_text(&self, count: int) -> Seq<char>
        decreases count,
    {
        if count <= 0 {
            Seq::empty()
        } else {
            self.leaves_text(count - 1) + rows_text(
                self.leaf_rows(self@.leaves[count - 1] as int),
            )
        }
    }

    /// The rows of all the leaves as a text.
    pub fn render(&self) -> (s: String)
        ensures
            s@ == self.leaves_text(self@.leaves.len() as int),
    {
        proof {
            use_type_invariant(self);
        }
        let mut s = String::new();
        let mut i: usize = 0;
        while i < self.leaf_id_vec.len()
            invariant
                i <= self.leaf_id_vec@.len(),
                self@.valid(),
                self@.leaves == self.leaf_id_vec@,
                self@.nodes == self.nodes.deep_view(),
                s@ == self.leaves_text(i as int),
            decreases self.leaf_id_vec@.len() - i,
        {
            let index = self.leaf_id_vec[i];
            assert(self@.leaves[i as int] == index);
            assert(index < self.nodes@.len());
            match &self.nodes[index] {
                Operation::Leafor(leaf) => {
                    let text = leaf.render();
                    s.append(text.as_str());
                },
                _ => {
                    assert(rows_text(Seq::<Seq<Value>>::empty()) =~= Seq::<char>::empty());
                },
            }
            i += 1;
        }
        s
    }

    /// The vertices that are leaves, in the order of their addition.
    pub fn leaves(&self) -> (r: Vec<usize>)
        ensures
            r@ == self@.leaves,
    {
        self.leaf_id_vec.clone()
    }

    /// The vertex of the root named `root_string`, if there is one.
    pub fn root_index(&self, root_string: &String) -> (r: Option<usize>)
        ensures
            match r {
                Some(index) => self@.roots.contains_key(root_string@) && index
                    == self@.roots[root_string@],
                None => !self@.roots.contains_key(root_string@),
            },
    {
        match self.root_id_map.get(root_string) {
            Some(index) => Some(*index),
            None => None,
        }
    }

    /// The number of rows of each leaf, in the order of the leaves.
    pub fn leaf_counts(&self) -> (r: Vec<usize>)
        ensures
            r@.len() == self@.leaves.len(),
            forall|i: int|
                0 <= i < r@.len() ==> self@.leaves[i] < self@.nodes.len() && (
                self@.nodes[self@.leaves[i] as int] matches OperationModel::Leafor(leaf) && (
                #[trigger] r@[i]) == leaf.table.dom().len()),
    {
        proof {
            use_type_invariant(self);
        }
        let mut node_vec: Vec<usize> = Vec::new();
        let mut i: usize = 0;
        while i < self.leaf_id_vec.len()
            invariant
                i <= self.leaf_id_vec@.len(),
                self@.valid(),
                self@.leaves == self.leaf_id_vec@,
                self@.nodes == self.nodes.deep_view(),
                node_vec@.len() == i,
                forall|k: int|
                    0 <= k < i ==> (
                    self@.nodes[self@.leaves[k] as int] matches OperationModel::Leafor(leaf)
                        && (#[trigger] node_vec@[k]) == leaf.table.dom().len()),
            decreases self.leaf_id_vec@.len() - i,
        {
            let index = self.leaf_id_vec[i];
            assert(self@.leaves[i as int] == index);
            assert(index < self.nodes@.len());
            assert(self.nodes.deep_view()[index as int] == self.nodes@[index as int]@);
            let count = match &self.nodes[index] {
                Operation::Leafor(leaf) => leaf.row_count(),
                _ => 0,
            };
            node_vec.push(count);
            i += 1;
        }
        node_vec
    }
}

/// Whether the vertex `pi` may feed the vertex `ci`: it may feed every
/// operator but a join, and a join where it is one of the two parents of the
/// join and does not feed it yet.
fn feeds(data: &Graph<(), ()>, nodes: &Vec<Operation>, pi: usize, ci: usize) -> (b: bool)
    requires
        topology_nodes(*data) == nodes@.len(),
        nodes@.len() <= u32::MAX,
        pi < nodes@.len(),
        ci < nodes@.len(),
    ensures
        b == (nodes@[ci as int]@ matches OperationModel::InnerJoinor(m) ==> (pi == m.left_parent || pi
            == m.right_parent) && !topology_edges(*data).contains((pi as int, ci as int))),
{
    match &nodes[ci] {
        Operation::InnerJoinor(join) => {
            if pi != join.left_parent() && pi != join.right_parent() {
                return false;
            }
            let ghost edges = topology_edges(*data);
            let children = topology_neighbors(data, pi);
            let mut i: usize = 0;
            while i < children.len()
                invariant
                    i <= children@.len(),
                    ci < nodes@.len(),
                    nodes@[ci as int]@ is InnerJoinor,
                    edges == topology_edges(*data),
                    children@.len() == successors(edges, pi as int).len(),
                    forall|k: int|
                        0 <= k < children@.len() ==> children@[k] == successors(edges, pi as int)[k],
                    forall|k: int| 0 <= k < i ==> children@[k] != ci,
                decreases children@.len() - i,
            {
                if children[i] == ci {
                    proof {
                        lemma_successor_is_edge(edges, pi as int, i as int);
                    }
                    return false;
                }
                i += 1;
            }
            proof {
                if edges.contains((pi as int, ci as int)) {
                    crate::viewsandgraphs::topology::lemma_edge_is_successor(
                        edges,
                        pi as int,
                        ci as int,
                    );
                    let k = successors(edges, pi as int).index_of(ci as int);
                    assert(children@[k] == ci);
                }
            }
            true
        },
        _ => true,
    }
}

/// Whether the operator is a leaf.
fn is_leaf(op: &Operation) -> (b: bool)
    ensures
        b == (op@ is Leafor),
{
    match op {
        Operation::Leafor(_) => true,
        _ => false,
    }
}

/// Whether the operator is a root.
fn is_root(op: &Operation) -> (b: bool)
    ensures
        b == (op@ is Rootor),
{
    match op {
        Operation::Rootor(_) => true,
        _ => false,
    }
}

} // verus!
