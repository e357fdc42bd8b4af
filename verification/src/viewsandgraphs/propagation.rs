//! The run of a change through the graph.

use vstd::prelude::*;
use petgraph::graph::Graph;
use crate::operators::leaf::Delivery;
use crate::operators::leaf::DeliveryModel;
use crate::operators::operation::lemma_react_keeps_kind;
use crate::operators::operation::same_kind;
use crate::operators::operation::Operation;
use crate::operators::operation::OperationModel;
use crate::operators::Operator;
use crate::operators::PropagationModel;
use crate::types::error::Error;
use crate::units::change::Change;
use crate::units::change::ChangeModel;
use crate::viewsandgraphs::topology::acyclic;
use crate::viewsandgraphs::topology::descendants;
use crate::viewsandgraphs::topology::in_range;
use crate::viewsandgraphs::topology::lemma_descendants_bound;
use crate::viewsandgraphs::topology::lemma_descendants_shrink;
use crate::viewsandgraphs::topology::lemma_reaches_itself;
use crate::viewsandgraphs::topology::lemma_successor_is_edge;
use crate::viewsandgraphs::topology::successors;
use crate::viewsandgraphs::topology::topology_edges;
use crate::viewsandgraphs::topology::topology_neighbors;
use crate::viewsandgraphs::topology::topology_nodes;

verus! {

/// The operators after a change has run its course, and the messages that are
/// owed to sinks, or the reason why the run ended early.
pub struct Outcome {
    pub nodes: Seq<OperationModel>,
    pub result: Result<Seq<DeliveryModel>, Error>,
}

/// `outcome` with `first` put before the messages that it owes.
pub open spec fn after_deliveries(first: Seq<DeliveryModel>, outcome: Outcome) -> Outcome {
    Outcome {
        nodes: outcome.nodes,
        result: match outcome.result {
            Ok(more) => Ok(first + more),
            Err(e) => Err(e),
        },
    }
}

/// What follows when vertex `node` gets `changes` from vertex `parent`: the
/// operator at `node` reacts, and what it hands on goes to each of its
/// children in turn, the child of the newest edge first, each child with all
/// that follows from it before the next. The first failure ends the run;
/// what was done before it stays done. `fuel` bounds the length of the walks
/// that are followed; no walk in an acyclic graph is as long as the number of
/// its vertices.
pub open spec fn visit(
    edges: Seq<(int, int)>,
    nodes: Seq<OperationModel>,
    node: int,
    parent: int,
    changes: Seq<ChangeModel>,
    fuel: nat,
) -> Outcome
    decreases fuel, 0nat,
{
    let (next, reaction) = nodes[node].react(parent, changes);
    let stepped = nodes.update(node, next);
    match reaction {
        Err(e) => Outcome { nodes: stepped, result: Err(e) },
        Ok(p) => if fuel == 0 {
            Outcome { nodes: stepped, result: Ok(p.deliveries) }
        } else {
            after_deliveries(
                p.deliveries,
                fan_out(edges, stepped, node, successors(edges, node), p.forward, (fuel - 1) as nat),
            )
        },
    }
}

/// What follows when each of `children` in turn gets `changes` from vertex
/// `parent`.
pub open spec fn fan_out(
    edges: Seq<(int, int)>,
    nodes: Seq<OperationModel>,
    parent: int,
    children: Seq<int>,
    changes: Seq<ChangeModel>,
    fuel: nat,
) -> Outcome
    decreases fuel, children.len() + 1,
{
    if children.len() == 0 {
        Outcome { nodes, result: Ok(Seq::empty()) }
    } else {
        let first = visit(edges, nodes, children.first(), parent, changes, fuel);
        match first.result {
            Err(e) => first,
            Ok(owed) => after_deliveries(
                owed,
                fan_out(edges, first.nodes, parent, children.drop_first(), changes, fuel),
            ),
        }
    }
}

/// In an acyclic graph the run from a vertex does not depend on the fuel,
/// as long as there is as much fuel as the vertex reaches vertices. The run
/// changes operators and never their number.
pub proof fn lemma_fuel_suffices(
    edges: Seq<(int, int)>,
    nodes: Seq<OperationModel>,
    node: int,
    parent: int,
    changes: Seq<ChangeModel>,
    fuel: nat,
    more: nat,
)
    requires
        in_range(edges, nodes.len()),
        acyclic(edges),
        0 <= node < nodes.len(),
        fuel >= descendants(edges, nodes.len(), node).len(),
        more >= descendants(edges, nodes.len(), node).len(),
    ensures
        visit(edges, nodes, node, parent, changes, fuel) == visit(
            edges,
            nodes,
            node,
            parent,
            changes,
            more,
        ),
        visit(edges, nodes, node, parent, changes, fuel).nodes.len() == nodes.len(),
    decreases descendants(edges, nodes.len(), node).len(), 1int, 0nat,
{
    let n = nodes.len();
    lemma_descendants_bound(edges, n, node);
    lemma_reaches_itself(edges, node);
    assert(descendants(edges, n, node).contains(node));
    vstd::set_lib::lemma_set_empty_equivalency_len(descendants(edges, n, node));
    let (next, reaction) = nodes[node].react(parent, changes);
    let stepped = nodes.update(node, next);
    if reaction is Ok {
        let kids = successors(edges, node);
        assert forall|k: int| 0 <= k < kids.len() implies edges.contains((node, #[trigger] kids[k])) by {
            lemma_successor_is_edge(edges, node, k);
        }
        lemma_fan_out_fuel_suffices(
            edges,
            stepped,
            node,
            kids,
            reaction->Ok_0.forward,
            (fuel - 1) as nat,
            (more - 1) as nat,
        );
    }
}

/// In an acyclic graph the run through the children of a vertex does not
/// depend on the fuel, as long as there is as much fuel as the vertex reaches
/// other vertices.
pub proof fn lemma_fan_out_fuel_suffices(
    edges: Seq<(int, int)>,
    nodes: Seq<OperationModel>,
    parent: int,
    children: Seq<int>,
    changes: Seq<ChangeModel>,
    fuel: nat,
    more: nat,
)
    requires
        in_range(edges, nodes.len()),
        acyclic(edges),
        0 <= parent < nodes.len(),
        forall|k: int| 0 <= k < children.len() ==> edges.contains((parent, #[trigger] children[k])),
        fuel + 1 >= descendants(edges, nodes.len(), parent).len(),
        more + 1 >= descendants(edges, nodes.len(), parent).len(),
    ensures
        fan_out(edges, nodes, parent, children, changes, fuel) == fan_out(
            edges,
            nodes,
            parent,
            children,
            changes,
            more,
        ),
        fan_out(edges, nodes, parent, children, changes, fuel).nodes.len() == nodes.len(),
    decreases descendants(edges, nodes.len(), parent).len(), 0int, children.len(),
{
    if children.len() > 0 {
        let n = nodes.len();
        let child = children.first();
        assert(edges.contains((parent, children[0])));
        let k = edges.index_of((parent, child));
        assert(edges[k] == (parent, child));
        lemma_descendants_shrink(edges, n, parent, child);
        lemma_fuel_suffices(edges, nodes, child, parent, changes, fuel, more);
        let first = visit(edges, nodes, child, parent, changes, fuel);
        if first.result is Ok {
            let rest = children.drop_first();
            assert forall|k: int| 0 <= k < rest.len() implies edges.contains(
                (parent, #[trigger] rest[k]),
            ) by {
                assert(rest[k] == children[k + 1]);
            }
            lemma_fan_out_fuel_suffices(edges, first.nodes, parent, rest, changes, fuel, more);
        }
    }
}

/// The operators and the answer are those of `outcome`.
pub open spec fn settles(
    nodes: Seq<OperationModel>,
    r: Result<Vec<Delivery>, Error>,
    outcome: Outcome,
) -> bool {
    &&& nodes == outcome.nodes
    &&& match (r, outcome.result) {
        (Ok(owed), Ok(expected)) => owed.deep_view() == expected,
        (Err(e), Err(expected)) => e == expected,
        _ => false,
    }
}

/// Every operator is of the kind and name that it had.
pub open spec fn same_kinds(before: Seq<OperationModel>, after: Seq<OperationModel>) -> bool {
    &&& before.len() == after.len()
    &&& forall|i: int| 0 <= i < before.len() ==> same_kind(#[trigger] before[i], after[i])
}

/// A run keeps every operator of its kind and name, however far it gets.
pub proof fn lemma_visit_keeps_kinds(
    edges: Seq<(int, int)>,
    nodes: Seq<OperationModel>,
    node: int,
    parent: int,
    changes: Seq<ChangeModel>,
    fuel: nat,
)
    requires
        in_range(edges, nodes.len()),
        0 <= node < nodes.len(),
    ensures
        same_kinds(nodes, visit(edges, nodes, node, parent, changes, fuel).nodes),
    decreases fuel, 0nat,
{
    let (next, reaction) = nodes[node].react(parent, changes);
    let stepped = nodes.update(node, next);
    lemma_react_keeps_kind(nodes[node], parent, changes);
    assert(same_kinds(nodes, stepped));
    if reaction is Ok && fuel > 0 {
        let kids = successors(edges, node);
        assert forall|k: int| 0 <= k < kids.len() implies 0 <= #[trigger] kids[k] < nodes.len() by {
            lemma_successor_is_edge(edges, node, k);
            let e = edges.index_of((node, kids[k]));
            assert(edges[e] == (node, kids[k]));
        }
        lemma_fan_out_keeps_kinds(
            edges,
            stepped,
            node,
            kids,
            reaction->Ok_0.forward,
            (fuel - 1) as nat,
        );
        let after = fan_out(edges, stepped, node, kids, reaction->Ok_0.forward, (fuel - 1) as nat).nodes;
        lemma_same_kinds_trans(nodes, stepped, after);
    }
}

/// A run through the children of a vertex keeps every operator of its kind
/// and name.
pub proof fn lemma_fan_out_keeps_kinds(
    edges: Seq<(int, int)>,
    nodes: Seq<OperationModel>,
    parent: int,
    children: Seq<int>,
    changes: Seq<ChangeModel>,
    fuel: nat,
)
    requires
        in_range(edges, nodes.len()),
        forall|k: int| 0 <= k < children.len() ==> 0 <= #[trigger] children[k] < nodes.len(),
    ensures
        same_kinds(nodes, fan_out(edges, nodes, parent, children, changes, fuel).nodes),
    decreases fuel, children.len() + 1,
{
    if children.len() > 0 {
        assert(0 <= children[0] < nodes.len());
        lemma_visit_keeps_kinds(edges, nodes, children.first(), parent, changes, fuel);
        let first = visit(edges, nodes, children.first(), parent, changes, fuel);
        if first.result is Ok {
            let rest = children.drop_first();
            assert forall|k: int| 0 <= k < rest.len() implies 0 <= #[trigger] rest[k]
                < first.nodes.len() by {
                assert(rest[k] == children[k + 1]);
            }
            lemma_fan_out_keeps_kinds(edges, first.nodes, parent, rest, changes, fuel);
            lemma_same_kinds_trans(
                nodes,
                first.nodes,
                fan_out(edges, first.nodes, parent, rest, changes, fuel).nodes,
            );
        }
    }
}

/// Operators that keep their kinds twice keep them.
pub proof fn lemma_same_kinds_trans(
    a: Seq<OperationModel>,
    b: Seq<OperationModel>,
    c: Seq<OperationModel>,
)
    requires
        same_kinds(a, b),
        same_kinds(b, c),
    ensures
        same_kinds(a, c),
{
    assert forall|i: int| 0 <= i < a.len() implies same_kind(#[trigger] a[i], c[i]) by {
        assert(same_kind(a[i], b[i]));
        assert(same_kind(b[i], c[i]));
    }
}

/// Runs a change through the operators from vertex `self_index` on.
pub(crate) fn propagate(
    data: &Graph<(), ()>,
    nodes: &mut Vec<Operation>,
    self_index: usize,
    parent_index: usize,
    change: Vec<Change>,
) -> (r: Result<Vec<Delivery>, Error>)
    requires
        topology_nodes(*data) == old(nodes)@.len(),
        old(nodes)@.len() <= u32::MAX,
        in_range(topology_edges(*data), old(nodes)@.len() as nat),
        acyclic(topology_edges(*data)),
        self_index < old(nodes)@.len(),
    ensures
        same_kinds(old(nodes).deep_view(), final(nodes).deep_view()),
        forall|fuel: nat|
            fuel >= descendants(
                topology_edges(*data),
                old(nodes)@.len() as nat,
                self_index as int,
            ).len() ==> settles(
                final(nodes).deep_view(),
                r,
                #[trigger] visit(
                    topology_edges(*data),
                    old(nodes).deep_view(),
                    self_index as int,
                    parent_index as int,
                    change.deep_view(),
                    fuel,
                ),
            ),
    decreases descendants(topology_edges(*data), old(nodes)@.len() as nat, self_index as int).len(),
{
    let ghost edges = topology_edges(*data);
    let ghost n = nodes@.len() as nat;
    let ghost before = nodes.deep_view();
    let ghost changes = change.deep_view();
    let ghost depth = descendants(edges, n, self_index as int).len();
    let ghost (next, reaction) = before[self_index as int].react(parent_index as int, changes);
    let ghost stepped = before.update(self_index as int, next);
    let answer = nodes[self_index].process_change(change, parent_index);
    assert(nodes.deep_view() =~= stepped);
    proof {
        lemma_react_keeps_kind(before[self_index as int], parent_index as int, changes);
    }
    assert(same_kinds(before, stepped));
    let propagation = match answer {
        Err(e) => {
            return Err(e);
        },
        Ok(p) => p,
    };
    let ghost kids = successors(edges, self_index as int);
    let ghost forward = propagation.forward.deep_view();
    let ghost own = propagation.deliveries.deep_view();
    let children = topology_neighbors(data, self_index);
    let mut deliveries = propagation.deliveries;
    let hand = propagation.forward;
    let ghost mut gathered = Seq::<DeliveryModel>::empty();
    let mut i: usize = 0;
    proof {
        lemma_descendants_bound(edges, n, self_index as int);
        vstd::set_lib::lemma_set_empty_equivalency_len(descendants(edges, n, self_index as int));
        lemma_reaches_itself(edges, self_index as int);
        assert(descendants(edges, n, self_index as int).contains(self_index as int));
        assert(depth >= 1);
        assert(kids.skip(0) =~= kids);
        assert(own + gathered =~= own);
        assert forall|f: nat| f + 1 >= depth implies #[trigger] fan_out(
            edges,
            stepped,
            self_index as int,
            kids,
            forward,
            f,
        ) == after_deliveries(
            gathered,
            fan_out(edges, stepped, self_index as int, kids.skip(0), forward, f),
        ) by {
            let o = fan_out(edges, stepped, self_index as int, kids, forward, f);
            if o.result is Ok {
                assert(gathered + o.result->Ok_0 =~= o.result->Ok_0);
            }
        }
    }
    while i < children.len()
        invariant
            i <= children@.len(),
            edges == topology_edges(*data),
            n == nodes@.len(),
            n == old(nodes)@.len(),
            topology_nodes(*data) == n,
            n <= u32::MAX,
            in_range(edges, n),
            acyclic(edges),
            self_index < n,
            before == old(nodes).deep_view(),
            changes == change.deep_view(),
            depth == descendants(edges, n, self_index as int).len(),
            depth >= 1,
            kids == successors(edges, self_index as int),
            children@.len() == kids.len(),
            forall|k: int| 0 <= k < children@.len() ==> children@[k] == kids[k],
            forward == hand.deep_view(),
            deliveries.deep_view() == own + gathered,
            same_kinds(before, nodes.deep_view()),
            (next, reaction) == before[self_index as int].react(parent_index as int, changes),
            reaction == Ok::<PropagationModel, Error>(
                PropagationModel { forward, deliveries: own },
            ),
            stepped == before.update(self_index as int, next),
            forall|f: nat|
                f + 1 >= depth ==> #[trigger] fan_out(
                    edges,
                    stepped,
                    self_index as int,
                    kids,
                    forward,
                    f,
                ) == after_deliveries(
                    gathered,
                    fan_out(
                        edges,
                        nodes.deep_view(),
                        self_index as int,
                        kids.skip(i as int),
                        forward,
                        f,
                    ),
                ),
        decreases children@.len() - i,
    {
        let child = children[i];
        let ghost entered = nodes.deep_view();
        let ghost rest = kids.skip(i as int);
        proof {
            lemma_successor_is_edge(edges, self_index as int, i as int);
            lemma_descendants_shrink(edges, n, self_index as int, child as int);
            let k = edges.index_of((self_index as int, child as int));
            assert(edges[k] == (self_index as int, child as int));
            assert(rest.first() == child);
            assert(rest.drop_first() =~= kids.skip(i + 1));
        }
        let copy = hand.clone();
        assert(copy.deep_view() =~= forward);
        let answer = propagate(data, nodes, child, self_index, copy);
        proof {
            assert forall|f: nat| f + 1 >= depth implies settles(
                nodes.deep_view(),
                answer,
                visit(edges, entered, child as int, self_index as int, forward, f),
            ) by {
                assert(f >= descendants(edges, n, child as int).len());
            }
        }
        match answer {
            Err(e) => {
                proof {
                    assert forall|fuel: nat| fuel >= depth implies settles(
                        nodes.deep_view(),
                        Err::<Vec<Delivery>, Error>(e),
                        #[trigger] visit(
                            edges,
                            before,
                            self_index as int,
                            parent_index as int,
                            changes,
                            fuel,
                        ),
                    ) by {
                        let f = (fuel - 1) as nat;
                        assert(f + 1 >= depth);
                        let first = visit(edges, entered, child as int, self_index as int, forward, f);
                        assert(settles(nodes.deep_view(), answer, first));
                        assert(fan_out(edges, entered, self_index as int, rest, forward, f) == first);
                        let whole = fan_out(edges, stepped, self_index as int, kids, forward, f);
                        assert(whole == after_deliveries(gathered, first));
                    }
                }
                return Err(e);
            },
            Ok(more) => {
                let mut more = more;
                let ghost owed = more.deep_view();
                let ghost held = deliveries.deep_view();
                deliveries.append(&mut more);
                proof {
                    assert(deliveries.deep_view() =~= held + owed);
                    assert(own + (gathered + owed) =~= (own + gathered) + owed);
                    assert forall|f: nat| f + 1 >= depth implies #[trigger] fan_out(
                        edges,
                        stepped,
                        self_index as int,
                        kids,
                        forward,
                        f,
                    ) == after_deliveries(
                        gathered + owed,
                        fan_out(
                            edges,
                            nodes.deep_view(),
                            self_index as int,
                            kids.skip(i + 1),
                            forward,
                            f,
                        ),
                    ) by {
                        let first = visit(edges, entered, child as int, self_index as int, forward, f);
                        assert(settles(nodes.deep_view(), answer, first));
                        let tail = fan_out(
                            edges,
                            nodes.deep_view(),
                            self_index as int,
                            kids.skip(i + 1),
                            forward,
                            f,
                        );
                        assert(fan_out(edges, entered, self_index as int, rest, forward, f)
                            == after_deliveries(owed, tail));
                        if tail.result is Ok {
                            assert(gathered + (owed + tail.result->Ok_0) =~= (gathered + owed)
                                + tail.result->Ok_0);
                        }
                    }
                    gathered = gathered + owed;
                }
            },
        }
        i += 1;
    }
    proof {
        assert(kids.skip(i as int) =~= Seq::<int>::empty());
        assert(gathered + Seq::<DeliveryModel>::empty() =~= gathered);
        assert forall|fuel: nat| fuel >= depth implies settles(
            nodes.deep_view(),
            Ok::<Vec<Delivery>, Error>(deliveries),
            #[trigger] visit(edges, before, self_index as int, parent_index as int, changes, fuel),
        ) by {
            let f = (fuel - 1) as nat;
            assert(f + 1 >= depth);
            let whole = fan_out(edges, stepped, self_index as int, kids, forward, f);
            assert(whole == Outcome {
                nodes: nodes.deep_view(),
                result: Ok::<Seq<DeliveryModel>, Error>(gathered),
            });
        }
    }
    Ok(deliveries)
}

} // verus!
