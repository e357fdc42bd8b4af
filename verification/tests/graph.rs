use dataflow::operators::aggregation::Aggregation;
use dataflow::operators::innerjoin::InnerJoin;
use dataflow::operators::leaf::Delivery;
use dataflow::operators::leaf::Leaf;
use dataflow::operators::operation::Operation;
use dataflow::operators::projection::Projection;
use dataflow::operators::root::Root;
use dataflow::operators::selection::Selection;
use dataflow::types::changetype::ChangeType;
use dataflow::types::datatype::DataType;
use dataflow::types::error::Error;
use dataflow::units::change::Change;
use dataflow::units::row::Row;
use dataflow::units::serverchange::ServerChange;
use dataflow::viewsandgraphs::dfg::DataFlowGraph;

fn text(s: &str) -> DataType {
    DataType::Text(s.to_string())
}

fn row(key: i32, tag: &str) -> Row {
    Row::new(vec![DataType::Int(key), text(tag)])
}

fn ins(rows: Vec<Row>) -> Change {
    Change::new(ChangeType::Insertion, rows)
}

fn del(rows: Vec<Row>) -> Change {
    Change::new(ChangeType::Deletion, rows)
}

fn root(name: &str) -> Operation {
    Operation::Rootor(Root::new(name.to_string(), 0))
}

fn sinks(deliveries: &Vec<Delivery>) -> Vec<usize> {
    deliveries.iter().map(|d| d.sink).collect()
}

#[test]
fn a_new_graph_is_empty() {
    let g = DataFlowGraph::new();
    assert_eq!(g.node_count(), 0);
    assert_eq!(g.edge_count(), 0);
    assert_eq!(g.leaves(), vec![]);
    assert_eq!(g.leaf_counts(), vec![]);
    assert_eq!(g.render(), "");
    assert_eq!(g.root_index(&"r".to_string()), None);
}

#[test]
fn vertices_are_numbered_in_the_order_of_their_addition() {
    let mut g = DataFlowGraph::new();
    assert_eq!(g.add_node(root("a")), Ok(0));
    assert_eq!(g.add_node(Operation::Selector(Selection::new(0, DataType::Null))), Ok(1));
    assert_eq!(g.add_leaf("view".to_string(), 0), 2);
    assert_eq!(g.add_node(root("b")), Ok(3));
    assert_eq!(g.add_node(Operation::Leafor(Leaf::new("other".to_string(), 1))), Ok(4));
    assert_eq!(g.node_count(), 5);
    assert_eq!(g.edge_count(), 0);
    assert_eq!(g.leaves(), vec![2, 4]);
    assert_eq!(g.root_index(&"a".to_string()), Some(0));
    assert_eq!(g.root_index(&"b".to_string()), Some(3));
    assert_eq!(g.root_index(&"view".to_string()), None);
}

#[test]
fn a_second_root_of_one_name_is_turned_down() {
    let mut g = DataFlowGraph::new();
    assert_eq!(g.add_node(root("a")), Ok(0));
    assert_eq!(g.add_node(root("a")), Err(Error::MalformedSpec));
    assert_eq!(g.node_count(), 1);
    assert_eq!(g.root_index(&"a".to_string()), Some(0));
    assert_eq!(g.add_node(root("A")), Ok(1));
}

#[test]
fn edges_are_counted() {
    let mut g = DataFlowGraph::new();
    g.add_node(root("a")).unwrap();
    g.add_leaf("v".to_string(), 0);
    g.add_leaf("w".to_string(), 0);
    assert_eq!(g.add_edge(0, 1), Ok(()));
    assert_eq!(g.add_edge(0, 2), Ok(()));
    assert_eq!(g.add_edge(0, 1), Ok(()));
    assert_eq!(g.edge_count(), 3);
    assert_eq!(g.node_count(), 3);
}

#[test]
fn an_edge_needs_two_vertices() {
    let mut g = DataFlowGraph::new();
    g.add_node(root("a")).unwrap();
    g.add_leaf("v".to_string(), 0);
    assert_eq!(g.add_edge(0, 2), Err(Error::MalformedSpec));
    assert_eq!(g.add_edge(2, 1), Err(Error::MalformedSpec));
    assert_eq!(g.add_edge(usize::MAX, 1), Err(Error::MalformedSpec));
    assert_eq!(g.edge_count(), 0);
}

#[test]
fn no_edge_leaves_a_leaf_or_enters_a_root() {
    let mut g = DataFlowGraph::new();
    g.add_node(root("a")).unwrap();
    g.add_node(root("b")).unwrap();
    g.add_leaf("v".to_string(), 0);
    g.add_node(Operation::Projector(Projection::new(vec![0]))).unwrap();
    assert_eq!(g.add_edge(0, 1), Err(Error::MalformedSpec));
    assert_eq!(g.add_edge(3, 0), Err(Error::MalformedSpec));
    assert_eq!(g.add_edge(2, 3), Err(Error::MalformedSpec));
    assert_eq!(g.edge_count(), 0);
    assert_eq!(g.add_edge(0, 3), Ok(()));
    assert_eq!(g.add_edge(3, 2), Ok(()));
    assert_eq!(g.add_edge(1, 2), Ok(()));
    assert_eq!(g.edge_count(), 3);
}

#[test]
fn a_join_is_fed_by_its_two_parents_and_by_each_once() {
    let mut g = DataFlowGraph::new();
    g.add_node(root("a")).unwrap();
    g.add_node(root("b")).unwrap();
    g.add_node(root("c")).unwrap();
    g.add_node(Operation::InnerJoinor(InnerJoin::new(vec![0, 1], vec![0, 0]).unwrap()))
        .unwrap();
    assert_eq!(g.add_edge(2, 3), Err(Error::MalformedSpec));
    assert_eq!(g.add_edge(0, 3), Ok(()));
    assert_eq!(g.add_edge(0, 3), Err(Error::MalformedSpec));
    assert_eq!(g.add_edge(1, 3), Ok(()));
    assert_eq!(g.add_edge(1, 3), Err(Error::MalformedSpec));
    assert_eq!(g.edge_count(), 2);
}

#[test]
fn no_edge_closes_a_walk() {
    let mut g = DataFlowGraph::new();
    for _ in 0..4 {
        g.add_node(Operation::Projector(Projection::new(vec![0]))).unwrap();
    }
    assert_eq!(g.add_edge(0, 0), Err(Error::MalformedSpec));
    assert_eq!(g.add_edge(0, 1), Ok(()));
    assert_eq!(g.add_edge(1, 2), Ok(()));
    assert_eq!(g.add_edge(1, 0), Err(Error::MalformedSpec));
    assert_eq!(g.add_edge(2, 0), Err(Error::MalformedSpec));
    assert_eq!(g.add_edge(2, 1), Err(Error::MalformedSpec));
    assert_eq!(g.add_edge(0, 2), Ok(()));
    assert_eq!(g.add_edge(3, 0), Ok(()));
    assert_eq!(g.add_edge(2, 3), Err(Error::MalformedSpec));
    assert_eq!(g.edge_count(), 4);
}

#[test]
fn a_change_runs_from_the_root_to_the_leaf() {
    let mut g = DataFlowGraph::new();
    g.add_node(root("Only")).unwrap();
    g.add_leaf("OnlyView".to_string(), 0);
    g.add_edge(0, 1).unwrap();
    assert!(g.attach(1, 42).is_some());
    let change = ins(vec![row(1, "a"), row(2, "b")]);
    let out = g.change_to_root(&"Only".to_string(), change.clone()).unwrap();
    assert_eq!(out.len(), 1);
    assert_eq!(out[0].sink, 42);
    assert_eq!(
        out[0].message,
        ServerChange::new("OnlyView".to_string(), vec![change])
    );
    assert_eq!(g.leaf_counts(), vec![2]);
    assert_eq!(g.read(1, &DataType::Int(2)), Some(row(2, "b")));
    assert_eq!(g.read(1, &DataType::Int(3)), None);
    assert_eq!(g.read(0, &DataType::Int(2)), None);
    assert_eq!(g.read(9, &DataType::Int(2)), None);
}

#[test]
fn an_unknown_root_is_reported_and_nothing_happens() {
    let mut g = DataFlowGraph::new();
    g.add_node(root("Only")).unwrap();
    g.add_leaf("v".to_string(), 0);
    g.add_edge(0, 1).unwrap();
    let result = g.change_to_root(&"Other".to_string(), ins(vec![row(1, "a")]));
    assert_eq!(result.err(), Some(Error::UnknownRoot));
    assert_eq!(g.leaf_counts(), vec![0]);
    let result = g.change_to_root(&"v".to_string(), ins(vec![row(1, "a")]));
    assert_eq!(result.err(), Some(Error::UnknownRoot));
}

#[test]
fn the_child_of_the_newest_edge_comes_first() {
    let mut g = DataFlowGraph::new();
    g.add_node(root("r")).unwrap();
    g.add_leaf("first".to_string(), 0);
    g.add_leaf("second".to_string(), 0);
    g.add_leaf("third".to_string(), 0);
    g.add_edge(0, 1).unwrap();
    g.add_edge(0, 2).unwrap();
    g.add_edge(0, 3).unwrap();
    g.attach(1, 100);
    g.attach(2, 200);
    g.attach(3, 300);
    let out = g.change_to_root(&"r".to_string(), ins(vec![row(1, "a")])).unwrap();
    assert_eq!(sinks(&out), vec![300, 200, 100]);
    let names: Vec<String> = out.iter().map(|d| d.message.root_id.clone()).collect();
    assert_eq!(names, vec!["third", "second", "first"]);
}

#[test]
fn a_parallel_edge_delivers_twice() {
    let mut g = DataFlowGraph::new();
    g.add_node(root("r")).unwrap();
    g.add_leaf("v".to_string(), 0);
    g.add_edge(0, 1).unwrap();
    g.add_edge(0, 1).unwrap();
    g.attach(1, 5);
    let out = g.change_to_root(&"r".to_string(), ins(vec![row(1, "a")])).unwrap();
    assert_eq!(sinks(&out), vec![5, 5]);
    assert_eq!(g.leaf_counts(), vec![1]);
}

#[test]
fn a_selection_and_a_projection_on_the_way() {
    let mut g = DataFlowGraph::new();
    g.add_node(root("r")).unwrap();
    g.add_node(Operation::Selector(Selection::new(1, text("keep")))).unwrap();
    g.add_node(Operation::Projector(Projection::new(vec![1, 0]))).unwrap();
    g.add_leaf("v".to_string(), 1);
    g.add_edge(0, 1).unwrap();
    g.add_edge(1, 2).unwrap();
    g.add_edge(2, 3).unwrap();
    g.attach(3, 1);
    let out = g
        .change_to_root(
            &"r".to_string(),
            ins(vec![row(1, "keep"), row(2, "drop"), row(3, "keep")]),
        )
        .unwrap();
    let expected = ins(vec![
        Row::new(vec![text("keep"), DataType::Int(1)]),
        Row::new(vec![text("keep"), DataType::Int(3)]),
    ]);
    assert_eq!(out.len(), 1);
    assert_eq!(out[0].message.changes, vec![expected]);
    assert_eq!(g.leaf_counts(), vec![2]);
    let out = g.change_to_root(&"r".to_string(), del(vec![row(2, "drop")])).unwrap();
    assert_eq!(out[0].message.changes, vec![del(vec![])]);
}

#[test]
fn a_join_of_two_roots_feeds_a_leaf() {
    let mut g = DataFlowGraph::new();
    g.add_node(root("JoinLeft")).unwrap();
    g.add_node(root("JoinRight")).unwrap();
    g.add_node(Operation::InnerJoinor(InnerJoin::new(vec![0, 1], vec![1, 0]).unwrap()))
        .unwrap();
    g.add_leaf("Users and VoteCounts".to_string(), 1);
    g.add_edge(0, 2).unwrap();
    g.add_edge(1, 2).unwrap();
    g.add_edge(2, 3).unwrap();
    g.attach(3, 9);
    let left = Row::new(vec![DataType::Int(10), DataType::Int(77)]);
    let right = Row::new(vec![DataType::Int(77), DataType::Int(3)]);
    let out = g.change_to_root(&"JoinLeft".to_string(), ins(vec![left])).unwrap();
    assert_eq!(out.len(), 1);
    assert_eq!(out[0].message.changes, vec![ins(vec![])]);
    assert_eq!(g.leaf_counts(), vec![0]);
    let out = g.change_to_root(&"JoinRight".to_string(), ins(vec![right])).unwrap();
    let joined = Row::new(vec![DataType::Int(10), DataType::Int(77), DataType::Int(3)]);
    assert_eq!(out[0].message.changes, vec![ins(vec![joined.clone()])]);
    assert_eq!(out[0].message.root_id, "Users and VoteCounts");
    assert_eq!(g.read(3, &DataType::Int(77)), Some(joined));
    assert_eq!(g.snapshot(3).unwrap().batch.len(), 1);
}

#[test]
fn an_aggregation_feeds_a_leaf_by_retract_and_insert() {
    let mut g = DataFlowGraph::new();
    g.add_node(root("Votes")).unwrap();
    g.add_node(Operation::Aggregator(Aggregation::new(vec![1]))).unwrap();
    g.add_leaf("counts".to_string(), 0);
    g.add_edge(0, 1).unwrap();
    g.add_edge(1, 2).unwrap();
    g.change_to_root(&"Votes".to_string(), ins(vec![row(1, "x"), row(2, "x"), row(3, "y")]))
        .unwrap();
    assert_eq!(g.leaf_counts(), vec![2]);
    assert_eq!(
        g.read(2, &text("x")),
        Some(Row::new(vec![text("x"), DataType::Int(2)]))
    );
    assert_eq!(
        g.read(2, &text("y")),
        Some(Row::new(vec![text("y"), DataType::Int(1)]))
    );
    g.change_to_root(&"Votes".to_string(), del(vec![row(3, "y")])).unwrap();
    assert_eq!(g.read(2, &text("y")), None);
    assert_eq!(g.leaf_counts(), vec![1]);
}

#[test]
fn a_failure_ends_the_run_and_keeps_what_was_done() {
    let mut g = DataFlowGraph::new();
    g.add_node(root("r")).unwrap();
    g.add_leaf("wide".to_string(), 5);
    g.add_leaf("fine".to_string(), 0);
    g.add_leaf("late".to_string(), 0);
    g.add_edge(0, 3).unwrap();
    g.add_edge(0, 1).unwrap();
    g.add_edge(0, 2).unwrap();
    g.attach(2, 7);
    let result = g.change_to_root(&"r".to_string(), ins(vec![row(1, "a")]));
    assert_eq!(result.err(), Some(Error::RowShapeMismatch));
    assert_eq!(g.leaf_counts(), vec![0, 1, 0]);
    let result = g.change_to_root(&"r".to_string(), ins(vec![Row::new(vec![])]));
    assert_eq!(result.err(), Some(Error::RowShapeMismatch));
    assert_eq!(g.leaf_counts(), vec![0, 1, 0]);
}

#[test]
fn a_diamond_reaches_its_leaf_along_both_walks() {
    let mut g = DataFlowGraph::new();
    g.add_node(root("r")).unwrap();
    g.add_node(Operation::Selector(Selection::new(1, text("a")))).unwrap();
    g.add_node(Operation::Selector(Selection::new(1, text("b")))).unwrap();
    g.add_leaf("v".to_string(), 0);
    g.add_edge(0, 1).unwrap();
    g.add_edge(0, 2).unwrap();
    g.add_edge(1, 3).unwrap();
    g.add_edge(2, 3).unwrap();
    g.attach(3, 1);
    let out = g
        .change_to_root(&"r".to_string(), ins(vec![row(1, "a"), row(2, "b"), row(3, "c")]))
        .unwrap();
    assert_eq!(out.len(), 2);
    assert_eq!(out[0].message.changes, vec![ins(vec![row(2, "b")])]);
    assert_eq!(out[1].message.changes, vec![ins(vec![row(1, "a")])]);
    assert_eq!(g.leaf_counts(), vec![2]);
}

#[test]
fn attach_tells_the_rows_and_later_changes_follow() {
    let mut g = DataFlowGraph::new();
    g.add_node(root("r")).unwrap();
    g.add_leaf("v".to_string(), 0);
    g.add_edge(0, 1).unwrap();
    g.change_to_root(&"r".to_string(), ins(vec![row(1, "a"), row(2, "b")])).unwrap();
    let message = g.attach(1, 11).unwrap();
    assert_eq!(message.root_id, "v");
    assert_eq!(message.changes.len(), 1);
    assert_eq!(message.changes[0].typing, ChangeType::Insertion);
    assert_eq!(message.changes[0].batch.len(), 2);
    assert!(message.changes[0].batch.contains(&row(1, "a")));
    assert!(message.changes[0].batch.contains(&row(2, "b")));
    assert_eq!(g.snapshot(1), Some(message.changes[0].clone()));
    assert!(g.attach(0, 11).is_none());
    assert!(g.attach(5, 11).is_none());
    assert_eq!(g.snapshot(0), None);
    assert_eq!(g.snapshot(5), None);
    let out = g.change_to_root(&"r".to_string(), del(vec![row(1, "a")])).unwrap();
    assert_eq!(sinks(&out), vec![11]);
    g.detach(1, 11);
    g.detach(0, 11);
    g.detach(8, 11);
    let out = g.change_to_root(&"r".to_string(), del(vec![row(2, "b")])).unwrap();
    assert!(out.is_empty());
    assert_eq!(
        g.snapshot(1),
        Some(Change::new(ChangeType::Insertion, vec![]))
    );
}

#[test]
fn render_lists_the_rows_of_every_leaf() {
    let mut g = DataFlowGraph::new();
    g.add_node(root("r")).unwrap();
    g.add_leaf("v".to_string(), 0);
    g.add_leaf("w".to_string(), 1);
    g.add_edge(0, 1).unwrap();
    g.add_edge(0, 2).unwrap();
    g.change_to_root(&"r".to_string(), ins(vec![row(1, "a")])).unwrap();
    let one = format!("{} \n", row(1, "a").to_text());
    assert_eq!(g.render(), format!("{}{}", one, one));
}

#[test]
fn a_graph_is_assembled_from_operators_and_edges() {
    let operators = vec![
        root("JoinLeft"),
        root("JoinRight"),
        Operation::InnerJoinor(InnerJoin::new(vec![0, 1], vec![1, 0]).unwrap()),
        Operation::Leafor(Leaf::new("view".to_string(), 1)),
    ];
    let mut g = DataFlowGraph::assemble(operators, vec![(0, 2), (1, 2), (2, 3)]).unwrap();
    assert_eq!(g.node_count(), 4);
    assert_eq!(g.edge_count(), 3);
    assert_eq!(g.leaves(), vec![3]);
    assert_eq!(g.root_index(&"JoinRight".to_string()), Some(1));
    g.change_to_root(
        &"JoinLeft".to_string(),
        ins(vec![Row::new(vec![text("l"), DataType::Int(4)])]),
    )
    .unwrap();
    g.change_to_root(&"JoinRight".to_string(), ins(vec![row(4, "r")])).unwrap();
    assert_eq!(
        g.read(3, &DataType::Int(4)),
        Some(Row::new(vec![text("l"), DataType::Int(4), text("r")]))
    );
    let empty = DataFlowGraph::assemble(vec![], vec![]).unwrap();
    assert_eq!(empty.node_count(), 0);
}

#[test]
fn a_description_that_does_not_hold_together_is_turned_down() {
    let two_of_one_name = DataFlowGraph::assemble(vec![root("a"), root("a")], vec![]);
    assert_eq!(two_of_one_name.err(), Some(Error::MalformedSpec));
    let into_a_root = DataFlowGraph::assemble(vec![root("a"), root("b")], vec![(0, 1)]);
    assert_eq!(into_a_root.err(), Some(Error::MalformedSpec));
    let no_such_vertex = DataFlowGraph::assemble(vec![root("a")], vec![(0, 1)]);
    assert_eq!(no_such_vertex.err(), Some(Error::MalformedSpec));
    let around = DataFlowGraph::assemble(
        vec![
            Operation::Projector(Projection::new(vec![0])),
            Operation::Projector(Projection::new(vec![0])),
        ],
        vec![(0, 1), (1, 0)],
    );
    assert_eq!(around.err(), Some(Error::MalformedSpec));
}
