use dataflow::operators::leaf::Leaf;
use dataflow::operators::operation::Operation;
use dataflow::operators::root::Root;
use dataflow::operators::Operator;
use dataflow::types::changetype::ChangeType;
use dataflow::types::datatype::DataType;
use dataflow::types::error::Error;
use dataflow::types::operatortype::OperatorType;
use dataflow::types::permissiontype::PermissionType;
use dataflow::types::schematype::SchemaType;
use dataflow::units::change::Change;
use dataflow::units::row::Row;
use dataflow::units::serverchange::ServerChange;
use dataflow::units::table::mirror;
use dataflow::units::table::render_rows;
use dataflow::units::table::snapshot_rows;
use dataflow::units::table::Table;
use dataflow::viewsandgraphs::serverinfo::ServerInfo;
use dataflow::viewsandgraphs::view::View;

fn text(s: &str) -> DataType {
    DataType::Text(s.to_string())
}

fn row(key: i32, tag: &str) -> Row {
    Row::new(vec![DataType::Int(key), text(tag)])
}

fn ins(rows: Vec<Row>) -> Change {
    Change::new(ChangeType::Insertion, rows)
}

fn del(rows: Vec<Row>) -> Change {
    Change::new(ChangeType::Deletion, rows)
}

#[test]
fn mirror_upserts_and_removes_by_key() {
    let mut t: Table<DataType, Row> = Table::new();
    mirror(
        &mut t,
        0,
        &vec![
            ins(vec![row(1, "a"), row(2, "b"), row(1, "c")]),
            del(vec![row(2, "whatever"), row(9, "missing")]),
            ins(vec![row(3, "d")]),
        ],
    );
    assert_eq!(t.len(), 2);
    assert_eq!(t.get(&DataType::Int(1)), Some(&row(1, "c")));
    assert_eq!(t.get(&DataType::Int(2)), None);
    assert_eq!(t.get(&DataType::Int(3)), Some(&row(3, "d")));
    assert_eq!(snapshot_rows(&t), vec![row(1, "c"), row(3, "d")]);
    assert_eq!(
        render_rows(&t),
        format!("{} \n{} \n", row(1, "c").to_text(), row(3, "d").to_text())
    );
}

#[test]
fn mirror_by_another_key_column() {
    let mut t: Table<DataType, Row> = Table::new();
    mirror(&mut t, 1, &vec![ins(vec![row(1, "a"), row(2, "a"), row(3, "b")])]);
    assert_eq!(t.len(), 2);
    assert_eq!(t.get(&text("a")), Some(&row(2, "a")));
    assert_eq!(t.get(&text("b")), Some(&row(3, "b")));
}

#[test]
fn root_mirrors_and_answers_nothing() {
    let mut root = Root::new("Stories".to_string(), 0);
    assert_eq!(root.root_id(), "Stories");
    let out = root.apply(vec![ins(vec![row(1, "a"), row(2, "b")])]).unwrap();
    assert_eq!(out, vec![]);
    assert_eq!(root.read(&DataType::Int(1)), Some(row(1, "a")));
    assert_eq!(root.read(&DataType::Int(3)), None);
    root.apply(vec![del(vec![row(1, "a")]), del(vec![row(7, "none")])])
        .unwrap();
    assert_eq!(root.read(&DataType::Int(1)), None);
    assert_eq!(root.read(&DataType::Int(2)), Some(row(2, "b")));
}

#[test]
fn root_hands_on_the_changes_as_they_came() {
    let mut root = Root::new("Stories".to_string(), 0);
    let input = vec![
        ins(vec![row(1, "a"), row(1, "b")]),
        del(vec![row(5, "x")]),
        ins(vec![]),
    ];
    let p = root.process_change(input.clone(), 0).unwrap();
    assert_eq!(p.forward, input);
    assert!(p.deliveries.is_empty());
    assert_eq!(root.read(&DataType::Int(1)), Some(row(1, "b")));
}

#[test]
fn root_rejects_a_row_without_the_key_column() {
    let mut root = Root::new("Stories".to_string(), 1);
    root.apply(vec![ins(vec![row(1, "a")])]).unwrap();
    let bad = vec![ins(vec![row(2, "b"), Row::new(vec![DataType::Int(3)])])];
    assert_eq!(root.apply(bad.clone()), Err(Error::RowShapeMismatch));
    assert_eq!(
        root.process_change(bad, 0).err(),
        Some(Error::RowShapeMismatch)
    );
    assert_eq!(root.read(&text("b")), None);
    assert_eq!(root.read(&text("a")), Some(row(1, "a")));
}

#[test]
fn leaf_keeps_the_last_row_of_each_key() {
    let mut leaf = Leaf::new("view".to_string(), 0);
    let out = leaf
        .apply(vec![ins(vec![row(1, "a"), row(2, "b"), row(1, "c")])])
        .unwrap();
    assert_eq!(out, vec![]);
    assert_eq!(leaf.row_count(), 2);
    assert_eq!(leaf.read(&DataType::Int(1)), Some(row(1, "c")));
    assert_eq!(leaf.read(&DataType::Int(2)), Some(row(2, "b")));
}

#[test]
fn leaf_deletes_by_key_whatever_the_row_holds() {
    let mut leaf = Leaf::new("view".to_string(), 0);
    leaf.apply(vec![ins(vec![row(1, "a"), row(2, "b")])]).unwrap();
    leaf.apply(vec![del(vec![row(1, "not a"), row(3, "missing")])])
        .unwrap();
    assert_eq!(leaf.row_count(), 1);
    assert_eq!(leaf.read(&DataType::Int(1)), None);
    assert_eq!(leaf.read(&DataType::Int(2)), Some(row(2, "b")));
}

#[test]
fn leaf_rejects_a_row_without_the_key_column() {
    let mut leaf = Leaf::new("view".to_string(), 2);
    assert_eq!(
        leaf.apply(vec![ins(vec![row(1, "a")])]),
        Err(Error::RowShapeMismatch)
    );
    assert_eq!(leaf.row_count(), 0);
    assert_eq!(
        leaf.process_change(vec![del(vec![row(1, "a")])], 0).err(),
        Some(Error::RowShapeMismatch)
    );
}

#[test]
fn leaf_snapshot_holds_each_row_once() {
    let mut leaf = Leaf::new("view".to_string(), 0);
    leaf.apply(vec![ins(vec![row(1, "r1"), row(2, "r2")])]).unwrap();
    let message = leaf.initial_connect(3);
    assert_eq!(message.root_id, "view");
    assert_eq!(message.changes.len(), 1);
    assert_eq!(message.changes[0].typing, ChangeType::Insertion);
    let batch = &message.changes[0].batch;
    assert_eq!(batch.len(), 2);
    assert!(batch.contains(&row(1, "r1")));
    assert!(batch.contains(&row(2, "r2")));
    assert_eq!(leaf.snapshot(), ins(batch.clone()));
    assert_eq!(leaf.get_ws(0), 3);
}

#[test]
fn leaf_owes_the_changes_to_each_sink_in_the_order_of_attachment() {
    let mut leaf = Leaf::new("Users and VoteCounts".to_string(), 0);
    leaf.initial_connect(8);
    leaf.initial_connect(5);
    leaf.initial_connect(8);
    let input = vec![ins(vec![row(1, "a")]), del(vec![row(2, "b")])];
    let p = leaf.process_change(input.clone(), 77).unwrap();
    assert_eq!(p.forward, vec![]);
    let sinks: Vec<usize> = p.deliveries.iter().map(|d| d.sink).collect();
    assert_eq!(sinks, vec![8, 5, 8]);
    let expected = ServerChange::new("Users and VoteCounts".to_string(), input);
    for d in &p.deliveries {
        assert_eq!(d.message, expected);
    }
    assert_eq!(leaf.read(&DataType::Int(1)), Some(row(1, "a")));
}

#[test]
fn leaf_without_sinks_owes_nothing() {
    let mut leaf = Leaf::new("view".to_string(), 0);
    let p = leaf.process_change(vec![ins(vec![row(1, "a")])], 0).unwrap();
    assert!(p.deliveries.is_empty());
    assert!(p.forward.is_empty());
    assert_eq!(leaf.row_count(), 1);
}

#[test]
fn detach_removes_the_sink_wherever_it_stands() {
    let mut leaf = Leaf::new("view".to_string(), 0);
    for ws in [1, 2, 1, 3] {
        leaf.initial_connect(ws);
    }
    leaf.detach(1);
    let p = leaf.process_change(vec![], 0).unwrap();
    let sinks: Vec<usize> = p.deliveries.iter().map(|d| d.sink).collect();
    assert_eq!(sinks, vec![2, 3]);
    leaf.detach(9);
    assert_eq!(leaf.get_ws(0), 2);
    assert_eq!(leaf.get_ws(1), 3);
}

#[test]
fn leaf_render_lists_the_rows() {
    let mut leaf = Leaf::new("view".to_string(), 0);
    assert_eq!(leaf.render(), "");
    leaf.apply(vec![ins(vec![row(1, "a")])]).unwrap();
    assert_eq!(leaf.render(), format!("{} \n", row(1, "a").to_text()));
}

#[test]
fn operation_routes_to_roots_and_leaves() {
    let mut op = Operation::Rootor(Root::new("r".to_string(), 0));
    assert_eq!(op.kind(), OperatorType::R);
    let input = vec![ins(vec![row(1, "a")])];
    assert_eq!(op.apply(input.clone()).unwrap(), vec![]);
    assert_eq!(op.process_change(input.clone(), 0).unwrap().forward, input);
    let mut leaf = Leaf::new("l".to_string(), 0);
    leaf.initial_connect(4);
    let mut op = Operation::Leafor(leaf);
    assert_eq!(op.kind(), OperatorType::L);
    assert_eq!(op.apply(input.clone()).unwrap(), vec![]);
    let p = op.process_change(input.clone(), 0).unwrap();
    assert_eq!(p.deliveries.len(), 1);
    assert_eq!(p.deliveries[0].sink, 4);
    assert_eq!(p.deliveries[0].message, ServerChange::new("l".to_string(), input));
}

#[test]
fn server_info_keeps_the_last_entry_of_each_path() {
    let mut info = ServerInfo::new();
    assert_eq!(info.subgraph(&"/a".to_string()), None);
    assert_eq!(info.permission(&"/a".to_string()), None);
    info.add_path("/a".to_string(), "graph a".to_string());
    info.add_path("/b".to_string(), "".to_string());
    info.add_path("/a".to_string(), "graph a2".to_string());
    info.add_permission("/a".to_string(), PermissionType::Write);
    info.add_permission("/c".to_string(), PermissionType::Read);
    info.add_permission("/a".to_string(), PermissionType::Read);
    assert_eq!(info.subgraph(&"/a".to_string()), Some("graph a2".to_string()));
    assert_eq!(info.subgraph(&"/b".to_string()), Some("".to_string()));
    assert_eq!(info.subgraph(&"/c".to_string()), None);
    assert_eq!(info.permission(&"/a".to_string()), Some(PermissionType::Read));
    assert_eq!(info.permission(&"/c".to_string()), Some(PermissionType::Read));
    assert_eq!(info.permission(&"/b".to_string()), None);
}

#[test]
fn view_follows_changes_and_renders() {
    let mut view = View::newJSON(
        "Articles".to_string(),
        0,
        vec!["Author".to_string(), "Votes".to_string()],
        vec![SchemaType::Int, SchemaType::Text],
    );
    assert_eq!(view.render(), "ArticlesAuthorVotes");
    view.change_table(vec![ins(vec![row(1, "a"), row(2, "b")]), del(vec![row(1, "a")])])
        .unwrap();
    assert_eq!(view.read(&DataType::Int(1)), None);
    assert_eq!(view.read(&DataType::Int(2)), Some(row(2, "b")));
    assert_eq!(
        view.render(),
        format!("ArticlesAuthorVotes{} \n", row(2, "b").to_text())
    );
    assert_eq!(
        view.change_table(vec![ins(vec![Row::new(vec![])])]),
        Err(Error::RowShapeMismatch)
    );
    assert_eq!(view.read(&DataType::Int(2)), Some(row(2, "b")));
}
