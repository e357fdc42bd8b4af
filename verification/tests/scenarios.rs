use dataflow::operators::aggregation::Aggregation;
use dataflow::operators::innerjoin::InnerJoin;
use dataflow::operators::leaf::Leaf;
use dataflow::operators::Operator;
use dataflow::types::changetype::ChangeType;
use dataflow::types::datatype::DataType;
use dataflow::units::change::Change;
use dataflow::units::row::Row;

fn int_row(values: &[i32]) -> Row {
    Row::new(values.iter().map(|v| DataType::Int(*v)).collect())
}

fn text(s: &str) -> DataType {
    DataType::Text(s.to_string())
}

#[test]
fn aggregation_counts_two_rows_of_one_group() {
    let mut agg = Aggregation::new(vec![0]);
    let input = vec![Change::new(
        ChangeType::Insertion,
        vec![int_row(&[1, 10]), int_row(&[1, 20])],
    )];
    let out = agg.apply(input).unwrap();
    assert_eq!(
        out,
        vec![
            Change::new(ChangeType::Insertion, vec![int_row(&[1, 1])]),
            Change::new(ChangeType::Deletion, vec![int_row(&[1, 1])]),
            Change::new(ChangeType::Insertion, vec![int_row(&[1, 2])]),
        ]
    );
}

#[test]
fn join_pairs_left_row_with_later_right_row() {
    let mut join = InnerJoin::new(vec![0, 1], vec![0, 0]).unwrap();
    let left = vec![Change::new(
        ChangeType::Insertion,
        vec![Row::new(vec![DataType::Int(5), text("L")])],
    )];
    let out = join.apply_join(left, 0).unwrap();
    assert_eq!(out, vec![Change::new(ChangeType::Insertion, vec![])]);
    let right = vec![Change::new(
        ChangeType::Insertion,
        vec![Row::new(vec![DataType::Int(5), text("R")])],
    )];
    let out = join.apply_join(right, 1).unwrap();
    assert_eq!(
        out,
        vec![Change::new(
            ChangeType::Insertion,
            vec![Row::new(vec![text("L"), DataType::Int(5), text("R")])],
        )]
    );
}

#[test]
fn leaf_is_empty_after_insert_and_delete() {
    let mut leaf = Leaf::new("view".to_string(), 0);
    let row = Row::new(vec![DataType::Int(1), text("x")]);
    leaf.apply(vec![Change::new(ChangeType::Insertion, vec![row.clone()])])
        .unwrap();
    leaf.apply(vec![Change::new(ChangeType::Deletion, vec![row])])
        .unwrap();
    assert_eq!(leaf.row_count(), 0);
    let message = leaf.initial_connect(7);
    assert_eq!(message.root_id, "view");
    assert_eq!(
        message.changes,
        vec![Change::new(ChangeType::Insertion, vec![])]
    );
}
