use dataflow::operators::innerjoin::first_occurrence;
use dataflow::operators::innerjoin::merge_rows;
use dataflow::operators::innerjoin::InnerJoin;
use dataflow::operators::innerjoin::Side;
use dataflow::operators::operation::Operation;
use dataflow::operators::Operator;
use dataflow::types::changetype::ChangeType;
use dataflow::types::datatype::DataType;
use dataflow::types::error::Error;
use dataflow::types::operatortype::OperatorType;
use dataflow::units::change::Change;
use dataflow::units::row::Row;

fn text(s: &str) -> DataType {
    DataType::Text(s.to_string())
}

fn row(values: Vec<DataType>) -> Row {
    Row::new(values)
}

fn ins(rows: Vec<Row>) -> Change {
    Change::new(ChangeType::Insertion, rows)
}

fn del(rows: Vec<Row>) -> Change {
    Change::new(ChangeType::Deletion, rows)
}

fn left(key: i32, tag: &str) -> Row {
    row(vec![text(tag), DataType::Int(key)])
}

fn right(key: i32, tag: &str) -> Row {
    row(vec![DataType::Int(key), text(tag)])
}

fn joined(l: &str, key: i32, r: &str) -> Row {
    row(vec![text(l), DataType::Int(key), text(r)])
}

/// A join of the vertices 10 (left, join column 1) and 20 (right, join
/// column 0).
fn join() -> InnerJoin {
    InnerJoin::new(vec![10, 20], vec![1, 0]).unwrap()
}

#[test]
fn new_needs_two_distinct_parents_and_two_columns() {
    assert!(InnerJoin::new(vec![0, 1], vec![0, 0]).is_ok());
    assert_eq!(InnerJoin::new(vec![0], vec![0, 0]).err(), Some(Error::MalformedSpec));
    assert_eq!(InnerJoin::new(vec![0, 1, 2], vec![0, 0]).err(), Some(Error::MalformedSpec));
    assert_eq!(InnerJoin::new(vec![0, 1], vec![0]).err(), Some(Error::MalformedSpec));
    assert_eq!(InnerJoin::new(vec![0, 1], vec![]).err(), Some(Error::MalformedSpec));
    assert_eq!(InnerJoin::new(vec![3, 3], vec![0, 0]).err(), Some(Error::MalformedSpec));
    let j = join();
    assert_eq!(j.left_parent(), 10);
    assert_eq!(j.right_parent(), 20);
}

#[test]
fn merge_drops_the_left_join_column_and_keeps_the_right_row() {
    let l = row(vec![DataType::Int(1), text("a"), text("b")]);
    let r = row(vec![text("x"), DataType::Int(1)]);
    assert_eq!(
        merge_rows(&l, &r, 0),
        row(vec![text("a"), text("b"), text("x"), DataType::Int(1)])
    );
    assert_eq!(
        merge_rows(&l, &r, 2),
        row(vec![DataType::Int(1), text("a"), text("x"), DataType::Int(1)])
    );
    assert_eq!(merge_rows(&row(vec![DataType::Null]), &row(vec![]), 0), row(vec![]));
}

#[test]
fn first_occurrence_finds_the_first_equal_row() {
    let rows = vec![left(1, "a"), left(1, "b"), left(1, "a")];
    assert_eq!(first_occurrence(&rows, &left(1, "a")), Some(0));
    assert_eq!(first_occurrence(&rows, &left(1, "b")), Some(1));
    assert_eq!(first_occurrence(&rows, &left(2, "a")), None);
    assert_eq!(first_occurrence(&vec![], &left(1, "a")), None);
}

#[test]
fn an_insertion_without_a_match_yields_an_empty_insertion() {
    let mut j = join();
    let out = j.apply_join(vec![ins(vec![left(5, "L")])], 10).unwrap();
    assert_eq!(out, vec![ins(vec![])]);
    assert_eq!(j.live(Side::Left, &DataType::Int(5)), vec![left(5, "L")]);
    assert_eq!(j.live(Side::Right, &DataType::Int(5)), vec![]);
}

#[test]
fn a_right_insertion_pairs_with_every_live_left_row_in_their_order() {
    let mut j = join();
    j.apply_join(
        vec![ins(vec![left(5, "a"), left(6, "other"), left(5, "b")])],
        10,
    )
    .unwrap();
    let out = j.apply_join(vec![ins(vec![right(5, "R")])], 20).unwrap();
    assert_eq!(out, vec![ins(vec![joined("a", 5, "R"), joined("b", 5, "R")])]);
}

#[test]
fn a_left_insertion_pairs_with_every_live_right_row_in_their_order() {
    let mut j = join();
    j.apply_join(vec![ins(vec![right(5, "x"), right(5, "y")])], 20)
        .unwrap();
    let out = j
        .apply_join(vec![ins(vec![left(5, "a"), left(7, "none")])], 10)
        .unwrap();
    assert_eq!(out, vec![ins(vec![joined("a", 5, "x"), joined("a", 5, "y")])]);
}

#[test]
fn the_left_row_loses_its_join_column_whichever_side_brings_the_change() {
    let mut a = InnerJoin::new(vec![0, 1], vec![0, 1]).unwrap();
    let l = row(vec![DataType::Int(1), text("left")]);
    let r = row(vec![text("right"), DataType::Int(1)]);
    a.apply_join(vec![ins(vec![l.clone()])], 0).unwrap();
    let from_right = a.apply_join(vec![ins(vec![r.clone()])], 1).unwrap();
    let mut b = InnerJoin::new(vec![0, 1], vec![0, 1]).unwrap();
    b.apply_join(vec![ins(vec![r])], 1).unwrap();
    let from_left = b.apply_join(vec![ins(vec![l])], 0).unwrap();
    let expected = vec![ins(vec![row(vec![
        text("left"),
        text("right"),
        DataType::Int(1),
    ])])];
    assert_eq!(from_right, expected);
    assert_eq!(from_left, expected);
}

#[test]
fn every_vertex_but_the_left_parent_is_the_right_side() {
    let mut j = join();
    j.apply_join(vec![ins(vec![right(5, "x")])], 999).unwrap();
    assert_eq!(j.live(Side::Right, &DataType::Int(5)), vec![right(5, "x")]);
    assert_eq!(j.live(Side::Left, &DataType::Int(5)), vec![]);
}

#[test]
fn a_deletion_takes_out_the_first_equal_row_and_yields_its_pairs() {
    let mut j = join();
    j.apply_join(vec![ins(vec![left(5, "a"), left(5, "b"), left(5, "a")])], 10)
        .unwrap();
    j.apply_join(vec![ins(vec![right(5, "x")])], 20).unwrap();
    let out = j.apply_join(vec![del(vec![left(5, "a")])], 10).unwrap();
    assert_eq!(out, vec![del(vec![joined("a", 5, "x")])]);
    assert_eq!(
        j.live(Side::Left, &DataType::Int(5)),
        vec![left(5, "b"), left(5, "a")]
    );
    let out = j.apply_join(vec![del(vec![right(5, "x")])], 20).unwrap();
    assert_eq!(out, vec![del(vec![joined("b", 5, "x"), joined("a", 5, "x")])]);
    assert_eq!(j.live(Side::Right, &DataType::Int(5)), vec![]);
}

#[test]
fn a_deletion_under_an_unknown_join_value_does_nothing() {
    let mut j = join();
    j.apply_join(vec![ins(vec![right(5, "x")])], 20).unwrap();
    let out = j.apply_join(vec![del(vec![left(5, "a")])], 10).unwrap();
    assert_eq!(out, vec![del(vec![])]);
    assert_eq!(j.live(Side::Left, &DataType::Int(5)), vec![]);
    assert_eq!(j.live(Side::Right, &DataType::Int(5)), vec![right(5, "x")]);
}

#[test]
fn a_deletion_of_a_row_that_is_not_held_leaves_the_rows_alone() {
    let mut j = join();
    j.apply_join(vec![ins(vec![left(5, "a")])], 10).unwrap();
    j.apply_join(vec![ins(vec![right(5, "x")])], 20).unwrap();
    let out = j.apply_join(vec![del(vec![left(5, "zzz")])], 10).unwrap();
    assert_eq!(out, vec![del(vec![])]);
    assert_eq!(j.live(Side::Left, &DataType::Int(5)), vec![left(5, "a")]);
    assert_eq!(j.live(Side::Right, &DataType::Int(5)), vec![right(5, "x")]);
}

#[test]
fn a_second_deletion_of_a_row_does_nothing() {
    let mut j = join();
    j.apply_join(vec![ins(vec![right(5, "x")])], 20).unwrap();
    j.apply_join(vec![ins(vec![left(5, "a")])], 10).unwrap();
    let out = j
        .apply_join(vec![del(vec![left(5, "a"), left(5, "a")])], 10)
        .unwrap();
    assert_eq!(out, vec![del(vec![joined("a", 5, "x")])]);
    let out = j.apply_join(vec![del(vec![left(5, "a")])], 10).unwrap();
    assert_eq!(out, vec![del(vec![])]);
    assert_eq!(j.live(Side::Left, &DataType::Int(5)), vec![]);
    let out = j.apply_join(vec![del(vec![right(5, "y")])], 20).unwrap();
    assert_eq!(out, vec![del(vec![])]);
    assert_eq!(j.live(Side::Right, &DataType::Int(5)), vec![right(5, "x")]);
}

#[test]
fn every_joined_row_is_a_left_row_without_its_column_and_a_right_row() {
    let mut j = join();
    j.apply_join(vec![ins(vec![left(1, "a"), left(2, "b"), left(1, "c")])], 10)
        .unwrap();
    let out = j
        .apply_join(vec![ins(vec![right(1, "x"), right(2, "y"), right(3, "z")])], 20)
        .unwrap();
    assert_eq!(
        out,
        vec![ins(vec![
            joined("a", 1, "x"),
            joined("c", 1, "x"),
            joined("b", 2, "y"),
        ])]
    );
    for o in &out[0].batch {
        assert_eq!(o.data.len(), 2 - 1 + 2);
    }
}

#[test]
fn each_change_is_answered_by_one_change_of_its_kind() {
    let mut j = join();
    j.apply_join(vec![ins(vec![right(1, "x"), right(2, "y")])], 20)
        .unwrap();
    let out = j
        .apply_join(
            vec![
                ins(vec![left(1, "a"), left(2, "b")]),
                del(vec![left(1, "a")]),
                ins(vec![]),
                del(vec![]),
            ],
            10,
        )
        .unwrap();
    assert_eq!(
        out,
        vec![
            ins(vec![joined("a", 1, "x"), joined("b", 2, "y")]),
            del(vec![joined("a", 1, "x")]),
            ins(vec![]),
            del(vec![]),
        ]
    );
}

#[test]
fn rows_in_one_batch_see_the_rows_before_them() {
    let mut j = InnerJoin::new(vec![0, 1], vec![0, 0]).unwrap();
    let a = row(vec![DataType::Int(1), text("a")]);
    j.apply_join(vec![ins(vec![a.clone(), a.clone()])], 0).unwrap();
    let out = j.apply_join(vec![ins(vec![a.clone()])], 1).unwrap();
    let pair = row(vec![text("a"), DataType::Int(1), text("a")]);
    assert_eq!(out, vec![ins(vec![pair.clone(), pair])]);
}

#[test]
fn a_row_without_the_join_column_fails_and_changes_nothing() {
    let mut j = join();
    j.apply_join(vec![ins(vec![left(5, "a")])], 10).unwrap();
    let result = j.apply_join(
        vec![ins(vec![left(5, "b"), row(vec![text("short")])])],
        10,
    );
    assert_eq!(result, Err(Error::RowShapeMismatch));
    assert_eq!(j.live(Side::Left, &DataType::Int(5)), vec![left(5, "a")]);
    let ok = j.apply_join(vec![ins(vec![row(vec![DataType::Int(5)])])], 20);
    assert_eq!(
        ok,
        Ok(vec![ins(vec![row(vec![text("a"), DataType::Int(5)])])])
    );
}

#[test]
fn apply_hands_the_changes_back() {
    let mut j = join();
    let input = vec![ins(vec![left(5, "a")]), del(vec![row(vec![])])];
    assert_eq!(j.apply(input.clone()), Ok(input));
    assert_eq!(j.live(Side::Left, &DataType::Int(5)), vec![]);
}

#[test]
fn process_change_joins_for_the_side_of_the_parent() {
    let mut op = Operation::InnerJoinor(join());
    assert_eq!(op.kind(), OperatorType::I);
    let p = op.process_change(vec![ins(vec![left(5, "a")])], 10).unwrap();
    assert_eq!(p.forward, vec![ins(vec![])]);
    let p = op.process_change(vec![ins(vec![right(5, "x")])], 20).unwrap();
    assert_eq!(p.forward, vec![ins(vec![joined("a", 5, "x")])]);
    assert!(p.deliveries.is_empty());
    assert_eq!(
        op.process_change(vec![ins(vec![row(vec![])])], 20).err(),
        Some(Error::RowShapeMismatch)
    );
}

fn sorted(mut rows: Vec<String>) -> Vec<String> {
    rows.sort();
    rows
}

#[test]
fn live_joined_rows_are_the_cross_product_at_every_point() {
    let mut j = join();
    let mut live_left: Vec<Row> = Vec::new();
    let mut live_right: Vec<Row> = Vec::new();
    let mut live_out: Vec<Row> = Vec::new();
    let steps: Vec<(usize, ChangeType, Row)> = vec![
        (10, ChangeType::Insertion, left(5, "a")),
        (20, ChangeType::Insertion, right(5, "x")),
        (20, ChangeType::Insertion, right(5, "y")),
        (10, ChangeType::Insertion, left(5, "b")),
        (10, ChangeType::Insertion, left(5, "a")),
        (20, ChangeType::Deletion, right(5, "x")),
        (10, ChangeType::Deletion, left(5, "a")),
        (20, ChangeType::Insertion, right(5, "x")),
        (10, ChangeType::Deletion, left(5, "never")),
        (20, ChangeType::Deletion, right(5, "never")),
        (10, ChangeType::Deletion, left(5, "b")),
        (10, ChangeType::Deletion, left(5, "b")),
        (10, ChangeType::Deletion, left(5, "a")),
        (20, ChangeType::Deletion, right(5, "y")),
        (20, ChangeType::Deletion, right(5, "x")),
        (20, ChangeType::Deletion, right(5, "x")),
    ];
    for (parent, kind, r) in steps {
        let own = if parent == 10 { &mut live_left } else { &mut live_right };
        match kind {
            ChangeType::Insertion => own.push(r.clone()),
            ChangeType::Deletion => {
                if let Some(at) = own.iter().position(|x| *x == r) {
                    own.remove(at);
                }
            }
        }
        let out = j.apply_join(vec![Change::new(kind, vec![r])], parent).unwrap();
        assert_eq!(out.len(), 1);
        for o in &out[0].batch {
            match kind {
                ChangeType::Insertion => live_out.push(o.clone()),
                ChangeType::Deletion => {
                    let at = live_out.iter().position(|x| x == o).unwrap();
                    live_out.remove(at);
                }
            }
        }
        let mut cross: Vec<String> = Vec::new();
        for l in &live_left {
            for r in &live_right {
                cross.push(merge_rows(l, r, 1).to_text());
            }
        }
        let have: Vec<String> = live_out.iter().map(|x| x.to_text()).collect();
        assert_eq!(sorted(have), sorted(cross));
        assert_eq!(j.live(Side::Left, &DataType::Int(5)), live_left);
        assert_eq!(j.live(Side::Right, &DataType::Int(5)), live_right);
    }
    assert!(live_out.is_empty());
}
