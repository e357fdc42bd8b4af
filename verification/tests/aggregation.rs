use dataflow::operators::aggregation::Aggregation;
use dataflow::operators::operation::Operation;
use dataflow::operators::Operator;
use dataflow::types::changetype::ChangeType;
use dataflow::types::datatype::DataType;
use dataflow::types::error::Error;
use dataflow::types::operatortype::OperatorType;
use dataflow::units::change::Change;
use dataflow::units::row::Row;

fn text(s: &str) -> DataType {
    DataType::Text(s.to_string())
}

fn ints(values: &[i32]) -> Row {
    Row::new(values.iter().map(|v| DataType::Int(*v)).collect())
}

fn ins(rows: Vec<Row>) -> Change {
    Change::new(ChangeType::Insertion, rows)
}

fn del(rows: Vec<Row>) -> Change {
    Change::new(ChangeType::Deletion, rows)
}

#[test]
fn a_new_group_starts_at_one() {
    let mut agg = Aggregation::new(vec![0]);
    let out = agg.apply(vec![ins(vec![ints(&[7, 100])])]).unwrap();
    assert_eq!(out, vec![ins(vec![ints(&[7, 1])])]);
    assert_eq!(agg.count(&vec![DataType::Int(7)]), Some(1));
    assert_eq!(agg.count(&vec![DataType::Int(8)]), None);
}

#[test]
fn a_known_group_is_retracted_and_inserted_again() {
    let mut agg = Aggregation::new(vec![0]);
    agg.apply(vec![ins(vec![ints(&[7, 100]), ints(&[7, 101])])])
        .unwrap();
    let out = agg.apply(vec![ins(vec![ints(&[7, 102])])]).unwrap();
    assert_eq!(out, vec![del(vec![ints(&[7, 2])]), ins(vec![ints(&[7, 3])])]);
    assert_eq!(agg.count(&vec![DataType::Int(7)]), Some(3));
}

#[test]
fn the_key_holds_the_group_by_columns_in_their_order() {
    let mut agg = Aggregation::new(vec![2, 0]);
    let row = Row::new(vec![DataType::Int(1), text("skip"), text("g")]);
    let out = agg.apply(vec![ins(vec![row.clone(), row])]).unwrap();
    let one = Row::new(vec![text("g"), DataType::Int(1), DataType::Int(1)]);
    let two = Row::new(vec![text("g"), DataType::Int(1), DataType::Int(2)]);
    assert_eq!(
        out,
        vec![ins(vec![one.clone()]), del(vec![one]), ins(vec![two])]
    );
    assert_eq!(agg.count(&vec![text("g"), DataType::Int(1)]), Some(2));
    assert_eq!(agg.count(&vec![DataType::Int(1), text("g")]), None);
}

#[test]
fn rows_of_different_groups_are_counted_apart() {
    let mut agg = Aggregation::new(vec![0]);
    let out = agg
        .apply(vec![ins(vec![ints(&[1, 0]), ints(&[2, 0]), ints(&[1, 0])])])
        .unwrap();
    assert_eq!(
        out,
        vec![
            ins(vec![ints(&[1, 1])]),
            ins(vec![ints(&[2, 1])]),
            del(vec![ints(&[1, 1])]),
            ins(vec![ints(&[1, 2])]),
        ]
    );
}

#[test]
fn a_deletion_counts_down_and_inserts_again_above_zero() {
    let mut agg = Aggregation::new(vec![0]);
    agg.apply(vec![ins(vec![ints(&[1, 0]), ints(&[1, 1]), ints(&[1, 2])])])
        .unwrap();
    let out = agg.apply(vec![del(vec![ints(&[1, 1])])]).unwrap();
    assert_eq!(out, vec![del(vec![ints(&[1, 3])]), ins(vec![ints(&[1, 2])])]);
    assert_eq!(agg.count(&vec![DataType::Int(1)]), Some(2));
}

#[test]
fn a_deletion_to_zero_yields_no_insertion_and_keeps_the_group() {
    let mut agg = Aggregation::new(vec![0]);
    agg.apply(vec![ins(vec![ints(&[1, 0])])]).unwrap();
    let out = agg.apply(vec![del(vec![ints(&[1, 0])])]).unwrap();
    assert_eq!(out, vec![del(vec![ints(&[1, 1])])]);
    assert_eq!(agg.count(&vec![DataType::Int(1)]), Some(0));
    let out = agg.apply(vec![ins(vec![ints(&[1, 5])])]).unwrap();
    assert_eq!(out, vec![del(vec![ints(&[1, 0])]), ins(vec![ints(&[1, 1])])]);
}

#[test]
fn a_deletion_of_an_unknown_group_is_ignored() {
    let mut agg = Aggregation::new(vec![0]);
    let out = agg.apply(vec![del(vec![ints(&[1, 0])])]).unwrap();
    assert_eq!(out, vec![]);
    assert_eq!(agg.count(&vec![DataType::Int(1)]), None);
    let out = agg.apply(vec![ins(vec![ints(&[1, 0])])]).unwrap();
    assert_eq!(out, vec![ins(vec![ints(&[1, 1])])]);
}

#[test]
fn more_deletions_than_insertions_count_below_zero() {
    let mut agg = Aggregation::new(vec![0]);
    agg.apply(vec![ins(vec![ints(&[1, 0])])]).unwrap();
    let out = agg
        .apply(vec![del(vec![ints(&[1, 0]), ints(&[1, 0])])])
        .unwrap();
    assert_eq!(out, vec![del(vec![ints(&[1, 1])]), del(vec![ints(&[1, 0])])]);
    assert_eq!(agg.count(&vec![DataType::Int(1)]), Some(-1));
    let out = agg.apply(vec![ins(vec![ints(&[1, 0])])]).unwrap();
    assert_eq!(out, vec![del(vec![ints(&[1, -1])]), ins(vec![ints(&[1, 0])])]);
}

#[test]
fn changes_of_both_kinds_are_applied_in_their_order() {
    let mut agg = Aggregation::new(vec![0]);
    let out = agg
        .apply(vec![
            ins(vec![ints(&[1, 0]), ints(&[1, 1])]),
            del(vec![ints(&[1, 0])]),
            ins(vec![]),
        ])
        .unwrap();
    assert_eq!(
        out,
        vec![
            ins(vec![ints(&[1, 1])]),
            del(vec![ints(&[1, 1])]),
            ins(vec![ints(&[1, 2])]),
            del(vec![ints(&[1, 2])]),
            ins(vec![ints(&[1, 1])]),
        ]
    );
}

#[test]
fn aggregation_of_no_columns_counts_all_rows_as_one_group() {
    let mut agg = Aggregation::new(vec![]);
    let out = agg
        .apply(vec![ins(vec![ints(&[1]), ints(&[2, 3])])])
        .unwrap();
    assert_eq!(
        out,
        vec![ins(vec![ints(&[1])]), del(vec![ints(&[1])]), ins(vec![ints(&[2])])]
    );
    assert_eq!(agg.count(&vec![]), Some(2));
}

#[test]
fn a_row_without_a_group_by_column_fails_and_changes_nothing() {
    let mut agg = Aggregation::new(vec![0, 2]);
    agg.apply(vec![ins(vec![ints(&[1, 0, 1])])]).unwrap();
    let result = agg.apply(vec![ins(vec![ints(&[1, 0, 1]), ints(&[1, 0])])]);
    assert_eq!(result, Err(Error::RowShapeMismatch));
    assert_eq!(
        agg.count(&vec![DataType::Int(1), DataType::Int(1)]),
        Some(1)
    );
}

#[test]
fn with_counts_restores_groups() {
    let mut agg = Aggregation::with_counts(
        vec![0],
        vec![
            (vec![DataType::Int(1)], 4),
            (vec![DataType::Int(2)], 9),
            (vec![DataType::Int(1)], 5),
        ],
    );
    assert_eq!(agg.count(&vec![DataType::Int(1)]), Some(5));
    assert_eq!(agg.count(&vec![DataType::Int(2)]), Some(9));
    assert_eq!(agg.count(&vec![DataType::Int(3)]), None);
    let out = agg.apply(vec![ins(vec![ints(&[2, 0])])]).unwrap();
    assert_eq!(out, vec![del(vec![ints(&[2, 9])]), ins(vec![ints(&[2, 10])])]);
}

#[test]
fn a_count_at_the_upper_limit_cannot_grow() {
    let mut agg = Aggregation::with_counts(vec![0], vec![(vec![DataType::Int(1)], i32::MAX - 1)]);
    let out = agg.apply(vec![ins(vec![ints(&[1])])]).unwrap();
    assert_eq!(
        out,
        vec![del(vec![ints(&[1, i32::MAX - 1])]), ins(vec![ints(&[1, i32::MAX])])]
    );
    let result = agg.apply(vec![ins(vec![ints(&[2]), ints(&[1]), ints(&[3])])]);
    assert_eq!(result, Err(Error::CountOverflow));
    assert_eq!(agg.count(&vec![DataType::Int(1)]), Some(i32::MAX));
    assert_eq!(agg.count(&vec![DataType::Int(2)]), None);
    assert_eq!(agg.count(&vec![DataType::Int(3)]), None);
}

#[test]
fn a_call_that_fails_on_a_count_leaves_all_counts_as_they_were() {
    let mut agg = Aggregation::with_counts(
        vec![0],
        vec![(vec![DataType::Int(1)], i32::MAX - 2), (vec![DataType::Int(7)], 3)],
    );
    let result = agg.apply(vec![
        ins(vec![ints(&[1]), ints(&[7]), ints(&[8]), ints(&[8])]),
        del(vec![ints(&[7]), ints(&[9])]),
        ins(vec![ints(&[1]), ints(&[1])]),
    ]);
    assert_eq!(result, Err(Error::CountOverflow));
    assert_eq!(agg.count(&vec![DataType::Int(1)]), Some(i32::MAX - 2));
    assert_eq!(agg.count(&vec![DataType::Int(7)]), Some(3));
    assert_eq!(agg.count(&vec![DataType::Int(8)]), None);
    assert_eq!(agg.count(&vec![DataType::Int(9)]), None);
    let out = agg.apply(vec![ins(vec![ints(&[8])])]).unwrap();
    assert_eq!(out, vec![ins(vec![ints(&[8, 1])])]);
}

#[test]
fn counts_are_insertions_less_deletions() {
    let mut agg = Aggregation::new(vec![0]);
    let steps: Vec<(ChangeType, Row)> = vec![
        (ChangeType::Insertion, ints(&[1, 10])),
        (ChangeType::Insertion, ints(&[1, 11])),
        (ChangeType::Deletion, ints(&[1, 99])),
        (ChangeType::Insertion, ints(&[2, 10])),
        (ChangeType::Deletion, ints(&[1, 10])),
        (ChangeType::Deletion, ints(&[2, 55])),
        (ChangeType::Insertion, ints(&[1, 12])),
    ];
    let mut tally = [0i32; 3];
    for (kind, row) in steps {
        let key = match row.data[0] {
            DataType::Int(k) => k as usize,
            _ => 0,
        };
        match kind {
            ChangeType::Insertion => tally[key] += 1,
            ChangeType::Deletion => tally[key] -= 1,
        }
        agg.apply(vec![Change::new(kind, vec![row])]).unwrap();
        assert!(tally[key] >= 0);
        assert_eq!(agg.count(&vec![DataType::Int(key as i32)]), Some(tally[key]));
    }
    assert_eq!(agg.count(&vec![DataType::Int(1)]), Some(1));
    assert_eq!(agg.count(&vec![DataType::Int(2)]), Some(0));
}

#[test]
fn a_count_at_the_lower_limit_cannot_shrink() {
    let mut agg = Aggregation::with_counts(vec![0], vec![(vec![DataType::Int(1)], i32::MIN)]);
    let result = agg.apply(vec![del(vec![ints(&[1])])]);
    assert_eq!(result, Err(Error::CountOverflow));
    assert_eq!(agg.count(&vec![DataType::Int(1)]), Some(i32::MIN));
    let out = agg.apply(vec![ins(vec![ints(&[1])])]).unwrap();
    assert_eq!(
        out,
        vec![del(vec![ints(&[1, i32::MIN])]), ins(vec![ints(&[1, i32::MIN + 1])])]
    );
}

#[test]
fn aggregation_hands_on_what_apply_answers() {
    let mut agg = Aggregation::new(vec![0]);
    let p = agg.process_change(vec![ins(vec![ints(&[1, 9])])], 4).unwrap();
    assert_eq!(p.forward, vec![ins(vec![ints(&[1, 1])])]);
    assert!(p.deliveries.is_empty());
    let mut op = Operation::Aggregator(agg);
    assert_eq!(op.kind(), OperatorType::A);
    assert_eq!(
        op.apply(vec![ins(vec![ints(&[1, 9])])]).unwrap(),
        vec![del(vec![ints(&[1, 1])]), ins(vec![ints(&[1, 2])])]
    );
    assert_eq!(
        op.process_change(vec![ins(vec![ints(&[])])], 0).err(),
        Some(Error::RowShapeMismatch)
    );
}

#[test]
fn counts_are_the_numbers_of_live_rows() {
    let mut agg = Aggregation::new(vec![0]);
    let mut live: Vec<Row> = Vec::new();
    let steps: Vec<(ChangeType, Row)> = vec![
        (ChangeType::Insertion, ints(&[1, 10])),
        (ChangeType::Insertion, ints(&[2, 10])),
        (ChangeType::Insertion, ints(&[1, 11])),
        (ChangeType::Deletion, ints(&[1, 10])),
        (ChangeType::Insertion, ints(&[1, 10])),
        (ChangeType::Insertion, ints(&[3, 0])),
        (ChangeType::Deletion, ints(&[2, 10])),
        (ChangeType::Deletion, ints(&[1, 11])),
        (ChangeType::Insertion, ints(&[2, 7])),
        (ChangeType::Insertion, ints(&[2, 7])),
    ];
    for (kind, row) in steps {
        match kind {
            ChangeType::Insertion => live.push(row.clone()),
            ChangeType::Deletion => {
                let at = live.iter().position(|r| *r == row).unwrap();
                live.remove(at);
            }
        }
        agg.apply(vec![Change::new(kind, vec![row])]).unwrap();
        for key in [1, 2, 3] {
            let expected = live
                .iter()
                .filter(|r| r.data[0] == DataType::Int(key))
                .count() as i32;
            match agg.count(&vec![DataType::Int(key)]) {
                Some(n) => assert_eq!(n, expected),
                None => assert_eq!(expected, 0),
            }
        }
    }
    assert_eq!(agg.count(&vec![DataType::Int(1)]), Some(1));
    assert_eq!(agg.count(&vec![DataType::Int(2)]), Some(2));
    assert_eq!(agg.count(&vec![DataType::Int(3)]), Some(1));
}
