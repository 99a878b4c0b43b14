use read_buffer::batch::{Batch, BatchColumn};
use read_buffer::column::AggregateResult::{Count, First, Last, Max, Min, Sum};
use read_buffer::column::{AggregateResult, AggregateType, Column, Operator, Scalar, Value};
use read_buffer::row_group::{ColumnType, Predicate, RowGroup};
use read_buffer::table::Table;
use read_buffer::{Database, Error};

fn strings(values: &[&str]) -> Vec<Value> {
    values.iter().map(|s| Value::String(s.to_string())).collect()
}

fn west_east(times: &[i64], regions: &[&str], counts: &[u64]) -> RowGroup {
    let columns = vec![
        (
            "time".to_string(),
            ColumnType::Time(Column::from_i64(times)),
        ),
        (
            "region".to_string(),
            ColumnType::Tag(Column::from_strs(regions)),
        ),
        (
            "count".to_string(),
            ColumnType::Field(Column::from_u64(counts)),
        ),
    ];
    RowGroup::new(times.len() as u32, columns).unwrap()
}

fn two_group_table() -> Table {
    let mut table = Table::new(
        "cpu".to_owned(),
        west_east(
            &[1, 2, 3, 4, 5],
            &["west", "west", "east", "west", "east"],
            &[10, 20, 30, 40, 50],
        ),
    );
    table
        .add_row_group(west_east(
            &[10, 20, 30],
            &["west", "north", "west"],
            &[7, 8, 9],
        ))
        .unwrap();
    table
}

fn all_six(column: &str) -> Vec<(String, AggregateType)> {
    vec![
        (column.to_string(), AggregateType::Count),
        (column.to_string(), AggregateType::Sum),
        (column.to_string(), AggregateType::Min),
        (column.to_string(), AggregateType::Max),
        (column.to_string(), AggregateType::First),
        (column.to_string(), AggregateType::Last),
    ]
}

fn u(v: u64) -> Value {
    Value::Scalar(Scalar::U64(v))
}

#[test]
fn groups_are_reported_once_per_row_group_in_order_of_first_occurrence() {
    let table = two_group_table();
    let results = table.aggregate(&[], &["region"], &all_six("count")).unwrap();
    assert_eq!(results.values.len(), 2);
    assert_eq!(results.groupby_columns, vec!["region".to_string()]);

    let first = &results.values[0];
    assert_eq!(first.keys, vec![strings(&["west"]), strings(&["east"])]);
    assert_eq!(
        first.aggregates[0],
        vec![
            AggregateResult::Count(3),
            AggregateResult::Sum(Scalar::U64(70)),
            AggregateResult::Min(u(10)),
            AggregateResult::Max(u(40)),
            AggregateResult::First(Some((1, u(10)))),
            AggregateResult::Last(Some((4, u(40)))),
        ]
    );
    assert_eq!(
        first.aggregates[1],
        vec![
            AggregateResult::Count(2),
            AggregateResult::Sum(Scalar::U64(80)),
            AggregateResult::Min(u(30)),
            AggregateResult::Max(u(50)),
            AggregateResult::First(Some((3, u(30)))),
            AggregateResult::Last(Some((5, u(50)))),
        ]
    );

    let second = &results.values[1];
    assert_eq!(second.keys, vec![strings(&["west"]), strings(&["north"])]);
    assert_eq!(second.aggregates[0][0], AggregateResult::Count(2));
    assert_eq!(second.aggregates[1][1], AggregateResult::Sum(Scalar::U64(8)));
}

#[test]
fn merging_the_west_groups_of_two_row_groups_adds_their_counts() {
    let table = two_group_table();
    let wanted = vec![("count".to_string(), AggregateType::Count)];
    let results = table.aggregate(&[], &["region"], &wanted).unwrap();
    let west = strings(&["west"]);
    let mut merged: Option<AggregateResult> = None;
    for result in &results.values {
        for (key, aggregates) in result.keys.iter().zip(result.aggregates.iter()) {
            if *key == west {
                merged = Some(match merged {
                    Some(so_far) => so_far.merge(&aggregates[0]),
                    None => aggregates[0].clone(),
                });
            }
        }
    }
    assert_eq!(merged, Some(AggregateResult::Count(5)));
}

#[test]
fn merge_follows_the_rule_of_each_aggregate() {
    assert_eq!(Count(3).merge(&Count(2)), Count(5));
    assert_eq!(Count(u64::MAX).merge(&Count(2)), Count(u64::MAX));
    assert_eq!(
        Sum(Scalar::I64(-4)).merge(&Sum(Scalar::I64(9))),
        Sum(Scalar::I64(5))
    );
    assert_eq!(
        Sum(Scalar::I64(i64::MAX)).merge(&Sum(Scalar::I64(1))),
        Sum(Scalar::I64(i64::MAX))
    );
    assert_eq!(Sum(Scalar::Null).merge(&Sum(Scalar::U64(9))), Sum(Scalar::U64(9)));
    assert_eq!(Sum(Scalar::U64(9)).merge(&Sum(Scalar::Null)), Sum(Scalar::U64(9)));
    assert_eq!(Min(u(4)).merge(&Min(u(3))), Min(u(3)));
    assert_eq!(Min(Value::Null).merge(&Min(u(3))), Min(u(3)));
    assert_eq!(Max(u(4)).merge(&Max(u(3))), Max(u(4)));
    assert_eq!(
        First(Some((5, u(1)))).merge(&First(Some((4, u(2))))),
        First(Some((4, u(2))))
    );
    assert_eq!(
        First(Some((5, u(1)))).merge(&First(Some((5, u(2))))),
        First(Some((5, u(1))))
    );
    assert_eq!(First(None).merge(&First(Some((4, u(2))))), First(Some((4, u(2)))));
    assert_eq!(
        Last(Some((5, u(1)))).merge(&Last(Some((6, u(2))))),
        Last(Some((6, u(2))))
    );
    assert_eq!(Last(Some((5, u(1)))).merge(&Last(None)), Last(Some((5, u(1)))));
    assert_eq!(Count(1).merge(&Min(u(3))), Count(1));
}

#[test]
fn aggregate_names_must_be_columns_of_the_table() {
    let table = two_group_table();
    let count = vec![("count".to_string(), AggregateType::Count)];
    let missing = vec![("nope".to_string(), AggregateType::Count)];
    let bad_predicate: Vec<Predicate> = vec![(
        "nope".to_string(),
        (Operator::Equal, Value::Boolean(true)),
    )];
    assert_eq!(
        table.aggregate(&[], &["nope"], &count).err(),
        Some(Error::ColumnNotFound)
    );
    assert_eq!(
        table.aggregate(&[], &["region"], &missing).err(),
        Some(Error::ColumnNotFound)
    );
    assert_eq!(
        table.aggregate(&bad_predicate, &["region"], &count).err(),
        Some(Error::ColumnNotFound)
    );
    assert!(table.aggregate(&[], &[], &[]).unwrap().values.len() == 2);
}

#[test]
fn windows_are_half_open_and_anchored_at_the_start_of_the_range() {
    let table = two_group_table();
    let count = vec![("count".to_string(), AggregateType::Sum)];
    // Rows 2, 3, 4, 5 and 10 lie in [2, 11); windows of width 3 from 2 are
    // [2, 5), [5, 8) and [8, 11).
    let results = table
        .aggregate_window((2, 11), &[], &[], &count, 3)
        .unwrap();
    assert_eq!(results.values.len(), 2);
    assert_eq!(results.values[0].keys, vec![vec![u(0)], vec![u(1)]]);
    assert_eq!(
        results.values[0].aggregates,
        vec![
            vec![AggregateResult::Sum(Scalar::U64(90))],
            vec![AggregateResult::Sum(Scalar::U64(50))]
        ]
    );
    assert_eq!(results.values[1].keys, vec![vec![u(2)]]);
    assert_eq!(
        results.values[1].aggregates,
        vec![vec![AggregateResult::Sum(Scalar::U64(7))]]
    );

    let by_region = table
        .aggregate_window((1, 4), &[], &["region"], &count, 2)
        .unwrap();
    assert_eq!(by_region.values.len(), 1);
    assert_eq!(
        by_region.values[0].keys,
        vec![
            vec![Value::String("west".to_string()), u(0)],
            vec![Value::String("east".to_string()), u(1)]
        ]
    );
}

#[test]
fn single_column_aggregates_respect_the_time_range() {
    let table = two_group_table();
    assert_eq!(table.count("count", (1, 31)), 8);
    assert_eq!(table.count("count", (3, 11)), 4);
    assert_eq!(table.count("count", (40, 50)), 0);
    assert_eq!(table.count("nope", (1, 31)), 0);
    assert_eq!(table.sum("count", (3, 11)), Some(Scalar::U64(127)));
    assert_eq!(table.sum("region", (3, 11)), Some(Scalar::Null));
    assert_eq!(table.sum("nope", (3, 11)), None);
    assert_eq!(table.min("count", (1, 31)), u(7));
    assert_eq!(table.min("count", (1, 6)), u(10));
    assert_eq!(table.max("count", (1, 31)), u(50));
    assert_eq!(table.max("region", (1, 31)), Value::String("west".to_string()));
    assert_eq!(table.max("count", (31, 40)), Value::Null);
    assert_eq!(table.first("count", 3), Some((3, u(30))));
    assert_eq!(table.first("count", 31), None);
    assert_eq!(table.last("count", 30), Some((20, u(8))));
    assert_eq!(table.last("count", 1), None);

    let found = table
        .read_aggregate_no_group(
            (2, 21),
            &[(
                "region".to_string(),
                (Operator::Equal, Value::String("west".to_string())),
            )],
            &all_six("count"),
        )
        .unwrap();
    let values: Vec<AggregateResult> = found.into_iter().map(|(_, v)| v).collect();
    assert_eq!(
        values,
        vec![
            AggregateResult::Count(3),
            AggregateResult::Sum(Scalar::U64(67)),
            AggregateResult::Min(u(7)),
            AggregateResult::Max(u(40)),
            AggregateResult::First(Some((2, u(20)))),
            AggregateResult::Last(Some((10, u(7)))),
        ]
    );
}

#[test]
fn tag_keys_and_values_come_sorted_and_once() {
    let table = two_group_table();
    assert_eq!(
        table.tag_keys((1, 31), &[], &[]).unwrap(),
        vec!["region".to_string()]
    );
    assert!(table
        .tag_keys((1, 31), &[], &["region".to_string()])
        .unwrap()
        .is_empty());
    assert!(table.tag_keys((40, 50), &[], &[]).unwrap().is_empty());

    let values = table.tag_values((1, 31), &[], &[]).unwrap();
    assert_eq!(
        values,
        vec![(
            "region".to_string(),
            vec!["east".to_string(), "north".to_string(), "west".to_string()]
        )]
    );
    let values = table
        .tag_values((1, 4), &[], &["region".to_string()])
        .unwrap();
    assert_eq!(
        values,
        vec![(
            "region".to_string(),
            vec!["east".to_string(), "west".to_string()]
        )]
    );
    assert_eq!(
        table.tag_values((1, 4), &[], &["nope".to_string()]).err(),
        Some(Error::ColumnNotFound)
    );
}

fn batch(times: &[i64], regions: &[&str], counts: &[i64]) -> Batch {
    Batch {
        columns: vec![
            BatchColumn {
                name: "region".to_owned(),
                kind: Some("tag".to_owned()),
                values: strings(regions),
            },
            BatchColumn {
                name: "count".to_owned(),
                kind: Some("field".to_owned()),
                values: counts
                    .iter()
                    .map(|v| Value::Scalar(Scalar::I64(*v)))
                    .collect(),
            },
            BatchColumn {
                name: "time".to_owned(),
                kind: Some("time".to_owned()),
                values: times
                    .iter()
                    .map(|v| Value::Scalar(Scalar::I64(*v)))
                    .collect(),
            },
        ],
    }
}

#[test]
fn database_queries_walk_every_chunk_of_every_partition() {
    let mut db = Database::new();
    db.upsert_partition("b", 2, "cpu", &batch(&[100, 110], &["x", "y"], &[1, 2]))
        .unwrap();
    db.upsert_partition("a", 9, "cpu", &batch(&[5, 6], &["x", "x"], &[3, 4]))
        .unwrap();
    db.upsert_partition("a", 1, "cpu", &batch(&[50, 60], &["y", "x"], &[5, 6]))
        .unwrap();
    db.upsert_partition("a", 1, "mem", &batch(&[50], &["x"], &[7]))
        .unwrap();

    let all = db.select("cpu", (0, 200), &[], &["time", "count"]).unwrap().unwrap();
    assert_eq!(all.display(), "time,count\n100,1\n110,2\n50,5\n60,6\n5,3\n6,4\n");

    // Chunk 9 of partition `a` ends before 50 and is skipped.
    let late = db.select("cpu", (50, 101), &[], &["count"]).unwrap().unwrap();
    assert_eq!(late.display(), "count\n1\n5\n6\n");

    assert!(db.select("cpu", (200, 300), &[], &["count"]).unwrap().is_none());
    assert!(db.select("disk", (0, 200), &[], &["count"]).unwrap().is_none());
    assert_eq!(
        db.select("cpu", (0, 200), &[], &["nope"]).err(),
        Some(Error::ColumnNotFound)
    );

    let sums = vec![("count".to_string(), AggregateType::Sum)];
    let grouped = db
        .aggregate("cpu", (0, 200), &[], &["region"], &sums)
        .unwrap()
        .unwrap();
    assert_eq!(grouped.values.len(), 3);
    assert_eq!(grouped.values[1].keys, vec![strings(&["y"]), strings(&["x"])]);
    assert_eq!(
        grouped.values[2].aggregates,
        vec![vec![AggregateResult::Sum(Scalar::I64(7))]]
    );

    let windowed = db
        .aggregate_window("cpu", (0, 200), &[], &[], &sums, 100)
        .unwrap()
        .unwrap();
    assert_eq!(windowed.values.len(), 3);
    assert_eq!(windowed.values[0].keys, vec![vec![u(1)]]);
    assert_eq!(windowed.values[1].keys, vec![vec![u(0)]]);
    assert!(db
        .aggregate("cpu", (300, 400), &[], &["region"], &sums)
        .unwrap()
        .is_none());
}

#[test]
fn database_tag_keys_and_values_are_gathered_across_chunks() {
    let mut db = Database::new();
    db.upsert_partition("a", 1, "cpu", &batch(&[5, 6], &["x", "z"], &[3, 4]))
        .unwrap();
    db.upsert_partition("b", 2, "cpu", &batch(&[100, 110], &["y", "x"], &[1, 2]))
        .unwrap();
    db.upsert_partition("b", 3, "mem", &batch(&[100], &["w"], &[1]))
        .unwrap();

    assert_eq!(
        db.tag_keys("cpu", (0, 200), &[]).unwrap(),
        Some(vec!["region".to_string()])
    );
    assert_eq!(db.tag_keys("cpu", (200, 300), &[]).unwrap(), None);
    assert_eq!(db.tag_keys("disk", (0, 200), &[]).unwrap(), None);

    let everything = vec![(
        "region".to_string(),
        vec!["x".to_string(), "y".to_string(), "z".to_string()],
    )];
    assert_eq!(db.tag_values("cpu", (0, 200), &[], &[]).unwrap(), everything);
    assert_eq!(
        db.tag_values("cpu", (0, 200), &[], &["region".to_string()])
            .unwrap(),
        everything
    );
    assert_eq!(
        db.tag_values("cpu", (0, 7), &[], &["region".to_string(), "host".to_string()])
            .unwrap(),
        vec![
            (
                "region".to_string(),
                vec!["x".to_string(), "z".to_string()]
            ),
            ("host".to_string(), vec![])
        ]
    );
    let positive: Vec<Predicate> = vec![(
        "count".to_string(),
        (Operator::GTE, Value::Scalar(Scalar::I64(2))),
    )];
    assert_eq!(
        db.tag_values("cpu", (0, 200), &positive, &["region".to_string()])
            .unwrap(),
        vec![(
            "region".to_string(),
            vec!["x".to_string(), "z".to_string()]
        )]
    );
    assert!(db.tag_values("cpu", (200, 300), &[], &[]).unwrap().is_empty());
    let unknown: Vec<Predicate> = vec![(
        "nope".to_string(),
        (Operator::Equal, Value::Boolean(true)),
    )];
    assert_eq!(
        db.tag_keys("cpu", (0, 200), &unknown).err(),
        Some(Error::ColumnNotFound)
    );
}

#[test]
fn grouped_results_are_written_one_line_per_group() {
    let table = two_group_table();
    let wanted = vec![
        ("count".to_string(), AggregateType::Sum),
        ("count".to_string(), AggregateType::Last),
        ("time".to_string(), AggregateType::Count),
    ];
    let results = table.aggregate(&[], &["region"], &wanted).unwrap();
    assert_eq!(
        results.display(),
        "region,count_sum,count_last,time_count\n\
         west,70,40,3\n\
         east,80,50,2\n\
         west,16,9,2\n\
         north,8,8,1\n"
    );
    assert!(!results.is_empty());
    let none = table.aggregate(&[], &[], &[]).unwrap();
    assert_eq!(none.display(), "\n\n\n");
}

#[test]
fn extremes_agree_whether_a_row_group_is_read_or_answered_from_its_range() {
    let table = two_group_table();
    // Both row groups lie within the range: answered from the cached ranges.
    assert_eq!(table.min("count", (0, 100)), u(7));
    assert_eq!(table.max("count", (0, 100)), u(50));
    assert_eq!(table.min("region", (0, 100)), Value::String("east".to_string()));
    // Both row groups reach beyond the range: scanned.
    assert_eq!(table.min("count", (3, 11)), u(7));
    assert_eq!(table.max("count", (3, 11)), u(50));
    assert_eq!(table.min("count", (3, 5)), u(30));
    assert_eq!(table.max("count", (2, 4)), u(30));
    // The first lies within, the second reaches beyond.
    assert_eq!(table.min("count", (1, 21)), u(7));
    assert_eq!(table.max("count", (1, 10)), u(50));
    assert_eq!(table.min("nope", (1, 21)), Value::Null);

    // A column of mixed kinds is always scanned: the first value stays
    // where the next is of another kind.
    let mixed = Column::new(vec![
        Value::Scalar(Scalar::I64(5)),
        Value::String("a".to_string()),
        Value::Scalar(Scalar::I64(3)),
    ]);
    assert!(!mixed.is_uniform());
    assert!(Column::from_i64(&[1, 2]).is_uniform());
    let columns = vec![
        (
            "time".to_string(),
            ColumnType::Time(Column::from_i64(&[1, 2, 3])),
        ),
        ("any".to_string(), ColumnType::Field(mixed)),
    ];
    let table = Table::new("t".to_owned(), RowGroup::new(3, columns).unwrap());
    assert_eq!(table.min("any", (0, 10)), Value::Scalar(Scalar::I64(3)));
    assert_eq!(table.max("any", (0, 10)), Value::Scalar(Scalar::I64(5)));
}

#[test]
fn counts_leave_out_nulls_whether_read_or_cached() {
    let sparse = Column::new(vec![
        Value::Null,
        Value::Scalar(Scalar::I64(4)),
        Value::Scalar(Scalar::Null),
        Value::Scalar(Scalar::I64(6)),
    ]);
    assert_eq!(sparse.present(), 2);
    let columns = vec![
        (
            "time".to_string(),
            ColumnType::Time(Column::from_i64(&[1, 2, 3, 4])),
        ),
        ("load".to_string(), ColumnType::Field(sparse)),
    ];
    let table = Table::new("t".to_owned(), RowGroup::new(4, columns).unwrap());
    assert_eq!(table.count("load", (0, 10)), 2);
    assert_eq!(table.count("load", (1, 5)), 2);
    assert_eq!(table.count("load", (2, 3)), 1);
    assert_eq!(table.count("load", (3, 5)), 1);
    assert_eq!(table.count("time", (3, 5)), 2);
    assert_eq!(table.min("load", (0, 10)), Value::Scalar(Scalar::I64(4)));
    assert_eq!(table.sum("load", (0, 10)), Some(Scalar::I64(10)));
    assert_eq!(
        table.first("load", 0),
        Some((1, Value::Null))
    );
}
