use read_buffer::batch::{Batch, BatchColumn};
use read_buffer::column::{
    AggregateType, Column, Operator, Scalar, Value, FIELD_COLUMN_TYPE, TAG_COLUMN_TYPE,
    TIME_COLUMN_TYPE,
};
use read_buffer::row_group::{ColumnType, Predicate, RowGroup, TIME_COLUMN_NAME};
use read_buffer::table::{MetaData, Table};
use read_buffer::{time_range_predicate, Database, Error};

fn f64_key(v: f64) -> u64 {
    let bits = v.to_bits();
    if bits >> 63 == 0 {
        bits | (1 << 63)
    } else {
        !bits
    }
}

// helper to make the `database_update_partition` test simpler to read.
fn gen_recordbatch() -> Batch {
    let region = vec!["west", "west", "east"]
        .into_iter()
        .map(|s| Value::String(s.to_string()))
        .collect();
    let counter = vec![1.2, 3.3, 45.3]
        .into_iter()
        .map(|v: f64| Value::Scalar(Scalar::F64(f64_key(v))))
        .collect();
    let time = vec![11111111_i64, 222222, 3333]
        .into_iter()
        .map(|v| Value::Scalar(Scalar::I64(v)))
        .collect();
    Batch {
        columns: vec![
            BatchColumn {
                name: "region".to_owned(),
                kind: Some(TAG_COLUMN_TYPE.to_owned()),
                values: region,
            },
            BatchColumn {
                name: "counter".to_owned(),
                kind: Some(FIELD_COLUMN_TYPE.to_owned()),
                values: counter,
            },
            BatchColumn {
                name: TIME_COLUMN_NAME.to_owned(),
                kind: Some(TIME_COLUMN_TYPE.to_owned()),
                values: time,
            },
        ],
    }
}

#[test]
fn database_update_partition() {
    let mut db = Database::new();
    db.upsert_partition("hour_1", 22, "a_table", &gen_recordbatch())
        .unwrap();

    assert_eq!(db.rows(), 3);
    assert_eq!(db.tables(), 1);
    assert_eq!(db.row_groups(), 1);

    let partition = db.partition(0);
    assert_eq!(partition.tables(), 1);
    assert_eq!(partition.rows(), 3);
    assert_eq!(partition.row_groups(), 1);

    // Updating the chunk with another row group for the table just adds
    // that row group to the existing table.
    db.upsert_partition("hour_1", 22, "a_table", &gen_recordbatch())
        .unwrap();
    assert_eq!(db.rows(), 6);
    assert_eq!(db.tables(), 1); // still one table
    assert_eq!(db.row_groups(), 2);

    let partition = db.partition(0);
    assert_eq!(partition.tables(), 1); // it's the same table.
    assert_eq!(partition.rows(), 6);
    assert_eq!(partition.row_groups(), 2);

    // Adding the same data under another table would increase the table
    // count.
    db.upsert_partition("hour_1", 22, "b_table", &gen_recordbatch())
        .unwrap();
    assert_eq!(db.rows(), 9);
    assert_eq!(db.tables(), 2);
    assert_eq!(db.row_groups(), 3);

    let partition = db.partition(0);
    assert_eq!(partition.tables(), 2);
    assert_eq!(partition.rows(), 9);
    assert_eq!(partition.row_groups(), 3);

    // Adding the data under another chunk adds a new chunk.
    db.upsert_partition("hour_1", 29, "a_table", &gen_recordbatch())
        .unwrap();
    assert_eq!(db.rows(), 12);
    assert_eq!(db.tables(), 3); // two distinct tables but across two chunks.
    assert_eq!(db.row_groups(), 4);

    let partition = db.partition(0);
    assert_eq!(partition.tables(), 3);
    assert_eq!(partition.rows(), 12);
    assert_eq!(partition.row_groups(), 4);

    let chunk_22 = &db.partition(0).chunks()[0];
    assert_eq!(chunk_22.id(), 22);
    assert_eq!(chunk_22.tables(), 2);
    assert_eq!(chunk_22.rows(), 9);
    assert_eq!(chunk_22.row_groups(), 3);

    let chunk_29 = &db.partition(0).chunks()[1];
    assert_eq!(chunk_29.id(), 29);
    assert_eq!(chunk_29.tables(), 1);
    assert_eq!(chunk_29.rows(), 3);
    assert_eq!(chunk_29.row_groups(), 1);
}

#[test]
fn table_names() {
    let mut db = Database::new();

    db.upsert_partition("hour_1", 22, "Coolverine", &gen_recordbatch())
        .unwrap();
    let data = db.table_names("hour_1", &[22], &[]).unwrap().unwrap();
    assert_eq!(data, vec!["Coolverine".to_string()]);

    db.upsert_partition("hour_1", 22, "Coolverine", &gen_recordbatch())
        .unwrap();
    let data = db.table_names("hour_1", &[22], &[]).unwrap().unwrap();
    assert_eq!(data, vec!["Coolverine".to_string()]);

    db.upsert_partition("hour_1", 2, "Coolverine", &gen_recordbatch())
        .unwrap();
    let data = db.table_names("hour_1", &[22], &[]).unwrap().unwrap();
    assert_eq!(data, vec!["Coolverine".to_string()]);

    db.upsert_partition("hour_1", 2, "20 Size", &gen_recordbatch())
        .unwrap();
    let data = db.table_names("hour_1", &[22], &[]).unwrap().unwrap();
    assert_eq!(data, vec!["20 Size".to_string(), "Coolverine".to_string()]);
}

fn build_predicates(from: i64, to: i64, column_predicates: Vec<Predicate>) -> Vec<Predicate> {
    let mut arr = vec![
        (
            TIME_COLUMN_NAME.to_string(),
            (Operator::GTE, Value::Scalar(Scalar::I64(from))),
        ),
        (
            TIME_COLUMN_NAME.to_string(),
            (Operator::LT, Value::Scalar(Scalar::I64(to))),
        ),
    ];

    arr.extend(column_predicates);
    arr
}

fn first_segment() -> RowGroup {
    let mut columns = Vec::new();
    let tc = ColumnType::Time(Column::from_i64(&[1_i64, 2, 3, 4, 5, 6][..]));
    columns.push(("time".to_string(), tc));

    let rc = ColumnType::Tag(Column::from_strs(
        &["west", "west", "east", "west", "south", "north"][..],
    ));
    columns.push(("region".to_string(), rc));

    let fc = ColumnType::Field(Column::from_u64(&[100_u64, 101, 200, 203, 203, 10][..]));
    columns.push(("count".to_string(), fc));

    RowGroup::new(6, columns).unwrap()
}

fn second_segment() -> RowGroup {
    let mut columns = Vec::new();
    let tc = ColumnType::Time(Column::from_i64(&[10_i64, 20, 30][..]));
    columns.push(("time".to_string(), tc));
    let rc = ColumnType::Tag(Column::from_strs(&["south", "north", "east"][..]));
    columns.push(("region".to_string(), rc));
    let fc = ColumnType::Field(Column::from_u64(&[1000_u64, 1002, 1200][..]));
    columns.push(("count".to_string(), fc));
    RowGroup::new(3, columns).unwrap()
}

#[test]
fn select() {
    // Build first segment.
    let segment = first_segment();

    let mut table = Table::new("cpu".to_owned(), segment);

    // Build another segment.
    let segment = second_segment();
    table.add_row_group(segment).unwrap();

    // Get all the results
    let results = table
        .select(
            &["time", "count", "region"],
            &build_predicates(1, 31, vec![]),
        )
        .unwrap();
    assert_eq!(
        format!("{}", &results.display()),
        "time,count,region
1,100,west
2,101,west
3,200,east
4,203,west
5,203,south
6,10,north
10,1000,south
20,1002,north
30,1200,east
",
    );

    // Apply a predicate `WHERE "region" != "south"`
    let results = table
        .select(
            &["time", "region"],
            &build_predicates(
                1,
                25,
                vec![(
                    "region".to_string(),
                    (Operator::NotEqual, Value::String("south".to_string())),
                )],
            ),
        )
        .unwrap();

    assert_eq!(
        format!("{}", &results.display()),
        "time,region
1,west
2,west
3,east
4,west
6,north
20,north
",
    );
}

#[test]
fn pruning_keeps_all_without_predicates_and_drops_disjoint_ranges() {
    let mut table = Table::new("cpu".to_owned(), first_segment());
    table.add_row_group(second_segment()).unwrap();

    assert_eq!(table.filter_row_groups(&[]).len(), 2);

    let eq = |v: i64| {
        vec![(
            "time".to_string(),
            (Operator::Equal, Value::Scalar(Scalar::I64(v))),
        )]
    };
    // 8 lies between the two time ranges [1, 6] and [10, 30].
    assert_eq!(table.filter_row_groups(&eq(8)).len(), 0);
    let kept = table.filter_row_groups(&eq(20));
    assert_eq!(kept.len(), 1);
    assert_eq!(kept[0].rows(), 3);

    let gt = vec![(
        "count".to_string(),
        (Operator::GT, Value::Scalar(Scalar::U64(203))),
    )];
    let kept = table.filter_row_groups(&gt);
    assert_eq!(kept.len(), 1);
    assert_eq!(kept[0].rows(), 3);

    let lte = vec![(
        "region".to_string(),
        (Operator::LTE, Value::String("dast".to_string())),
    )];
    assert_eq!(table.filter_row_groups(&lte).len(), 0);

    // A range test is conservative: 7 is within no row, yet `< 7` keeps the
    // first row group only.
    let lt = vec![(
        "time".to_string(),
        (Operator::LT, Value::Scalar(Scalar::I64(7))),
    )];
    assert_eq!(table.filter_row_groups(&lt).len(), 1);

    // A predicate on a column that the table lacks rules everything out.
    let missing = vec![(
        "host".to_string(),
        (Operator::Equal, Value::String("a".to_string())),
    )];
    assert_eq!(table.filter_row_groups(&missing).len(), 0);
    assert_eq!(table.select(&[], &missing).err(), Some(Error::ColumnNotFound));
    assert_eq!(
        table.select(&["nope"], &[]).err(),
        Some(Error::ColumnNotFound)
    );
}

#[test]
fn not_equal_is_ruled_out_only_for_a_constant_column() {
    let mut columns = Vec::new();
    columns.push((
        "time".to_string(),
        ColumnType::Time(Column::from_i64(&[1_i64, 2][..])),
    ));
    columns.push((
        "region".to_string(),
        ColumnType::Tag(Column::from_strs(&["west", "west"][..])),
    ));
    let rg = RowGroup::new(2, columns).unwrap();
    let west = Value::String("west".to_string());
    let east = Value::String("east".to_string());
    assert!(!rg.column_could_satisfy_predicate("region", Operator::NotEqual, &west));
    assert!(rg.column_could_satisfy_predicate("region", Operator::NotEqual, &east));
    assert!(rg.column_could_satisfy_predicate("region", Operator::Equal, &west));
    assert!(!rg.column_could_satisfy_predicate("region", Operator::Equal, &east));
    assert!(rg.column_could_satisfy_predicate(
        "time",
        Operator::GTE,
        &Value::Scalar(Scalar::I64(2))
    ));
    assert!(!rg.column_could_satisfy_predicate(
        "time",
        Operator::GT,
        &Value::Scalar(Scalar::I64(2))
    ));
}

#[test]
fn rollup_adds_sums_and_widens_ranges_in_any_order() {
    let mut a = Table::new("cpu".to_owned(), first_segment());
    a.add_row_group(second_segment()).unwrap();
    let mut b = Table::new("cpu".to_owned(), second_segment());
    b.add_row_group(first_segment()).unwrap();

    for table in [&a, &b] {
        assert_eq!(table.rows(), 9);
        assert_eq!(table.size(), 9 * 3 * 8);
        assert_eq!(table.len(), 2);
        assert_eq!(table.time_range(), Some((1, 30)));
        let ranges = table.column_ranges();
        assert_eq!(ranges.len(), 3);
        assert_eq!(ranges[0].0, "time");
        assert_eq!(
            ranges[0].1,
            Some((Value::Scalar(Scalar::I64(1)), Value::Scalar(Scalar::I64(30))))
        );
        assert_eq!(ranges[1].0, "region");
        assert_eq!(
            ranges[1].1,
            Some((
                Value::String("east".to_string()),
                Value::String("west".to_string())
            ))
        );
        assert_eq!(
            ranges[2].1,
            Some((
                Value::Scalar(Scalar::U64(10)),
                Value::Scalar(Scalar::U64(1200))
            ))
        );
    }

    let meta = MetaData::new(&first_segment());
    assert_eq!(meta.rows(), 6);
    assert_eq!(meta.time_range(), Some((1, 6)));
}

#[test]
fn dropping_a_row_group_recomputes_the_rollup() {
    let mut table = Table::new("cpu".to_owned(), first_segment());
    table.add_row_group(second_segment()).unwrap();
    assert!(table.drop_segment(2).is_none());
    let dropped = table.drop_segment(0).unwrap();
    assert_eq!(dropped.rows(), 6);
    assert_eq!(table.rows(), 3);
    assert_eq!(table.time_range(), Some((10, 30)));
    assert_eq!(table.len(), 1);
    table.drop_segment(0).unwrap();
    assert!(table.is_empty());
    assert_eq!(table.rows(), 0);
    assert_eq!(table.time_range(), None);
    assert_eq!(table.name(), "cpu");
}

#[test]
fn a_row_group_with_other_columns_is_refused() {
    let mut table = Table::new("cpu".to_owned(), first_segment());

    let mut columns = Vec::new();
    columns.push((
        "time".to_string(),
        ColumnType::Time(Column::from_i64(&[7_i64][..])),
    ));
    columns.push((
        "host".to_string(),
        ColumnType::Tag(Column::from_strs(&["a"][..])),
    ));
    columns.push((
        "count".to_string(),
        ColumnType::Field(Column::from_u64(&[1_u64][..])),
    ));
    let other_names = RowGroup::new(1, columns).unwrap();
    assert_eq!(
        table.add_row_group(other_names),
        Err(Error::SchemaMismatch)
    );

    let mut columns = Vec::new();
    columns.push((
        "time".to_string(),
        ColumnType::Time(Column::from_i64(&[7_i64][..])),
    ));
    columns.push((
        "region".to_string(),
        ColumnType::Field(Column::from_strs(&["a"][..])),
    ));
    columns.push((
        "count".to_string(),
        ColumnType::Field(Column::from_u64(&[1_u64][..])),
    ));
    let other_kinds = RowGroup::new(1, columns).unwrap();
    assert_eq!(
        table.add_row_group(other_kinds),
        Err(Error::SchemaMismatch)
    );
    assert_eq!(table.rows(), 6);
    assert_eq!(table.len(), 1);
}

#[test]
fn row_groups_need_one_time_column_and_equal_lengths() {
    let time = || ColumnType::Time(Column::from_i64(&[1_i64, 2][..]));
    let tag = || ColumnType::Tag(Column::from_strs(&["a", "b"][..]));

    assert!(RowGroup::new(2, vec![("time".to_string(), time())]).is_some());
    assert!(RowGroup::new(2, vec![("region".to_string(), tag())]).is_none());
    assert!(RowGroup::new(3, vec![("time".to_string(), time())]).is_none());
    assert!(RowGroup::new(2, vec![("when".to_string(), time())]).is_none());
    assert!(RowGroup::new(
        2,
        vec![("time".to_string(), time()), ("time".to_string(), tag())]
    )
    .is_none());
    assert!(RowGroup::new(
        2,
        vec![
            ("time".to_string(), time()),
            ("a".to_string(), tag()),
            ("a".to_string(), tag())
        ]
    )
    .is_none());
    assert!(RowGroup::new(
        2,
        vec![(
            "time".to_string(),
            ColumnType::Time(Column::from_u64(&[1_u64, 2][..]))
        )]
    )
    .is_none());
    assert!(RowGroup::new(0, vec![("time".to_string(), ColumnType::Time(Column::from_i64(&[][..])))]).is_none());
}

#[test]
fn ingest_checks_column_kinds_before_anything_else() {
    let mut db = Database::new();

    let mut batch = gen_recordbatch();
    batch.columns[1].kind = None;
    assert_eq!(
        db.upsert_partition("hour_1", 22, "a_table", &batch),
        Err(Error::ColumnTypeInvalid)
    );

    let mut batch = gen_recordbatch();
    batch.columns[0].kind = Some("label".to_owned());
    assert_eq!(
        db.upsert_partition("hour_1", 22, "a_table", &batch),
        Err(Error::ColumnTypeInvalid)
    );

    let mut batch = gen_recordbatch();
    batch.columns[2].kind = Some(FIELD_COLUMN_TYPE.to_owned());
    assert_eq!(
        db.upsert_partition("hour_1", 22, "a_table", &batch),
        Err(Error::ConversionError)
    );

    let mut batch = gen_recordbatch();
    batch.columns[1].values.pop();
    assert_eq!(
        db.upsert_partition("hour_1", 22, "a_table", &batch),
        Err(Error::ConversionError)
    );

    assert_eq!(db.rows(), 0);
    assert_eq!(db.size(), 0);
    assert_eq!(db.tables(), 0);
    assert!(db.partition_keys().is_empty());
}

#[test]
fn dropping_reports_what_is_missing_and_keeps_totals() {
    let mut db = Database::new();
    db.upsert_partition("hour_2", 1, "a", &gen_recordbatch())
        .unwrap();
    db.upsert_partition("hour_1", 7, "a", &gen_recordbatch())
        .unwrap();
    db.upsert_partition("hour_1", 3, "b", &gen_recordbatch())
        .unwrap();
    assert_eq!(
        db.partition_keys(),
        vec!["hour_1".to_string(), "hour_2".to_string()]
    );
    assert_eq!(db.size(), 3 * 72);
    let ids: Vec<u32> = db.chunks("hour_1").iter().map(|c| c.id()).collect();
    assert_eq!(ids, vec![3, 7]);
    assert!(db.chunks("hour_9").is_empty());

    assert_eq!(
        db.drop_partition("hour_9"),
        Err(Error::PartitionNotFound {
            key: "hour_9".to_string()
        })
    );
    assert_eq!(
        db.drop_chunk("hour_9", 3).err(),
        Some(Error::PartitionNotFound {
            key: "hour_9".to_string()
        })
    );
    assert_eq!(
        db.drop_chunk("hour_1", 4).err(),
        Some(Error::ChunkNotFound { id: 4 })
    );
    assert_eq!(
        db.get_chunk("hour_1", 4).err(),
        Some(Error::ChunkNotFound { id: 4 })
    );
    assert_eq!(db.rows(), 9);

    assert_eq!(db.get_chunk("hour_1", 7).unwrap().rows(), 3);
    let chunk = db.drop_chunk("hour_1", 3).unwrap();
    assert_eq!(chunk.id(), 3);
    assert_eq!(db.rows(), 6);
    assert_eq!(db.size(), 2 * 72);
    assert_eq!(db.drop_partition("hour_1"), Ok(()));
    assert_eq!(db.rows(), 3);
    assert_eq!(db.partition_keys(), vec!["hour_2".to_string()]);
    assert_eq!(db.table_names("hour_2", &[], &[]).unwrap(), Some(vec!["a".to_string()]));
    assert!(db.table_names("hour_1", &[], &[]).is_err());
}

#[test]
fn time_range_predicate_is_half_open() {
    let preds = time_range_predicate(10, 20);
    assert_eq!(preds.len(), 2);
    assert_eq!(preds[0].0, "time");
    assert_eq!(preds[0].1 .0, Operator::GTE);
    assert_eq!(preds[0].1 .1, Value::Scalar(Scalar::I64(10)));
    assert_eq!(preds[1].1 .0, Operator::LT);
    assert_eq!(preds[1].1 .1, Value::Scalar(Scalar::I64(20)));

    let table = Table::new("cpu".to_owned(), second_segment());
    let results = table.select(&["time"], &preds).unwrap();
    assert_eq!(results.display(), "time\n10\n");
    assert!(!results.is_empty());
}

#[test]
fn values_render_and_order() {
    assert_eq!(Value::Scalar(Scalar::I64(-42)).render(), "-42");
    assert_eq!(Value::Scalar(Scalar::I64(i64::MIN)).render(), "-9223372036854775808");
    assert_eq!(Value::Scalar(Scalar::U64(0)).render(), "0");
    assert_eq!(Value::Scalar(Scalar::F64(7)).render(), "#7");
    assert_eq!(Value::Boolean(true).render(), "true");
    assert_eq!(Value::ByteArray(vec![0, 171]).render(), "00AB");
    assert_eq!(Value::Null.render(), "NULL");
    assert!(Value::String("a".to_string()).lt(&Value::String("ab".to_string())));
    assert!(!Value::String("b".to_string()).lt(&Value::String("ab".to_string())));
    assert!(!Value::Scalar(Scalar::I64(1)).lt(&Value::Scalar(Scalar::U64(2))));
    assert!(Value::Scalar(Scalar::F64(f64_key(-1.5))).lt(&Value::Scalar(Scalar::F64(f64_key(0.25)))));
    assert!(!Value::Null.satisfies(Operator::NotEqual, &Value::Boolean(true)));
    let _ = AggregateType::Count;
}

#[test]
fn scan_reads_every_row_group_in_full() {
    let mut table = Table::new("cpu".to_owned(), first_segment());
    table.add_row_group(second_segment()).unwrap();
    let all = table.scan(&[]).unwrap();
    assert_eq!(all.values.len(), 2);
    assert_eq!(all.values[0].columns.len(), 3);
    assert_eq!(all.values[0].columns[0].0, "time");
    assert_eq!(all.values[1].columns[2].0, "count");
    assert_eq!(
        all.values[1].columns[2].1,
        vec![
            Value::Scalar(Scalar::U64(1000)),
            Value::Scalar(Scalar::U64(1002)),
            Value::Scalar(Scalar::U64(1200))
        ]
    );
    let regions = table.scan(&["region"]).unwrap();
    assert_eq!(
        regions.display(),
        "region\nwest\nwest\neast\nwest\nsouth\nnorth\nsouth\nnorth\neast\n"
    );
    assert_eq!(table.scan(&["nope"]).err(), Some(Error::ColumnNotFound));
}
