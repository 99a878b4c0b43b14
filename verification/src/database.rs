//! The database: every partition of one tenant, and the entry point for
//! ingest and queries.

use vstd::prelude::*;
use crate::batch::{formable, kinds_valid, lays_out, Batch};
use crate::chunk::{has_table, names_matching_table, table_of, Chunk, ChunkModel};
use crate::column::AggregateType;
use crate::error::Error;
use crate::partition::{
    chunk_of, chunk_row_groups, chunk_tables, first_chunk, has_chunk, partition_refusal,
    partition_upserted, partition_wf, Partition, PartitionModel,
};
use crate::row_group::{
    aggregate_columns, all_columns_exist, is_filter_result, is_group_result, predicate_columns,
    str_views, time_bounded, window_view, within_time_range, Predicate, ReadFilterResult,
    ReadGroupResult, RowGroup, RowGroupModel,
};
use crate::sums::{add_capped, capped, lemma_total_remove, lemma_total_update, total};
use crate::table::{
    has_tag_value, is_tag_key, kept, tag_column_among, ReadFilterResults, ReadGroupResults, Table,
    TableModel,
};
use crate::text::{ascending, insert_sorted, lists_name, str_eq};

verus! {

/// What a database denotes: its partitions in the order in which they were
/// first written, and the totals over them.
pub struct DatabaseModel {
    pub partitions: Seq<PartitionModel>,
    pub size: nat,
    pub rows: nat,
}

/// The sizes of a list of partitions.
pub open spec fn partition_sizes(partitions: Seq<PartitionModel>) -> Seq<nat> {
    Seq::new(partitions.len(), |p: int| partitions[p].size)
}

/// The row counts of a list of partitions.
pub open spec fn partition_rows(partitions: Seq<PartitionModel>) -> Seq<nat> {
    Seq::new(partitions.len(), |p: int| partitions[p].rows)
}

/// The numbers of tables of a list of partitions.
pub open spec fn partition_tables(partitions: Seq<PartitionModel>) -> Seq<nat> {
    Seq::new(partitions.len(), |p: int| total(chunk_tables(partitions[p].chunks)))
}

/// The numbers of row groups of a list of partitions.
pub open spec fn partition_row_groups(partitions: Seq<PartitionModel>) -> Seq<nat> {
    Seq::new(partitions.len(), |p: int| total(chunk_row_groups(partitions[p].chunks)))
}

/// Whether partition `p` has the key `key`.
pub open spec fn is_partition(partitions: Seq<PartitionModel>, key: Seq<char>, p: int) -> bool {
    0 <= p < partitions.len() && partitions[p].key == key
}

/// Whether some partition has the key `key`.
pub open spec fn has_partition(partitions: Seq<PartitionModel>, key: Seq<char>) -> bool {
    exists|p: int| is_partition(partitions, key, p)
}

/// The position of the partition with the key `key`, where there is one.
pub open spec fn partition_of(partitions: Seq<PartitionModel>, key: Seq<char>) -> int {
    choose|p: int| is_partition(partitions, key, p)
}

/// The invariant of a database: well-formed partitions with distinct keys,
/// and totals that are the sums over the partitions.
pub open spec fn database_wf(m: DatabaseModel) -> bool {
    &&& forall|p: int| 0 <= p < m.partitions.len() ==> partition_wf(#[trigger] m.partitions[p])
    &&& forall|p: int, q: int|
        0 <= p < q < m.partitions.len() ==> (#[trigger] m.partitions[p]).key != (
        #[trigger] m.partitions[q]).key
    &&& m.size == total(partition_sizes(m.partitions))
    &&& m.rows == total(partition_rows(m.partitions))
    &&& m.size <= u64::MAX
    &&& m.rows <= u64::MAX
}

/// The partition that a first row group starts.
pub open spec fn first_partition(
    key: Seq<char>,
    id: nat,
    name: Seq<char>,
    rg: RowGroupModel,
) -> PartitionModel {
    PartitionModel { key, chunks: seq![first_chunk(id, name, rg)], size: rg.size, rows: rg.rows }
}

/// Why a database refuses a row group, if it does: its totals would
/// overflow, or the partition that is to take the row group refuses it.
pub open spec fn database_refusal(
    m: DatabaseModel,
    key: Seq<char>,
    id: nat,
    name: Seq<char>,
    rg: RowGroupModel,
) -> Option<Error> {
    if m.size + rg.size > u64::MAX || m.rows + rg.rows > u64::MAX {
        Some(Error::ConversionError)
    } else if has_partition(m.partitions, key) {
        partition_refusal(m.partitions[partition_of(m.partitions, key)], id, name, rg)
    } else {
        None
    }
}

/// The database after the row group has been written to the table `name`
/// of chunk `id` in the partition `key`: the partition takes it, or a new
/// partition is added last.
pub open spec fn database_upserted(
    m: DatabaseModel,
    key: Seq<char>,
    id: nat,
    name: Seq<char>,
    rg: RowGroupModel,
) -> DatabaseModel {
    DatabaseModel {
        partitions: if has_partition(m.partitions, key) {
            m.partitions.update(
                partition_of(m.partitions, key),
                partition_upserted(m.partitions[partition_of(m.partitions, key)], id, name, rg),
            )
        } else {
            m.partitions.push(first_partition(key, id, name, rg))
        },
        size: m.size + rg.size,
        rows: m.rows + rg.rows,
    }
}

/// Whether `name` is the name of a table, in one of the first `n` chunks,
/// that may hold rows meeting every predicate.
pub open spec fn names_matching_chunk(
    p: PartitionModel,
    predicates: Seq<Predicate>,
    n: int,
    name: Seq<char>,
) -> bool {
    exists|c: int|
        0 <= c < n && names_matching_table(
            (#[trigger] p.chunks[c]).tables,
            predicates,
            p.chunks[c].tables.len() as int,
            name,
        )
}

/// The table named `name` of a chunk, as a list of one table or none.
pub open spec fn chunk_named(c: ChunkModel, name: Seq<char>) -> Seq<TableModel> {
    if has_table(c.tables, name) {
        seq![c.tables[table_of(c.tables, name)]]
    } else {
        Seq::empty()
    }
}

/// The tables named `name` in the first `n` chunks of a partition, in the
/// order of the chunks.
pub open spec fn partition_named(p: PartitionModel, name: Seq<char>, n: int) -> Seq<TableModel>
    decreases n,
{
    if n <= 0 {
        Seq::empty()
    } else {
        partition_named(p, name, n - 1) + chunk_named(p.chunks[n - 1], name)
    }
}

/// The tables named `name` in the first `n` partitions of a database, in
/// the order of the partitions and, within each, of the chunks.
pub open spec fn database_named(m: DatabaseModel, name: Seq<char>, n: int) -> Seq<TableModel>
    decreases n,
{
    if n <= 0 {
        Seq::empty()
    } else {
        database_named(m, name, n - 1) + partition_named(
            m.partitions[n - 1],
            name,
            m.partitions[n - 1].chunks.len() as int,
        )
    }
}

/// Whether a table's time range meets the half-open range `[from, to)`. A
/// table without rows meets no range.
pub open spec fn overlaps(t: TableModel, from: int, to: int) -> bool {
    match t.meta.time_range {
        Some((lo, hi)) => lo < to && from <= hi,
        None => false,
    }
}

/// The number of results that a table contributes to a query over
/// `[from, to)`: one for each row group that pruning keeps, or none when the
/// table's time range does not meet the range of the query.
pub open spec fn contribution(t: TableModel, predicates: Seq<Predicate>, from: int, to: int) -> int {
    if overlaps(t, from, to) {
        kept(t.row_groups, predicates, t.row_groups.len() as int).len() as int
    } else {
        0
    }
}

/// Whether `values` holds the selections of the listed tables one after the
/// other: for each table whose time range meets `[from, to)`, one selection
/// for each row group that pruning keeps, in table order.
pub open spec fn selected_from(
    values: Seq<ReadFilterResult>,
    tables: Seq<TableModel>,
    columns: Seq<Seq<char>>,
    predicates: Seq<Predicate>,
    from: int,
    to: int,
) -> bool
    decreases tables.len(),
{
    if tables.len() == 0 {
        values.len() == 0
    } else {
        let t = tables.last();
        let k = contribution(t, predicates, from, to);
        let survivors = kept(t.row_groups, predicates, t.row_groups.len() as int);
        &&& values.len() >= k
        &&& selected_from(
            values.take(values.len() - k),
            tables.drop_last(),
            columns,
            predicates,
            from,
            to,
        )
        &&& forall|i: int|
            0 <= i < k ==> is_filter_result(
                #[trigger] values[values.len() - k + i],
                t.row_groups[survivors[i]],
                columns,
                predicates,
            )
    }
}

/// Whether `values` holds the grouped aggregates of the listed tables one
/// after the other: for each table whose time range meets `[from, to)`, one
/// result for each row group that pruning keeps, in table order.
pub open spec fn grouped_from(
    values: Seq<ReadGroupResult>,
    tables: Seq<TableModel>,
    predicates: Seq<Predicate>,
    group_columns: Seq<Seq<char>>,
    window: Option<(int, int)>,
    aggregates: Seq<(String, AggregateType)>,
    from: int,
    to: int,
) -> bool
    decreases tables.len(),
{
    if tables.len() == 0 {
        values.len() == 0
    } else {
        let t = tables.last();
        let k = contribution(t, predicates, from, to);
        let survivors = kept(t.row_groups, predicates, t.row_groups.len() as int);
        &&& values.len() >= k
        &&& grouped_from(
            values.take(values.len() - k),
            tables.drop_last(),
            predicates,
            group_columns,
            window,
            aggregates,
            from,
            to,
        )
        &&& forall|i: int|
            0 <= i < k ==> is_group_result(
                #[trigger] values[values.len() - k + i],
                t.row_groups[survivors[i]],
                predicates,
                group_columns,
                window,
                aggregates,
            )
    }
}

/// Whether every listed table whose time range meets `[from, to)` has all of
/// the named columns.
pub open spec fn tables_have(
    tables: Seq<TableModel>,
    names: Seq<Seq<char>>,
    from: int,
    to: int,
) -> bool {
    forall|t: int|
        0 <= t < tables.len() && overlaps(#[trigger] tables[t], from, to) ==> all_columns_exist(
            tables[t].meta.names,
            names,
        )
}

/// Whether `r` is the outcome of asking the database for the grouped
/// aggregates of the table `name` over `[from, to)`: the results of the
/// tables that are read, one after the other, or nothing when there is none;
/// or the failure to find a column in a table that is read.
pub open spec fn aggregate_outcome(
    r: Result<Option<ReadGroupResults>, Error>,
    m: DatabaseModel,
    name: Seq<char>,
    from: int,
    to: int,
    predicates: Seq<Predicate>,
    group_columns: Seq<Seq<char>>,
    aggregates: Seq<(String, AggregateType)>,
    window: Option<(int, int)>,
) -> bool {
    let tables = database_named(m, name, m.partitions.len() as int);
    match r {
        Ok(found) => exists|combined: Seq<Predicate>|
            {
                &&& #[trigger] time_bounded(combined, from, to, predicates)
                &&& tables_have(tables, group_columns, from, to)
                &&& tables_have(tables, aggregate_columns(aggregates), from, to)
                &&& tables_have(tables, predicate_columns(combined), from, to)
                &&& match found {
                    Some(res) => res.values@.len() > 0 && grouped_from(
                        res.values@,
                        tables,
                        combined,
                        group_columns,
                        window,
                        aggregates,
                        from,
                        to,
                    ),
                    None => grouped_from(
                        Seq::empty(),
                        tables,
                        combined,
                        group_columns,
                        window,
                        aggregates,
                        from,
                        to,
                    ),
                }
            },
        Err(e) => e is ColumnNotFound && exists|combined: Seq<Predicate>|
            #[trigger] time_bounded(combined, from, to, predicates) && !(tables_have(
                tables,
                group_columns,
                from,
                to,
            ) && tables_have(tables, aggregate_columns(aggregates), from, to) && tables_have(
                tables,
                predicate_columns(combined),
                from,
                to,
            )),
    }
}

/// Whether `name` is a tag key, under the predicates, of one of the first
/// `n` listed tables whose time range meets `[from, to)`.
pub open spec fn tag_key_of_tables(
    tables: Seq<TableModel>,
    predicates: Seq<Predicate>,
    from: int,
    to: int,
    name: Seq<char>,
    n: int,
) -> bool {
    exists|t: int|
        0 <= t < n && t < tables.len() && overlaps(tables[t], from, to) && #[trigger] is_tag_key(
            tables[t],
            predicates,
            name,
        )
}

/// Whether one of the first `n` listed tables whose time range meets
/// `[from, to)` holds the text `v` in its column `name`, in a row that
/// meets every predicate.
pub open spec fn tag_value_of_tables(
    tables: Seq<TableModel>,
    predicates: Seq<Predicate>,
    from: int,
    to: int,
    name: Seq<char>,
    v: Seq<char>,
    n: int,
) -> bool {
    exists|t: int|
        0 <= t < n && t < tables.len() && overlaps(tables[t], from, to) && #[trigger] has_tag_value(
            tables[t],
            predicates,
            name,
            v,
        )
}

/// Whether `name` is a tag column of one of the first `n` listed tables
/// whose time range meets `[from, to)`.
pub open spec fn tag_column_of_tables(
    tables: Seq<TableModel>,
    from: int,
    to: int,
    name: Seq<char>,
    n: int,
) -> bool {
    exists|t: int|
        0 <= t < n && t < tables.len() && overlaps(tables[t], from, to)
            && #[trigger] tag_column_among(
            tables[t].meta,
            name,
            tables[t].meta.names.len() as int,
        )
}

/// Whether `entry` carries the name `name` and, in ascending order, exactly
/// the texts that the listed tables hold in their column of that name.
pub open spec fn tag_values_of_tables_are(
    entry: (String, Vec<String>),
    tables: Seq<TableModel>,
    predicates: Seq<Predicate>,
    from: int,
    to: int,
    name: Seq<char>,
) -> bool {
    &&& entry.0@ == name
    &&& ascending(entry.1@)
    &&& forall|v: Seq<char>|
        #[trigger] lists_name(entry.1@, v) <==> tag_value_of_tables(
            tables,
            predicates,
            from,
            to,
            name,
            v,
            tables.len() as int,
        )
}

/// The models of a list of borrowed tables.
pub open spec fn borrowed_views(tables: Seq<&Table>) -> Seq<TableModel> {
    Seq::new(tables.len(), |t: int| tables[t]@)
}

/// Among distinct keys a key belongs to one partition only.
pub proof fn lemma_partition_unique(m: DatabaseModel, key: Seq<char>, p: int)
    requires
        database_wf(m),
        is_partition(m.partitions, key, p),
    ensures
        has_partition(m.partitions, key),
        partition_of(m.partitions, key) == p,
{
    let q = partition_of(m.partitions, key);
    assert(is_partition(m.partitions, key, q));
    if q < p {
        assert(m.partitions[q].key != m.partitions[p].key);
    } else if p < q {
        assert(m.partitions[p].key != m.partitions[q].key);
    }
}

/// The models of a list of partitions.
pub open spec fn partition_views(partitions: Seq<Partition>) -> Seq<PartitionModel> {
    partitions.map_values(|p: Partition| p@)
}

/// Whether one of the first `n` partitions has the key `key`.
pub open spec fn has_key(partitions: Seq<PartitionModel>, n: int, key: Seq<char>) -> bool {
    exists|p: int| 0 <= p < n && (#[trigger] partitions[p]).key == key
}

/// All data of one tenant, by partition key.
#[derive(Debug)]
pub struct Database {
    partitions: Vec<Partition>,
    size: u64,
    rows: u64,
}

impl View for Database {
    type V = DatabaseModel;

    closed spec fn view(&self) -> DatabaseModel {
        DatabaseModel {
            partitions: partition_views(self.partitions@),
            size: self.size as nat,
            rows: self.rows as nat,
        }
    }
}

impl Database {
    /// The invariant of a database.
    pub open spec fn wf(&self) -> bool {
        database_wf(self@)
    }

    /// A database without data.
    pub fn new() -> (db: Database)
        ensures
            db.wf(),
            db@.partitions.len() == 0,
            db@.size == 0,
            db@.rows == 0,
    {
        let db = Database { partitions: Vec::new(), size: 0, rows: 0 };
        proof {
            assert(partition_sizes(db@.partitions) =~= Seq::<nat>::empty());
            assert(partition_rows(db@.partitions) =~= Seq::<nat>::empty());
        }
        db
    }

    /// The position of the partition with the key `key`, if there is one.
    pub fn find_partition(&self, key: &str) -> (r: Option<usize>)
        requires
            self.wf(),
        ensures
            match r {
                Some(p) => is_partition(self@.partitions, key@, p as int) && has_partition(
                    self@.partitions,
                    key@,
                ) && partition_of(self@.partitions, key@) == p,
                None => !has_partition(self@.partitions, key@),
            },
    {
        let mut p: usize = 0;
        while p < self.partitions.len()
            invariant
                self.wf(),
                p <= self.partitions.len(),
                forall|q: int| 0 <= q < p ==> !is_partition(self@.partitions, key@, q),
            decreases self.partitions.len() - p,
        {
            if str_eq(self.partitions[p].key(), key) {
                proof {
                    lemma_partition_unique(self@, key@, p as int);
                }
                return Some(p);
            }
            p += 1;
        }
        None
    }

    /// The partition at position `p`.
    pub fn partition(&self, p: usize) -> (r: &Partition)
        requires
            self.wf(),
            p < self@.partitions.len(),
        ensures
            r@ == self@.partitions[p as int],
            r.wf(),
    {
        &self.partitions[p]
    }

    /// The chunks of the partition with the given key, in ascending order of
    /// their ids; none when there is no such partition.
    pub fn chunks(&self, partition_key: &str) -> (r: Vec<&Chunk>)
        requires
            self.wf(),
        ensures
            if has_partition(self@.partitions, partition_key@) {
                let chunks = self@.partitions[partition_of(self@.partitions, partition_key@)].chunks;
                r@.len() == chunks.len() && forall|c: int|
                    0 <= c < r@.len() ==> (#[trigger] r@[c])@ == chunks[c] && r@[c].wf()
            } else {
                r@.len() == 0
            },
    {
        let mut out: Vec<&Chunk> = Vec::new();
        match self.find_partition(partition_key) {
            Some(p) => {
                let chunks = self.partitions[p].chunks();
                let mut c: usize = 0;
                while c < chunks.len()
                    invariant
                        self.wf(),
                        p < self@.partitions.len(),
                        crate::partition::chunk_views(chunks@) == self@.partitions[p as int].chunks,
                        c <= chunks.len(),
                        out@.len() == c,
                        forall|d: int|
                            0 <= d < c ==> (#[trigger] out@[d])@ == self@.partitions[p as int].chunks[d]
                                && out@[d].wf(),
                    decreases chunks.len() - c,
                {
                    assert(chunks@[c as int]@ == self@.partitions[p as int].chunks[c as int]);
                    out.push(&chunks[c]);
                    c += 1;
                }
                out
            },
            None => out,
        }
    }

    /// Writes a row group to the table `table_name` of the chunk `chunk_id`
    /// in the partition `partition_key`, creating whichever of the three
    /// does not exist yet. A row group that is refused leaves the database as
    /// it was.
    pub fn upsert_row_group(
        &mut self,
        partition_key: &str,
        chunk_id: u32,
        table_name: &str,
        row_group: RowGroup,
    ) -> (r: Result<(), Error>)
        requires
            old(self).wf(),
            row_group.wf(),
        ensures
            final(self).wf(),
            match database_refusal(
                old(self)@,
                partition_key@,
                chunk_id as nat,
                table_name@,
                row_group@,
            ) {
                Some(e) => r == Err::<(), Error>(e) && final(self)@ == old(self)@,
                None => r is Ok && final(self)@ == database_upserted(
                    old(self)@,
                    partition_key@,
                    chunk_id as nat,
                    table_name@,
                    row_group@,
                ),
            },
    {
        let ghost before = self@;
        let ghost rg = row_group@;
        let size = match self.size.checked_add(row_group.size()) {
            Some(size) => size,
            None => {
                return Err(Error::ConversionError);
            },
        };
        let rows = match self.rows.checked_add(row_group.rows() as u64) {
            Some(rows) => rows,
            None => {
                return Err(Error::ConversionError);
            },
        };
        match self.find_partition(partition_key) {
            Some(p) => {
                let ghost partition_before = self.partitions@[p as int]@;
                match self.partitions[p].upsert_chunk(chunk_id, table_name, row_group) {
                    Ok(_) => {
                        self.size = size;
                        self.rows = rows;
                        proof {
                            let grown = partition_upserted(
                                partition_before,
                                chunk_id as nat,
                                table_name@,
                                rg,
                            );
                            assert(self@.partitions =~= before.partitions.update(p as int, grown));
                            assert(partition_sizes(self@.partitions) =~= partition_sizes(
                                before.partitions,
                            ).update(p as int, grown.size));
                            assert(partition_rows(self@.partitions) =~= partition_rows(
                                before.partitions,
                            ).update(p as int, grown.rows));
                            lemma_total_update(
                                partition_sizes(before.partitions),
                                p as int,
                                grown.size,
                            );
                            lemma_total_update(
                                partition_rows(before.partitions),
                                p as int,
                                grown.rows,
                            );
                            assert forall|a: int, b: int|
                                0 <= a < b < self@.partitions.len() implies (
                            #[trigger] self@.partitions[a]).key != (
                            #[trigger] self@.partitions[b]).key by {
                                assert(self@.partitions[a].key == before.partitions[a].key);
                                assert(self@.partitions[b].key == before.partitions[b].key);
                            }
                        }
                        Ok(())
                    },
                    Err(e) => {
                        assert(self@.partitions =~= before.partitions);
                        Err(e)
                    },
                }
            },
            None => {
                let table = Table::new(table_name.to_owned(), row_group);
                let partition = Partition::new(partition_key, Chunk::new(chunk_id, table));
                proof {
                    crate::table::lemma_rollup_single(rg.names, rg.kinds, rg);
                    assert(partition@ == first_partition(
                        partition_key@,
                        chunk_id as nat,
                        table_name@,
                        rg,
                    ));
                }
                self.partitions.push(partition);
                self.size = size;
                self.rows = rows;
                proof {
                    let first = first_partition(partition_key@, chunk_id as nat, table_name@, rg);
                    assert(self@.partitions =~= before.partitions.push(first));
                    assert(partition_sizes(self@.partitions).drop_last() =~= partition_sizes(
                        before.partitions,
                    ));
                    assert(partition_rows(self@.partitions).drop_last() =~= partition_rows(
                        before.partitions,
                    ));
                    assert forall|a: int, b: int| 0 <= a < b < self@.partitions.len() implies (
                    #[trigger] self@.partitions[a]).key != (#[trigger] self@.partitions[b]).key by {
                        if b == before.partitions.len() {
                            assert(!is_partition(before.partitions, partition_key@, a));
                        }
                    }
                }
                Ok(())
            },
        }
    }

    /// Ingests a batch into the table `table_name` of the chunk `chunk_id` in
    /// the partition `partition_key`.
    ///
    /// The batch is refused with `ColumnTypeInvalid` when one of its columns
    /// declares no recognised kind, and with `ConversionError` when its
    /// columns cannot form a row group. Otherwise it is laid out as a row
    /// group and written as `upsert_row_group` writes it. A batch that is
    /// refused leaves the database as it was.
    pub fn upsert_partition(
        &mut self,
        partition_key: &str,
        chunk_id: u32,
        table_name: &str,
        table_data: &Batch,
    ) -> (r: Result<(), Error>)
        requires
            old(self).wf(),
        ensures
            final(self).wf(),
            !kinds_valid(table_data.columns@) ==> r == Err::<(), Error>(Error::ColumnTypeInvalid)
                && final(self)@ == old(self)@,
            kinds_valid(table_data.columns@) && !formable(table_data.columns@) ==> r == Err::<
                (),
                Error,
            >(Error::ConversionError) && final(self)@ == old(self)@,
            kinds_valid(table_data.columns@) && formable(table_data.columns@) ==> exists|
                rg: RowGroupModel,
            |
                {
                    &&& #[trigger] lays_out(table_data.columns@, rg)
                    &&& match database_refusal(
                        old(self)@,
                        partition_key@,
                        chunk_id as nat,
                        table_name@,
                        rg,
                    ) {
                        Some(e) => r == Err::<(), Error>(e) && final(self)@ == old(self)@,
                        None => r is Ok && final(self)@ == database_upserted(
                            old(self)@,
                            partition_key@,
                            chunk_id as nat,
                            table_name@,
                            rg,
                        ),
                    }
                },
    {
        match table_data.to_row_group() {
            Ok(row_group) => {
                let ghost rg = row_group@;
                let r = self.upsert_row_group(partition_key, chunk_id, table_name, row_group);
                proof {
                    crate::batch::lemma_lays_out_formable(table_data.columns@, rg);
                    assert(lays_out(table_data.columns@, rg));
                }
                r
            },
            Err(e) => {
                match e {
                    Error::ColumnTypeInvalid => Err(Error::ColumnTypeInvalid),
                    _ => Err(Error::ConversionError),
                }
            },
        }
    }

    /// Removes the partition with the given key and everything in it.
    pub fn drop_partition(&mut self, partition_key: &str) -> (r: Result<(), Error>)
        requires
            old(self).wf(),
        ensures
            final(self).wf(),
            match r {
                Ok(_) => {
                    let p = partition_of(old(self)@.partitions, partition_key@);
                    &&& has_partition(old(self)@.partitions, partition_key@)
                    &&& final(self)@.partitions == old(self)@.partitions.remove(p)
                    &&& final(self)@.size + old(self)@.partitions[p].size == old(self)@.size
                    &&& final(self)@.rows + old(self)@.partitions[p].rows == old(self)@.rows
                },
                Err(e) => {
                    &&& !has_partition(old(self)@.partitions, partition_key@)
                    &&& e is PartitionNotFound
                    &&& e->key@ == partition_key@
                    &&& final(self)@ == old(self)@
                },
            },
    {
        let ghost before = self@;
        match self.find_partition(partition_key) {
            Some(p) => {
                let partition = self.partitions.remove(p);
                proof {
                    assert(self@.partitions =~= before.partitions.remove(p as int));
                    assert(partition_sizes(self@.partitions) =~= partition_sizes(
                        before.partitions,
                    ).remove(p as int));
                    assert(partition_rows(self@.partitions) =~= partition_rows(
                        before.partitions,
                    ).remove(p as int));
                    lemma_total_remove(partition_sizes(before.partitions), p as int);
                    lemma_total_remove(partition_rows(before.partitions), p as int);
                }
                self.size = self.size - partition.size();
                self.rows = self.rows - partition.rows();
                proof {
                    assert forall|a: int, b: int| 0 <= a < b < self@.partitions.len() implies (
                    #[trigger] self@.partitions[a]).key != (#[trigger] self@.partitions[b]).key by {
                        let ia = if a < p { a } else { a + 1 };
                        let ib = if b < p { b } else { b + 1 };
                        assert(self@.partitions[a] == before.partitions[ia]);
                        assert(self@.partitions[b] == before.partitions[ib]);
                        assert(before.partitions[ia].key != before.partitions[ib].key);
                    }
                    assert forall|c: int| 0 <= c < self@.partitions.len() implies partition_wf(
                        #[trigger] self@.partitions[c],
                    ) by {
                        let ic = if c < p { c } else { c + 1 };
                        assert(self@.partitions[c] == before.partitions[ic]);
                    }
                }
                Ok(())
            },
            None => Err(Error::PartitionNotFound { key: partition_key.to_owned() }),
        }
    }

    /// Removes the chunk `chunk_id` of the partition `partition_key` and
    /// hands it out. Nothing is removed when the partition or the chunk does
    /// not exist.
    pub fn drop_chunk(&mut self, partition_key: &str, chunk_id: u32) -> (r: Result<Chunk, Error>)
        requires
            old(self).wf(),
        ensures
            final(self).wf(),
            match r {
                Ok(chunk) => {
                    let p = partition_of(old(self)@.partitions, partition_key@);
                    let chunks = old(self)@.partitions[p].chunks;
                    &&& has_partition(old(self)@.partitions, partition_key@)
                    &&& has_chunk(chunks, chunk_id as nat)
                    &&& chunk@ == chunks[chunk_of(chunks, chunk_id as nat)]
                    &&& final(self)@.partitions.len() == old(self)@.partitions.len()
                    &&& final(self)@.partitions[p].chunks == chunks.remove(
                        chunk_of(chunks, chunk_id as nat),
                    )
                    &&& forall|q: int|
                        0 <= q < old(self)@.partitions.len() && q != p ==> (
                        #[trigger] final(self)@.partitions[q]) == old(self)@.partitions[q]
                    &&& final(self)@.size + chunk@.size == old(self)@.size
                    &&& final(self)@.rows + chunk@.rows == old(self)@.rows
                },
                Err(e) => {
                    &&& final(self)@ == old(self)@
                    &&& if has_partition(old(self)@.partitions, partition_key@) {
                        &&& !has_chunk(
                            old(self)@.partitions[partition_of(
                                old(self)@.partitions,
                                partition_key@,
                            )].chunks,
                            chunk_id as nat,
                        )
                        &&& e == (Error::ChunkNotFound { id: chunk_id })
                    } else {
                        e is PartitionNotFound && e->key@ == partition_key@
                    }
                },
            },
    {
        let ghost before = self@;
        let p = match self.find_partition(partition_key) {
            Some(p) => p,
            None => {
                return Err(Error::PartitionNotFound { key: partition_key.to_owned() });
            },
        };
        let dropped = self.partitions[p].drop_chunk(chunk_id);
        let ghost partition_after = self.partitions@[p as int]@;
        match dropped {
            Ok(chunk) => {
                proof {
                    assert(self@.partitions =~= before.partitions.update(p as int, partition_after));
                    assert(partition_sizes(self@.partitions) =~= partition_sizes(
                        before.partitions,
                    ).update(p as int, partition_after.size));
                    assert(partition_rows(self@.partitions) =~= partition_rows(
                        before.partitions,
                    ).update(p as int, partition_after.rows));
                    lemma_total_update(
                        partition_sizes(before.partitions),
                        p as int,
                        partition_after.size,
                    );
                    lemma_total_update(
                        partition_rows(before.partitions),
                        p as int,
                        partition_after.rows,
                    );
                }
                self.size = self.size - chunk.size();
                self.rows = self.rows - chunk.rows();
                proof {
                    assert forall|a: int, b: int| 0 <= a < b < self@.partitions.len() implies (
                    #[trigger] self@.partitions[a]).key != (#[trigger] self@.partitions[b]).key by {
                        assert(self@.partitions[a].key == before.partitions[a].key);
                        assert(self@.partitions[b].key == before.partitions[b].key);
                    }
                }
                Ok(chunk)
            },
            Err(e) => {
                assert(self@.partitions =~= before.partitions);
                Err(e)
            },
        }
    }

    /// The chunk `chunk_id` of the partition `partition_key`.
    pub fn get_chunk(&self, partition_key: &str, chunk_id: u32) -> (r: Result<&Chunk, Error>)
        requires
            self.wf(),
        ensures
            match r {
                Ok(chunk) => {
                    let chunks = self@.partitions[partition_of(
                        self@.partitions,
                        partition_key@,
                    )].chunks;
                    &&& has_partition(self@.partitions, partition_key@)
                    &&& has_chunk(chunks, chunk_id as nat)
                    &&& chunk@ == chunks[chunk_of(chunks, chunk_id as nat)]
                    &&& chunk.wf()
                },
                Err(e) => if has_partition(self@.partitions, partition_key@) {
                    &&& !has_chunk(
                        self@.partitions[partition_of(self@.partitions, partition_key@)].chunks,
                        chunk_id as nat,
                    )
                    &&& e == (Error::ChunkNotFound { id: chunk_id })
                } else {
                    e is PartitionNotFound && e->key@ == partition_key@
                },
            },
    {
        match self.find_partition(partition_key) {
            Some(p) => self.partitions[p].get_chunk(chunk_id),
            None => Err(Error::PartitionNotFound { key: partition_key.to_owned() }),
        }
    }

    /// The keys of all partitions, in ascending order.
    pub fn partition_keys(&self) -> (keys: Vec<String>)
        ensures
            ascending(keys@),
            forall|key: Seq<char>|
                #[trigger] lists_name(keys@, key) <==> has_key(
                    self@.partitions,
                    self@.partitions.len() as int,
                    key,
                ),
    {
        let mut keys: Vec<String> = Vec::new();
        let mut p: usize = 0;
        while p < self.partitions.len()
            invariant
                p <= self.partitions.len(),
                ascending(keys@),
                forall|key: Seq<char>|
                    #[trigger] lists_name(keys@, key) <==> has_key(self@.partitions, p as int, key),
            decreases self.partitions.len() - p,
        {
            let ghost before = keys@;
            insert_sorted(&mut keys, self.partitions[p].key());
            proof {
                let added = self@.partitions[p as int].key;
                assert forall|key: Seq<char>| #[trigger]
                    lists_name(keys@, key) <==> has_key(self@.partitions, p + 1, key) by {
                    if has_key(self@.partitions, p + 1, key) {
                        let q = choose|q: int|
                            0 <= q < p + 1 && (#[trigger] self@.partitions[q]).key == key;
                        if q < p {
                            assert(has_key(self@.partitions, p as int, key));
                            assert(lists_name(before, key));
                        }
                    }
                    if lists_name(keys@, key) {
                        if lists_name(before, key) {
                            assert(has_key(self@.partitions, p as int, key));
                            let q = choose|q: int|
                                0 <= q < p && (#[trigger] self@.partitions[q]).key == key;
                            assert(0 <= q < p + 1 && self@.partitions[q].key == key);
                        } else {
                            assert(key == added);
                            assert(self@.partitions[p as int].key == key);
                        }
                    }
                }
            }
            p += 1;
        }
        keys
    }

    /// The accounted size of the database in bytes.
    pub fn size(&self) -> (n: u64)
        ensures
            n == self@.size,
    {
        self.size
    }

    /// The number of rows in the database.
    pub fn rows(&self) -> (n: u64)
        ensures
            n == self@.rows,
    {
        self.rows
    }

    /// The number of tables under all partitions, capped at the greatest
    /// `usize`. A table name that occurs in several chunks counts once for
    /// each chunk.
    pub fn tables(&self) -> (n: usize)
        ensures
            n == capped(total(partition_tables(self@.partitions))),
    {
        let ghost counts = partition_tables(self@.partitions);
        let mut n: usize = 0;
        let mut p: usize = 0;
        assert(counts.take(0) =~= Seq::<nat>::empty());
        while p < self.partitions.len()
            invariant
                p <= self.partitions.len(),
                counts == partition_tables(self@.partitions),
                n == capped(total(counts.take(p as int))),
            decreases self.partitions.len() - p,
        {
            assert(counts.take(p + 1).drop_last() =~= counts.take(p as int));
            assert(counts.take(p + 1).last() == total(
                chunk_tables(self.partitions@[p as int]@.chunks),
            ));
            n = add_capped(n, self.partitions[p].tables());
            p += 1;
        }
        assert(counts.take(self.partitions@.len() as int) =~= counts);
        n
    }

    /// The number of row groups under all partitions, capped at the greatest
    /// `usize`.
    pub fn row_groups(&self) -> (n: usize)
        ensures
            n == capped(total(partition_row_groups(self@.partitions))),
    {
        let ghost counts = partition_row_groups(self@.partitions);
        let mut n: usize = 0;
        let mut p: usize = 0;
        assert(counts.take(0) =~= Seq::<nat>::empty());
        while p < self.partitions.len()
            invariant
                p <= self.partitions.len(),
                counts == partition_row_groups(self@.partitions),
                n == capped(total(counts.take(p as int))),
            decreases self.partitions.len() - p,
        {
            assert(counts.take(p + 1).drop_last() =~= counts.take(p as int));
            assert(counts.take(p + 1).last() == total(
                chunk_row_groups(self.partitions@[p as int]@.chunks),
            ));
            n = add_capped(n, self.partitions[p].row_groups());
            p += 1;
        }
        assert(counts.take(self.partitions@.len() as int) =~= counts);
        n
    }

    /// The names of the tables of the partition that may hold rows meeting
    /// every predicate: each name once, in ascending order, or nothing when
    /// there is no such table. The names are gathered from every chunk of the
    /// partition, whichever chunk ids are given.
    pub fn table_names(&self, partition_key: &str, chunk_ids: &[u32], predicates: &[Predicate]) -> (r:
        Result<Option<Vec<String>>, Error>)
        requires
            self.wf(),
        ensures
            match r {
                Ok(found) => {
                    let p = self@.partitions[partition_of(self@.partitions, partition_key@)];
                    &&& has_partition(self@.partitions, partition_key@)
                    &&& match found {
                        Some(names) => {
                            &&& names@.len() > 0
                            &&& ascending(names@)
                            &&& forall|name: Seq<char>|
                                #[trigger] lists_name(names@, name) <==> names_matching_chunk(
                                    p,
                                    predicates@,
                                    p.chunks.len() as int,
                                    name,
                                )
                        },
                        None => forall|name: Seq<char>|
                            !#[trigger] names_matching_chunk(
                                p,
                                predicates@,
                                p.chunks.len() as int,
                                name,
                            ),
                    }
                },
                Err(e) => {
                    &&& !has_partition(self@.partitions, partition_key@)
                    &&& e is PartitionNotFound
                    &&& e->key@ == partition_key@
                },
            },
    {
        let at = match self.find_partition(partition_key) {
            Some(at) => at,
            None => {
                return Err(Error::PartitionNotFound { key: partition_key.to_owned() });
            },
        };
        let partition = &self.partitions[at];
        let ghost p = partition@;
        let chunks = partition.chunks();
        let mut names: Vec<String> = Vec::new();
        let mut c: usize = 0;
        while c < chunks.len()
            invariant
                partition.wf(),
                p == partition@,
                crate::partition::chunk_views(chunks@) == p.chunks,
                c <= chunks.len(),
                ascending(names@),
                forall|name: Seq<char>|
                    #[trigger] lists_name(names@, name) <==> names_matching_chunk(
                        p,
                        predicates@,
                        c as int,
                        name,
                    ),
            decreases chunks.len() - c,
        {
            assert(chunks@[c as int]@ == p.chunks[c as int]);
            let found = chunks[c].table_names(predicates);
            let ghost tables = p.chunks[c as int].tables;
            let ghost start = names@;
            let mut i: usize = 0;
            while i < found.len()
                invariant
                    i <= found.len(),
                    ascending(names@),
                    forall|name: Seq<char>|
                        #[trigger] lists_name(names@, name) <==> lists_name(start, name)
                            || lists_name(found@.take(i as int), name),
                decreases found.len() - i,
            {
                let ghost before = names@;
                insert_sorted(&mut names, found[i].as_str());
                proof {
                    assert forall|name: Seq<char>| #[trigger]
                        lists_name(names@, name) <==> lists_name(start, name) || lists_name(
                            found@.take(i + 1),
                            name,
                        ) by {
                        if lists_name(found@.take(i + 1), name) {
                            let j = choose|j: int|
                                0 <= j < i + 1 && (#[trigger] found@.take(i + 1)[j])@ == name;
                            if j < i {
                                assert(found@.take(i as int)[j]@ == name);
                                assert(lists_name(before, name));
                            }
                        }
                        if lists_name(found@.take(i as int), name) {
                            let j = choose|j: int|
                                0 <= j < i && (#[trigger] found@.take(i as int)[j])@ == name;
                            assert(found@.take(i + 1)[j]@ == name);
                        }
                        if name == found@[i as int]@ {
                            assert(found@.take(i + 1)[i as int]@ == name);
                        }
                    }
                }
                i += 1;
            }
            proof {
                assert(found@.take(found@.len() as int) =~= found@);
                assert forall|name: Seq<char>| #[trigger]
                    lists_name(names@, name) <==> names_matching_chunk(
                        p,
                        predicates@,
                        c + 1,
                        name,
                    ) by {
                    let here = names_matching_table(tables, predicates@, tables.len() as int, name);
                    assert(lists_name(found@, name) <==> here);
                    if names_matching_chunk(p, predicates@, c + 1, name) {
                        let d = choose|d: int|
                            0 <= d < c + 1 && names_matching_table(
                                (#[trigger] p.chunks[d]).tables,
                                predicates@,
                                p.chunks[d].tables.len() as int,
                                name,
                            );
                        if d < c {
                            assert(names_matching_chunk(p, predicates@, c as int, name));
                            assert(lists_name(start, name));
                        }
                    }
                    if lists_name(start, name) {
                        assert(names_matching_chunk(p, predicates@, c as int, name));
                        let d = choose|d: int|
                            0 <= d < c && names_matching_table(
                                (#[trigger] p.chunks[d]).tables,
                                predicates@,
                                p.chunks[d].tables.len() as int,
                                name,
                            );
                        assert(0 <= d < c + 1);
                    }
                    if here {
                        assert(names_matching_table(
                            p.chunks[c as int].tables,
                            predicates@,
                            p.chunks[c as int].tables.len() as int,
                            name,
                        ));
                    }
                }
            }
            c += 1;
        }
        if names.len() == 0 {
            proof {
                assert forall|name: Seq<char>|
                    !#[trigger] names_matching_chunk(
                        p,
                        predicates@,
                        p.chunks.len() as int,
                        name,
                    ) by {
                    assert(!lists_name(names@, name));
                }
            }
            Ok(None)
        } else {
            Ok(Some(names))
        }
    }

    /// The tables named `table_name` in all chunks of all partitions, in
    /// the order of the partitions and, within each, of the chunks.
    pub fn tables_named(&self, table_name: &str) -> (r: Vec<&Table>)
        requires
            self.wf(),
        ensures
            borrowed_views(r@) == database_named(
                self@,
                table_name@,
                self@.partitions.len() as int,
            ),
            forall|t: int| 0 <= t < r@.len() ==> (#[trigger] r@[t]).wf(),
    {
        let mut out: Vec<&Table> = Vec::new();
        let mut p: usize = 0;
        assert(borrowed_views(out@) =~= database_named(self@, table_name@, 0));
        while p < self.partitions.len()
            invariant
                self.wf(),
                p <= self.partitions.len(),
                borrowed_views(out@) == database_named(self@, table_name@, p as int),
                forall|t: int| 0 <= t < out@.len() ==> (#[trigger] out@[t]).wf(),
            decreases self.partitions.len() - p,
        {
            let partition = &self.partitions[p];
            let ghost pm = self@.partitions[p as int];
            assert(partition@ == pm);
            let chunks = partition.chunks();
            let ghost start = borrowed_views(out@);
            let mut c: usize = 0;
            assert(partition_named(pm, table_name@, 0) =~= Seq::<TableModel>::empty());
            assert(start + partition_named(pm, table_name@, 0) =~= start);
            while c < chunks.len()
                invariant
                    partition_wf(pm),
                    crate::partition::chunk_views(chunks@) == pm.chunks,
                    c <= chunks.len(),
                    borrowed_views(out@) == start + partition_named(pm, table_name@, c as int),
                    forall|t: int| 0 <= t < out@.len() ==> (#[trigger] out@[t]).wf(),
                decreases chunks.len() - c,
            {
                let chunk = &chunks[c];
                assert(chunk@ == pm.chunks[c as int]);
                let ghost before = borrowed_views(out@);
                match chunk.find_table(table_name) {
                    Some(t) => {
                        out.push(chunk.table(t));
                        assert(borrowed_views(out@) =~= before + chunk_named(chunk@, table_name@));
                    },
                    None => {
                        assert(before + chunk_named(chunk@, table_name@) =~= before);
                    },
                }
                assert(start + partition_named(pm, table_name@, c + 1) =~= start + partition_named(
                    pm,
                    table_name@,
                    c as int,
                ) + chunk_named(chunk@, table_name@));
                c += 1;
            }
            p += 1;
        }
        out
    }

    /// The values of the requested columns of the table `table_name`, from
    /// every chunk of every partition, in the rows whose timestamp lies in
    /// `[time_range.0, time_range.1)` and that meet every predicate. Tables
    /// whose time range does not meet the range of the query are skipped
    /// without being read; the others contribute one selection for each of
    /// their row groups that pruning keeps. The result is absent when there
    /// is no selection at all. Fails when a table that is read lacks a
    /// requested column or the column of a predicate.
    pub fn select(
        &self,
        table_name: &str,
        time_range: (i64, i64),
        predicates: &[Predicate],
        select_columns: &[&str],
    ) -> (r: Result<Option<ReadFilterResults>, Error>)
        requires
            self.wf(),
        ensures
            ({
                let tables = database_named(self@, table_name@, self@.partitions.len() as int);
                let from = time_range.0 as int;
                let to = time_range.1 as int;
                match r {
                    Ok(found) => exists|combined: Seq<Predicate>|
                        {
                            &&& #[trigger] time_bounded(combined, from, to, predicates@)
                            &&& tables_have(tables, str_views(select_columns@), from, to)
                            &&& tables_have(tables, predicate_columns(combined), from, to)
                            &&& match found {
                                Some(res) => res.values@.len() > 0 && selected_from(
                                    res.values@,
                                    tables,
                                    str_views(select_columns@),
                                    combined,
                                    from,
                                    to,
                                ),
                                None => selected_from(
                                    Seq::empty(),
                                    tables,
                                    str_views(select_columns@),
                                    combined,
                                    from,
                                    to,
                                ),
                            }
                        },
                    Err(e) => e is ColumnNotFound && exists|combined: Seq<Predicate>|
                        #[trigger] time_bounded(combined, from, to, predicates@) && !(tables_have(
                            tables,
                            str_views(select_columns@),
                            from,
                            to,
                        ) && tables_have(tables, predicate_columns(combined), from, to)),
                }
            }),
    {
        let tables = self.tables_named(table_name);
        let combined = within_time_range(time_range.0, time_range.1, predicates);
        let ghost all = borrowed_views(tables@);
        let ghost from = time_range.0 as int;
        let ghost to = time_range.1 as int;
        let ghost columns = str_views(select_columns@);
        let mut names: Vec<String> = Vec::new();
        let mut j: usize = 0;
        while j < select_columns.len()
            invariant
                j <= select_columns.len(),
                names@.len() == j,
            decreases select_columns.len() - j,
        {
            names.push(select_columns[j].to_owned());
            j += 1;
        }
        let mut values: Vec<ReadFilterResult> = Vec::new();
        let mut t: usize = 0;
        assert(all.take(0) =~= Seq::<TableModel>::empty());
        while t < tables.len()
            invariant
                t <= tables.len(),
                all == borrowed_views(tables@),
                columns == str_views(select_columns@),
                forall|u: int| 0 <= u < tables@.len() ==> (#[trigger] tables@[u]).wf(),
                from == time_range.0 as int,
                to == time_range.1 as int,
                all == database_named(self@, table_name@, self@.partitions.len() as int),
                time_bounded(combined@, from, to, predicates@),
                tables_have(all.take(t as int), columns, from, to),
                tables_have(all.take(t as int), predicate_columns(combined@), from, to),
                selected_from(values@, all.take(t as int), columns, combined@, from, to),
            decreases tables.len() - t,
        {
            let table = tables[t];
            let ghost tm = all[t as int];
            assert(table@ == tm);
            let ghost seen = all.take(t as int);
            let ghost next = all.take(t + 1);
            assert(next.drop_last() =~= seen);
            assert(next.last() == tm);
            let ghost before = values@;
            let overlapping = match table.time_range() {
                Some((lo, hi)) => lo < time_range.1 && time_range.0 <= hi,
                None => false,
            };
            if overlapping {
                match table.select(select_columns, combined.as_slice()) {
                    Ok(res) => {
                        let mut found = res.values;
                        let ghost part = found@;
                        values.append(&mut found);
                        proof {
                            let k = contribution(tm, combined@, from, to);
                            assert(overlaps(tm, from, to));
                            assert(part.len() == k);
                            assert(values@ =~= before + part);
                            assert(values@.take(values@.len() - k) =~= before);
                            assert forall|i: int| 0 <= i < k implies values@[values@.len() - k + i]
                                == part[i] by {}
                        }
                    },
                    Err(_) => {
                        proof {
                            assert(next[t as int] == tm);
                            assert(time_bounded(combined@, from, to, predicates@));
                            assert(!(tables_have(all, columns, from, to) && tables_have(
                                all,
                                predicate_columns(combined@),
                                from,
                                to,
                            ))) by {
                                assert(overlaps(all[t as int], from, to));
                            }
                        }
                        return Err(Error::ColumnNotFound);
                    },
                }
            } else {
                assert(values@.take(values@.len() - 0) =~= before);
            }
            proof {
                assert forall|u: int| 0 <= u < next.len() && overlaps(
                    #[trigger] next[u],
                    from,
                    to,
                ) implies all_columns_exist(next[u].meta.names, columns) && all_columns_exist(
                    next[u].meta.names,
                    predicate_columns(combined@),
                ) by {
                    if u < t {
                        assert(seen[u] == next[u]);
                    }
                }
            }
            t += 1;
        }
        proof {
            assert(all.take(tables@.len() as int) =~= all);
            assert(time_bounded(combined@, from, to, predicates@));
        }
        if values.len() == 0 {
            assert(values@ =~= Seq::<ReadFilterResult>::empty());
            Ok(None)
        } else {
            Ok(Some(ReadFilterResults { names, values }))
        }
    }

    /// The grouped aggregates of the table `table_name`, from every chunk of
    /// every partition, over the rows whose timestamp lies in
    /// `[time_range.0, time_range.1)` and that meet every predicate, grouped
    /// by the values of `group_columns` and, when a window width is given, by
    /// the window of their timestamp. Tables whose time range does not meet
    /// the range of the query are skipped without being read; the others
    /// contribute one result for each of their row groups that pruning
    /// keeps. Group keys are not merged across results. The result is absent
    /// when there is no result at all. Fails when a table that is read lacks
    /// a column that the query names.
    pub fn aggregate_groups(
        &self,
        table_name: &str,
        time_range: (i64, i64),
        predicates: &[Predicate],
        group_columns: &[&str],
        aggregates: &[(String, AggregateType)],
        window: Option<i64>,
    ) -> (r: Result<Option<ReadGroupResults>, Error>)
        requires
            self.wf(),
        ensures
            aggregate_outcome(
                r,
                self@,
                table_name@,
                time_range.0 as int,
                time_range.1 as int,
                predicates@,
                str_views(group_columns@),
                aggregates@,
                match window {
                    Some(width) => Some((time_range.0 as int, width as int)),
                    None => None,
                },
            ),
    {
        let tables = self.tables_named(table_name);
        let combined = within_time_range(time_range.0, time_range.1, predicates);
        let ghost all = borrowed_views(tables@);
        let ghost from = time_range.0 as int;
        let ghost to = time_range.1 as int;
        let ghost groups = str_views(group_columns@);
        let exec_window = match window {
            Some(width) => Some((time_range.0, width)),
            None => None,
        };
        let ghost w = window_view(exec_window);
        let mut groupby_columns: Vec<String> = Vec::new();
        let mut j: usize = 0;
        while j < group_columns.len()
            invariant
                j <= group_columns.len(),
            decreases group_columns.len() - j,
        {
            groupby_columns.push(group_columns[j].to_owned());
            j += 1;
        }
        let mut aggregate_names: Vec<(String, AggregateType)> = Vec::new();
        let mut a: usize = 0;
        while a < aggregates.len()
            invariant
                a <= aggregates.len(),
            decreases aggregates.len() - a,
        {
            aggregate_names.push((aggregates[a].0.clone(), aggregates[a].1));
            a += 1;
        }
        let mut values: Vec<ReadGroupResult> = Vec::new();
        let mut t: usize = 0;
        assert(all.take(0) =~= Seq::<TableModel>::empty());
        while t < tables.len()
            invariant
                t <= tables.len(),
                all == borrowed_views(tables@),
                groups == str_views(group_columns@),
                w == window_view(exec_window),
                forall|u: int| 0 <= u < tables@.len() ==> (#[trigger] tables@[u]).wf(),
                from == time_range.0 as int,
                to == time_range.1 as int,
                all == database_named(self@, table_name@, self@.partitions.len() as int),
                time_bounded(combined@, from, to, predicates@),
                tables_have(all.take(t as int), groups, from, to),
                tables_have(all.take(t as int), aggregate_columns(aggregates@), from, to),
                tables_have(all.take(t as int), predicate_columns(combined@), from, to),
                grouped_from(
                    values@,
                    all.take(t as int),
                    combined@,
                    groups,
                    w,
                    aggregates@,
                    from,
                    to,
                ),
            decreases tables.len() - t,
        {
            let table = tables[t];
            let ghost tm = all[t as int];
            assert(table@ == tm);
            let ghost seen = all.take(t as int);
            let ghost next = all.take(t + 1);
            assert(next.drop_last() =~= seen);
            assert(next.last() == tm);
            let ghost before = values@;
            let overlapping = match table.time_range() {
                Some((lo, hi)) => lo < time_range.1 && time_range.0 <= hi,
                None => false,
            };
            if overlapping {
                match table.aggregate_groups(
                    combined.as_slice(),
                    group_columns,
                    aggregates,
                    exec_window,
                ) {
                    Ok(res) => {
                        let mut found = res.values;
                        let ghost part = found@;
                        values.append(&mut found);
                        proof {
                            let k = contribution(tm, combined@, from, to);
                            assert(overlaps(tm, from, to));
                            assert(part.len() == k);
                            assert(values@ =~= before + part);
                            assert(values@.take(values@.len() - k) =~= before);
                            assert forall|i: int| 0 <= i < k implies values@[values@.len() - k + i]
                                == part[i] by {}
                        }
                    },
                    Err(_) => {
                        proof {
                            assert(next[t as int] == tm);
                            assert(time_bounded(combined@, from, to, predicates@));
                            assert(overlaps(all[t as int], from, to));
                        }
                        return Err(Error::ColumnNotFound);
                    },
                }
            } else {
                assert(values@.take(values@.len() - 0) =~= before);
            }
            proof {
                assert forall|u: int| 0 <= u < next.len() && overlaps(
                    #[trigger] next[u],
                    from,
                    to,
                ) implies all_columns_exist(next[u].meta.names, groups) && all_columns_exist(
                    next[u].meta.names,
                    aggregate_columns(aggregates@),
                ) && all_columns_exist(next[u].meta.names, predicate_columns(combined@)) by {
                    if u < t {
                        assert(seen[u] == next[u]);
                    }
                }
            }
            t += 1;
        }
        proof {
            assert(all.take(tables@.len() as int) =~= all);
            assert(time_bounded(combined@, from, to, predicates@));
        }
        if values.len() == 0 {
            assert(values@ =~= Seq::<ReadGroupResult>::empty());
            Ok(None)
        } else {
            Ok(Some(ReadGroupResults { groupby_columns, aggregate_columns: aggregate_names, values }))
        }
    }

    /// The grouped aggregates of the table `table_name` over the rows whose
    /// timestamp lies in `[time_range.0, time_range.1)` and that meet every
    /// predicate, grouped by the values of `group_columns`: the results of
    /// every table of that name, chunk after chunk. Group keys that occur in
    /// several results are reported in each of them.
    pub fn aggregate(
        &self,
        table_name: &str,
        time_range: (i64, i64),
        predicates: &[Predicate],
        group_columns: &[&str],
        aggregates: &[(String, AggregateType)],
    ) -> (r: Result<Option<ReadGroupResults>, Error>)
        requires
            self.wf(),
        ensures
            aggregate_outcome(
                r,
                self@,
                table_name@,
                time_range.0 as int,
                time_range.1 as int,
                predicates@,
                str_views(group_columns@),
                aggregates@,
                None,
            ),
    {
        self.aggregate_groups(table_name, time_range, predicates, group_columns, aggregates, None)
    }

    /// As `aggregate`, with the rows grouped by the window of their timestamp
    /// as well: windows are `window` nanoseconds wide and the first begins at
    /// `time_range.0`.
    pub fn aggregate_window(
        &self,
        table_name: &str,
        time_range: (i64, i64),
        predicates: &[Predicate],
        group_columns: &[&str],
        aggregates: &[(String, AggregateType)],
        window: i64,
    ) -> (r: Result<Option<ReadGroupResults>, Error>)
        requires
            self.wf(),
        ensures
            aggregate_outcome(
                r,
                self@,
                table_name@,
                time_range.0 as int,
                time_range.1 as int,
                predicates@,
                str_views(group_columns@),
                aggregates@,
                Some((time_range.0 as int, window as int)),
            ),
    {
        self.aggregate_groups(
            table_name,
            time_range,
            predicates,
            group_columns,
            aggregates,
            Some(window),
        )
    }

    /// The tag keys of the table `table_name`, from every chunk of every
    /// partition, in the rows whose timestamp lies in
    /// `[time_range.0, time_range.1)` and that meet every predicate: each
    /// key once, in ascending order, or nothing when there is none. Tables
    /// whose time range does not meet the range of the query are skipped
    /// without being read. Fails when a table that is read lacks the column
    /// of a predicate.
    pub fn tag_keys(&self, table_name: &str, time_range: (i64, i64), predicates: &[Predicate]) -> (r:
        Result<Option<Vec<String>>, Error>)
        requires
            self.wf(),
        ensures
            ({
                let tables = database_named(self@, table_name@, self@.partitions.len() as int);
                let from = time_range.0 as int;
                let to = time_range.1 as int;
                match r {
                    Ok(found) => exists|combined: Seq<Predicate>|
                        {
                            &&& #[trigger] time_bounded(combined, from, to, predicates@)
                            &&& tables_have(tables, predicate_columns(combined), from, to)
                            &&& match found {
                                Some(keys) => {
                                    &&& keys@.len() > 0
                                    &&& ascending(keys@)
                                    &&& forall|name: Seq<char>|
                                        #[trigger] lists_name(keys@, name) <==> tag_key_of_tables(
                                            tables,
                                            combined,
                                            from,
                                            to,
                                            name,
                                            tables.len() as int,
                                        )
                                },
                                None => forall|name: Seq<char>|
                                    !#[trigger] tag_key_of_tables(
                                        tables,
                                        combined,
                                        from,
                                        to,
                                        name,
                                        tables.len() as int,
                                    ),
                            }
                        },
                    Err(e) => e is ColumnNotFound && exists|combined: Seq<Predicate>|
                        #[trigger] time_bounded(combined, from, to, predicates@) && !tables_have(
                            tables,
                            predicate_columns(combined),
                            from,
                            to,
                        ),
                }
            }),
    {
        let tables = self.tables_named(table_name);
        let combined = within_time_range(time_range.0, time_range.1, predicates);
        let ghost all = borrowed_views(tables@);
        let ghost from = time_range.0 as int;
        let ghost to = time_range.1 as int;
        let mut keys: Vec<String> = Vec::new();
        let mut t: usize = 0;
        while t < tables.len()
            invariant
                t <= tables.len(),
                all == borrowed_views(tables@),
                all == database_named(self@, table_name@, self@.partitions.len() as int),
                forall|u: int| 0 <= u < tables@.len() ==> (#[trigger] tables@[u]).wf(),
                from == time_range.0 as int,
                to == time_range.1 as int,
                time_bounded(combined@, from, to, predicates@),
                forall|u: int|
                    0 <= u < t && overlaps(#[trigger] all[u], from, to) ==> all_columns_exist(
                        all[u].meta.names,
                        predicate_columns(combined@),
                    ),
                ascending(keys@),
                forall|name: Seq<char>|
                    #[trigger] lists_name(keys@, name) <==> tag_key_of_tables(
                        all,
                        combined@,
                        from,
                        to,
                        name,
                        t as int,
                    ),
            decreases tables.len() - t,
        {
            let table = tables[t];
            let ghost tm = all[t as int];
            assert(table@ == tm);
            let ghost start = keys@;
            let overlapping = match table.time_range() {
                Some((lo, hi)) => lo < time_range.1 && time_range.0 <= hi,
                None => false,
            };
            let mut read = false;
            if overlapping {
                let found = match table.tag_keys_matching(combined.as_slice(), keys.as_slice()) {
                    Ok(found) => found,
                    Err(_) => {
                        proof {
                            assert(overlaps(all[t as int], from, to));
                        }
                        return Err(Error::ColumnNotFound);
                    },
                };
                read = true;
                let mut i: usize = 0;
                while i < found.len()
                    invariant
                        i <= found.len(),
                        ascending(keys@),
                        forall|name: Seq<char>|
                            #[trigger] lists_name(keys@, name) <==> lists_name(start, name)
                                || lists_name(found@.take(i as int), name),
                    decreases found.len() - i,
                {
                    let ghost before = keys@;
                    insert_sorted(&mut keys, found[i].as_str());
                    proof {
                        assert forall|name: Seq<char>| #[trigger]
                            lists_name(keys@, name) <==> lists_name(start, name) || lists_name(
                                found@.take(i + 1),
                                name,
                            ) by {
                            if lists_name(found@.take(i + 1), name) {
                                let j = choose|j: int|
                                    0 <= j < i + 1 && (#[trigger] found@.take(i + 1)[j])@ == name;
                                if j < i {
                                    assert(found@.take(i as int)[j]@ == name);
                                    assert(lists_name(before, name));
                                }
                            }
                            if lists_name(found@.take(i as int), name) {
                                let j = choose|j: int|
                                    0 <= j < i && (#[trigger] found@.take(i as int)[j])@ == name;
                                assert(found@.take(i + 1)[j]@ == name);
                            }
                            if name == found@[i as int]@ {
                                assert(found@.take(i + 1)[i as int]@ == name);
                            }
                        }
                    }
                    i += 1;
                }
                proof {
                    assert(found@.take(found@.len() as int) =~= found@);
                }
            }
            proof {
                assert forall|name: Seq<char>| #[trigger]
                    lists_name(keys@, name) <==> tag_key_of_tables(
                        all,
                        combined@,
                        from,
                        to,
                        name,
                        t + 1,
                    ) by {
                    let here = overlaps(tm, from, to) && is_tag_key(tm, combined@, name);
                    if tag_key_of_tables(all, combined@, from, to, name, t + 1) {
                        let u = choose|u: int|
                            0 <= u < t + 1 && u < all.len() && overlaps(all[u], from, to)
                                && #[trigger] is_tag_key(all[u], combined@, name);
                        if u < t {
                            assert(tag_key_of_tables(all, combined@, from, to, name, t as int));
                        }
                    }
                    if lists_name(start, name) {
                        assert(tag_key_of_tables(all, combined@, from, to, name, t as int));
                        let u = choose|u: int|
                            0 <= u < t && u < all.len() && overlaps(all[u], from, to)
                                && #[trigger] is_tag_key(all[u], combined@, name);
                        assert(0 <= u < t + 1);
                    }
                    if here {
                        assert(is_tag_key(all[t as int], combined@, name));
                    }
                }
            }
            t += 1;
        }
        proof {
            assert(tables_have(all, predicate_columns(combined@), from, to));
        }
        if keys.len() == 0 {
            proof {
                assert forall|name: Seq<char>|
                    !#[trigger] tag_key_of_tables(
                        all,
                        combined@,
                        from,
                        to,
                        name,
                        all.len() as int,
                    ) by {
                    assert(!lists_name(keys@, name));
                }
            }
            Ok(None)
        } else {
            Ok(Some(keys))
        }
    }

    /// The texts that the listed tables hold in their column `name`, in rows
    /// that meet every predicate: each once, in ascending order. Tables whose
    /// time range does not meet `[from, to)` are skipped.
    fn texts_of(tables: &Vec<&Table>, predicates: &[Predicate], from: i64, to: i64, name: &str) -> (r:
        Result<Vec<String>, Error>)
        requires
            forall|u: int| 0 <= u < tables@.len() ==> (#[trigger] tables@[u]).wf(),
        ensures
            match r {
                Ok(texts) => {
                    &&& tables_have(
                        borrowed_views(tables@),
                        predicate_columns(predicates@),
                        from as int,
                        to as int,
                    )
                    &&& ascending(texts@)
                    &&& forall|v: Seq<char>|
                        #[trigger] lists_name(texts@, v) <==> tag_value_of_tables(
                            borrowed_views(tables@),
                            predicates@,
                            from as int,
                            to as int,
                            name@,
                            v,
                            tables@.len() as int,
                        )
                },
                Err(e) => e is ColumnNotFound && !tables_have(
                    borrowed_views(tables@),
                    predicate_columns(predicates@),
                    from as int,
                    to as int,
                ),
            },
    {
        let ghost all = borrowed_views(tables@);
        let mut texts: Vec<String> = Vec::new();
        let mut t: usize = 0;
        while t < tables.len()
            invariant
                t <= tables.len(),
                all == borrowed_views(tables@),
                forall|u: int| 0 <= u < tables@.len() ==> (#[trigger] tables@[u]).wf(),
                forall|u: int|
                    0 <= u < t && overlaps(#[trigger] all[u], from as int, to as int)
                        ==> all_columns_exist(all[u].meta.names, predicate_columns(predicates@)),
                ascending(texts@),
                forall|v: Seq<char>|
                    #[trigger] lists_name(texts@, v) <==> tag_value_of_tables(
                        all,
                        predicates@,
                        from as int,
                        to as int,
                        name@,
                        v,
                        t as int,
                    ),
            decreases tables.len() - t,
        {
            let table = tables[t];
            let ghost tm = all[t as int];
            assert(table@ == tm);
            let ghost start = texts@;
            let overlapping = match table.time_range() {
                Some((lo, hi)) => lo < to && from <= hi,
                None => false,
            };
            if overlapping {
                match table.texts_matching(predicates, name, &mut texts) {
                    Ok(_) => {},
                    Err(_) => {
                        proof {
                            assert(overlaps(all[t as int], from as int, to as int));
                        }
                        return Err(Error::ColumnNotFound);
                    },
                }
            }
            proof {
                assert forall|v: Seq<char>| #[trigger]
                    lists_name(texts@, v) <==> tag_value_of_tables(
                        all,
                        predicates@,
                        from as int,
                        to as int,
                        name@,
                        v,
                        t + 1,
                    ) by {
                    let here = overlaps(tm, from as int, to as int) && has_tag_value(
                        tm,
                        predicates@,
                        name@,
                        v,
                    );
                    if tag_value_of_tables(all, predicates@, from as int, to as int, name@, v, t + 1) {
                        let u = choose|u: int|
                            0 <= u < t + 1 && u < all.len() && overlaps(
                                all[u],
                                from as int,
                                to as int,
                            ) && #[trigger] has_tag_value(all[u], predicates@, name@, v);
                        if u < t {
                            assert(tag_value_of_tables(
                                all,
                                predicates@,
                                from as int,
                                to as int,
                                name@,
                                v,
                                t as int,
                            ));
                        }
                    }
                    if lists_name(start, v) {
                        let u = choose|u: int|
                            0 <= u < t && u < all.len() && overlaps(all[u], from as int, to as int)
                                && #[trigger] has_tag_value(all[u], predicates@, name@, v);
                        assert(0 <= u < t + 1);
                    }
                    if here {
                        assert(has_tag_value(all[t as int], predicates@, name@, v));
                    }
                }
            }
            t += 1;
        }
        Ok(texts)
    }

    /// The names of the tag columns of the listed tables whose time range
    /// meets `[from, to)`: each once, in ascending order.
    fn tag_columns_of(tables: &Vec<&Table>, from: i64, to: i64) -> (r: Vec<String>)
        requires
            forall|u: int| 0 <= u < tables@.len() ==> (#[trigger] tables@[u]).wf(),
        ensures
            ascending(r@),
            forall|name: Seq<char>|
                #[trigger] lists_name(r@, name) <==> tag_column_of_tables(
                    borrowed_views(tables@),
                    from as int,
                    to as int,
                    name,
                    tables@.len() as int,
                ),
    {
        let ghost all = borrowed_views(tables@);
        let mut names: Vec<String> = Vec::new();
        let mut t: usize = 0;
        while t < tables.len()
            invariant
                t <= tables.len(),
                all == borrowed_views(tables@),
                forall|u: int| 0 <= u < tables@.len() ==> (#[trigger] tables@[u]).wf(),
                ascending(names@),
                forall|name: Seq<char>|
                    #[trigger] lists_name(names@, name) <==> tag_column_of_tables(
                        all,
                        from as int,
                        to as int,
                        name,
                        t as int,
                    ),
            decreases tables.len() - t,
        {
            let table = tables[t];
            let ghost tm = all[t as int];
            assert(table@ == tm);
            let ghost start = names@;
            let overlapping = match table.time_range() {
                Some((lo, hi)) => lo < to && from <= hi,
                None => false,
            };
            if overlapping {
                table.tag_columns_into(&mut names);
            }
            proof {
                assert forall|name: Seq<char>| #[trigger]
                    lists_name(names@, name) <==> tag_column_of_tables(
                        all,
                        from as int,
                        to as int,
                        name,
                        t + 1,
                    ) by {
                    let here = overlaps(tm, from as int, to as int) && tag_column_among(
                        tm.meta,
                        name,
                        tm.meta.names.len() as int,
                    );
                    if tag_column_of_tables(all, from as int, to as int, name, t + 1) {
                        let u = choose|u: int|
                            0 <= u < t + 1 && u < all.len() && overlaps(
                                all[u],
                                from as int,
                                to as int,
                            ) && #[trigger] tag_column_among(
                                all[u].meta,
                                name,
                                all[u].meta.names.len() as int,
                            );
                        if u < t {
                            assert(tag_column_of_tables(all, from as int, to as int, name, t as int));
                        }
                    }
                    if lists_name(start, name) {
                        let u = choose|u: int|
                            0 <= u < t && u < all.len() && overlaps(all[u], from as int, to as int)
                                && #[trigger] tag_column_among(
                                all[u].meta,
                                name,
                                all[u].meta.names.len() as int,
                            );
                        assert(0 <= u < t + 1);
                    }
                    if here {
                        assert(tag_column_among(
                            all[t as int].meta,
                            name,
                            all[t as int].meta.names.len() as int,
                        ));
                    }
                }
            }
            t += 1;
        }
        names
    }

    /// The tag values of the table `table_name`, from every chunk of every
    /// partition, in the rows whose timestamp lies in
    /// `[time_range.0, time_range.1)` and that meet every predicate: for
    /// each of the listed columns, in the order of the list, the texts that
    /// the column holds in such rows, each once, in ascending order. When no
    /// column is listed, every tag column of the tables that are read is
    /// taken, in ascending order of the names. A table without a listed
    /// column adds nothing for it. Tables whose time range does not meet
    /// the range of the query are skipped without being read. Fails when a
    /// table that is read lacks the column of a predicate.
    pub fn tag_values(
        &self,
        table_name: &str,
        time_range: (i64, i64),
        predicates: &[Predicate],
        tag_keys: &[String],
    ) -> (r: Result<Vec<(String, Vec<String>)>, Error>)
        requires
            self.wf(),
        ensures
            ({
                let tables = database_named(self@, table_name@, self@.partitions.len() as int);
                let from = time_range.0 as int;
                let to = time_range.1 as int;
                match r {
                    Ok(res) => exists|combined: Seq<Predicate>, wanted: Seq<String>|
                        {
                            &&& #[trigger] time_bounded(combined, from, to, predicates@)
                            &&& tables_have(tables, predicate_columns(combined), from, to)
                                || wanted.len() == 0
                            &&& if tag_keys@.len() == 0 {
                                &&& ascending(wanted)
                                &&& forall|name: Seq<char>|
                                    #[trigger] lists_name(wanted, name) <==> tag_column_of_tables(
                                        tables,
                                        from,
                                        to,
                                        name,
                                        tables.len() as int,
                                    )
                            } else {
                                wanted == tag_keys@
                            }
                            &&& res@.len() == #[trigger] wanted.len()
                            &&& forall|j: int|
                                0 <= j < wanted.len() ==> tag_values_of_tables_are(
                                    #[trigger] res@[j],
                                    tables,
                                    combined,
                                    from,
                                    to,
                                    wanted[j]@,
                                )
                        },
                    Err(e) => e is ColumnNotFound && exists|combined: Seq<Predicate>|
                        #[trigger] time_bounded(combined, from, to, predicates@) && !tables_have(
                            tables,
                            predicate_columns(combined),
                            from,
                            to,
                        ),
                }
            }),
    {
        let tables = self.tables_named(table_name);
        let combined = within_time_range(time_range.0, time_range.1, predicates);
        let ghost all = borrowed_views(tables@);
        let ghost from = time_range.0 as int;
        let ghost to = time_range.1 as int;
        let implied = Database::tag_columns_of(&tables, time_range.0, time_range.1);
        let wanted: &[String] = if tag_keys.len() == 0 {
            implied.as_slice()
        } else {
            tag_keys
        };
        let mut res: Vec<(String, Vec<String>)> = Vec::new();
        let mut j: usize = 0;
        while j < wanted.len()
            invariant
                j <= wanted.len(),
                all == borrowed_views(tables@),
                all == database_named(self@, table_name@, self@.partitions.len() as int),
                forall|u: int| 0 <= u < tables@.len() ==> (#[trigger] tables@[u]).wf(),
                from == time_range.0 as int,
                to == time_range.1 as int,
                time_bounded(combined@, from, to, predicates@),
                j > 0 ==> tables_have(all, predicate_columns(combined@), from, to),
                res@.len() == j,
                forall|i: int|
                    0 <= i < j ==> tag_values_of_tables_are(
                        #[trigger] res@[i],
                        all,
                        combined@,
                        from,
                        to,
                        wanted@[i]@,
                    ),
            decreases wanted.len() - j,
        {
            let texts = match Database::texts_of(
                &tables,
                combined.as_slice(),
                time_range.0,
                time_range.1,
                wanted[j].as_str(),
            ) {
                Ok(texts) => texts,
                Err(_) => {
                    return Err(Error::ColumnNotFound);
                },
            };
            res.push((wanted[j].clone(), texts));
            j += 1;
        }
        proof {
            assert(time_bounded(combined@, from, to, predicates@));
            assert(res@.len() == wanted@.len());
        }
        Ok(res)
    }
}

} // verus!
