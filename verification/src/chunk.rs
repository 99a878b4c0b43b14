//! Chunks: the tables that were ingested together, and the smallest unit
//! that can be dropped.

use vstd::prelude::*;
use crate::error::Error;
use crate::row_group::{passes, Predicate, RowGroup, RowGroupModel};
use crate::sums::{add_capped, capped, lemma_total_bound, lemma_total_update, total};
use crate::table::{rollup, same_schema, table_wf, widened, Table, TableModel};
use crate::text::{lists_name, str_eq};

verus! {

/// What a chunk denotes: its id, its tables in the order in which they were
/// first written, and the totals over them.
pub struct ChunkModel {
    pub id: nat,
    pub tables: Seq<TableModel>,
    pub size: nat,
    pub rows: nat,
}

/// The sizes of a list of tables.
pub open spec fn table_sizes(tables: Seq<TableModel>) -> Seq<nat> {
    Seq::new(tables.len(), |t: int| tables[t].meta.size)
}

/// The row counts of a list of tables.
pub open spec fn table_rows(tables: Seq<TableModel>) -> Seq<nat> {
    Seq::new(tables.len(), |t: int| tables[t].meta.rows)
}

/// The numbers of row groups of a list of tables.
pub open spec fn table_row_groups(tables: Seq<TableModel>) -> Seq<nat> {
    Seq::new(tables.len(), |t: int| tables[t].row_groups.len())
}

/// Whether table `t` is named `name`.
pub open spec fn is_table(tables: Seq<TableModel>, name: Seq<char>, t: int) -> bool {
    0 <= t < tables.len() && tables[t].name == name
}

/// Whether some table is named `name`.
pub open spec fn has_table(tables: Seq<TableModel>, name: Seq<char>) -> bool {
    exists|t: int| is_table(tables, name, t)
}

/// The position of the table named `name`, where there is one.
pub open spec fn table_of(tables: Seq<TableModel>, name: Seq<char>) -> int {
    choose|t: int| is_table(tables, name, t)
}

/// The invariant of a chunk: well-formed tables with distinct names, and
/// totals that are the sums over the tables.
pub open spec fn chunk_wf(m: ChunkModel) -> bool {
    &&& m.id <= u32::MAX
    &&& forall|t: int| 0 <= t < m.tables.len() ==> table_wf(#[trigger] m.tables[t])
    &&& forall|s: int, t: int|
        0 <= s < t < m.tables.len() ==> (#[trigger] m.tables[s]).name != (#[trigger] m.tables[t]).name
    &&& m.size == total(table_sizes(m.tables))
    &&& m.rows == total(table_rows(m.tables))
    &&& m.size <= u64::MAX
    &&& m.rows <= u64::MAX
}

/// The table that a first row group starts.
pub open spec fn first_table(name: Seq<char>, rg: RowGroupModel) -> TableModel {
    TableModel { name, meta: rollup(rg.names, rg.kinds, seq![rg]), row_groups: seq![rg] }
}

/// The table `t` with one more row group.
pub open spec fn grown_table(t: TableModel, rg: RowGroupModel) -> TableModel {
    TableModel { name: t.name, meta: widened(t.meta, rg), row_groups: t.row_groups.push(rg) }
}

/// Why a chunk refuses a row group for the table `name`, if it does: the
/// totals of the chunk would overflow, or the table exists with other
/// columns.
pub open spec fn upsert_refusal(m: ChunkModel, name: Seq<char>, rg: RowGroupModel) -> Option<
    Error,
> {
    if m.size + rg.size > u64::MAX || m.rows + rg.rows > u64::MAX {
        Some(Error::ConversionError)
    } else if has_table(m.tables, name) && !same_schema(m.tables[table_of(m.tables, name)].meta, rg) {
        Some(Error::SchemaMismatch)
    } else {
        None
    }
}

/// The chunk after the row group has been written to the table `name`: the
/// table gains the row group, or a new table is added last.
pub open spec fn upserted(m: ChunkModel, name: Seq<char>, rg: RowGroupModel) -> ChunkModel {
    ChunkModel {
        id: m.id,
        tables: if has_table(m.tables, name) {
            m.tables.update(
                table_of(m.tables, name),
                grown_table(m.tables[table_of(m.tables, name)], rg),
            )
        } else {
            m.tables.push(first_table(name, rg))
        },
        size: m.size + rg.size,
        rows: m.rows + rg.rows,
    }
}

/// Whether the table may hold rows that meet every predicate: the ranges of
/// at least one of its row groups rule none of them out.
pub open spec fn may_match(t: TableModel, predicates: Seq<Predicate>) -> bool {
    exists|g: int| 0 <= g < t.row_groups.len() && passes(#[trigger] t.row_groups[g], predicates)
}

/// Whether `name` is the name of one of the first `n` tables that may hold
/// rows meeting every predicate.
pub open spec fn names_matching_table(
    tables: Seq<TableModel>,
    predicates: Seq<Predicate>,
    n: int,
    name: Seq<char>,
) -> bool {
    exists|t: int|
        0 <= t < n && (#[trigger] tables[t]).name == name && may_match(tables[t], predicates)
}

/// The models of a list of tables.
pub open spec fn table_views(tables: Seq<Table>) -> Seq<TableModel> {
    tables.map_values(|t: Table| t@)
}

/// Among distinct names a name belongs to one table only.
pub proof fn lemma_table_unique(m: ChunkModel, name: Seq<char>, t: int)
    requires
        chunk_wf(m),
        is_table(m.tables, name, t),
    ensures
        has_table(m.tables, name),
        table_of(m.tables, name) == t,
{
    let u = table_of(m.tables, name);
    assert(is_table(m.tables, name, u));
    if u < t {
        assert(m.tables[u].name != m.tables[t].name);
    } else if t < u {
        assert(m.tables[t].name != m.tables[u].name);
    }
}

/// A set of tables that were ingested together.
#[derive(Debug)]
pub struct Chunk {
    id: u32,
    tables: Vec<Table>,
    size: u64,
    rows: u64,
}

impl View for Chunk {
    type V = ChunkModel;

    closed spec fn view(&self) -> ChunkModel {
        ChunkModel {
            id: self.id as nat,
            tables: table_views(self.tables@),
            size: self.size as nat,
            rows: self.rows as nat,
        }
    }
}

impl Chunk {
    /// The invariant of a chunk.
    pub open spec fn wf(&self) -> bool {
        chunk_wf(self@)
    }

    /// A chunk that holds the one table `table`.
    pub fn new(id: u32, table: Table) -> (c: Chunk)
        requires
            table.wf(),
        ensures
            c.wf(),
            c@.id == id,
            c@.tables == seq![table@],
            c@.size == table@.meta.size,
            c@.rows == table@.meta.rows,
    {
        let size = table.size();
        let rows = table.rows();
        let mut tables: Vec<Table> = Vec::new();
        tables.push(table);
        let c = Chunk { id, tables, size, rows };
        proof {
            assert(c@.tables =~= seq![table@]);
            let sizes = table_sizes(c@.tables);
            let rows = table_rows(c@.tables);
            assert(sizes.drop_last() =~= Seq::<nat>::empty());
            assert(rows.drop_last() =~= Seq::<nat>::empty());
            assert(total(sizes.drop_last()) == 0);
            assert(total(rows.drop_last()) == 0);
            assert(total(sizes) == sizes.last());
            assert(total(rows) == rows.last());
        }
        c
    }

    /// The id of the chunk.
    pub fn id(&self) -> (id: u32)
        ensures
            id == self@.id,
    {
        self.id
    }

    /// The accounted size of all tables in bytes.
    pub fn size(&self) -> (n: u64)
        ensures
            n == self@.size,
    {
        self.size
    }

    /// The number of rows in all tables.
    pub fn rows(&self) -> (n: u64)
        ensures
            n == self@.rows,
    {
        self.rows
    }

    /// The number of tables.
    pub fn tables(&self) -> (n: usize)
        ensures
            n == self@.tables.len(),
    {
        self.tables.len()
    }

    /// The number of row groups in all tables, capped at the greatest
    /// `usize`.
    pub fn row_groups(&self) -> (n: usize)
        ensures
            n == capped(total(table_row_groups(self@.tables))),
    {
        let ghost counts = table_row_groups(self@.tables);
        let mut n: usize = 0;
        let mut t: usize = 0;
        assert(counts.take(0) =~= Seq::<nat>::empty());
        while t < self.tables.len()
            invariant
                t <= self.tables.len(),
                counts == table_row_groups(self@.tables),
                n == capped(total(counts.take(t as int))),
            decreases self.tables.len() - t,
        {
            assert(counts.take(t + 1).drop_last() =~= counts.take(t as int));
            assert(counts.take(t + 1).last() == self.tables@[t as int]@.row_groups.len());
            n = add_capped(n, self.tables[t].len());
            t += 1;
        }
        assert(counts.take(self.tables@.len() as int) =~= counts);
        n
    }

    /// The position of the table named `name`, if there is one.
    pub fn find_table(&self, name: &str) -> (r: Option<usize>)
        requires
            self.wf(),
        ensures
            match r {
                Some(t) => is_table(self@.tables, name@, t as int) && has_table(
                    self@.tables,
                    name@,
                ) && table_of(self@.tables, name@) == t,
                None => !has_table(self@.tables, name@),
            },
    {
        let mut t: usize = 0;
        while t < self.tables.len()
            invariant
                self.wf(),
                t <= self.tables.len(),
                forall|u: int| 0 <= u < t ==> !is_table(self@.tables, name@, u),
            decreases self.tables.len() - t,
        {
            if str_eq(self.tables[t].name(), name) {
                proof {
                    lemma_table_unique(self@, name@, t as int);
                }
                return Some(t);
            }
            t += 1;
        }
        None
    }

    /// The table at position `t`.
    pub fn table(&self, t: usize) -> (table: &Table)
        requires
            self.wf(),
            t < self@.tables.len(),
        ensures
            table@ == self@.tables[t as int],
            table.wf(),
    {
        &self.tables[t]
    }

    /// Writes a row group to the table named `table_name`, creating the table
    /// if the chunk has none of that name. A row group that would overflow
    /// the chunk's totals, or whose columns differ from those of the existing
    /// table, is refused and the chunk is left as it was.
    pub fn upsert_table(&mut self, table_name: &str, row_group: RowGroup) -> (r: Result<(), Error>)
        requires
            old(self).wf(),
            row_group.wf(),
        ensures
            final(self).wf(),
            match upsert_refusal(old(self)@, table_name@, row_group@) {
                Some(e) => r == Err::<(), Error>(e) && final(self)@ == old(self)@,
                None => r is Ok && final(self)@ == upserted(old(self)@, table_name@, row_group@),
            },
    {
        let ghost before = self@;
        let ghost rg = row_group@;
        let size = match self.size.checked_add(row_group.size()) {
            Some(size) => size,
            None => {
                return Err(Error::ConversionError);
            },
        };
        let rows = match self.rows.checked_add(row_group.rows() as u64) {
            Some(rows) => rows,
            None => {
                return Err(Error::ConversionError);
            },
        };
        match self.find_table(table_name) {
            Some(t) => {
                proof {
                    lemma_total_bound(table_sizes(before.tables), t as int);
                    lemma_total_bound(table_rows(before.tables), t as int);
                }
                if !self.tables[t].schema_matches(&row_group) {
                    return Err(Error::SchemaMismatch);
                }
                let added = self.tables[t].add_row_group(row_group);
                assert(added is Ok);
                self.size = size;
                self.rows = rows;
                proof {
                    let grown = grown_table(before.tables[t as int], rg);
                    assert(self.tables@[t as int]@ == grown);
                    assert(self@.tables =~= before.tables.update(t as int, grown));
                    assert(table_sizes(self@.tables) =~= table_sizes(before.tables).update(
                        t as int,
                        grown.meta.size,
                    ));
                    assert(table_rows(self@.tables) =~= table_rows(before.tables).update(
                        t as int,
                        grown.meta.rows,
                    ));
                    lemma_total_update(table_sizes(before.tables), t as int, grown.meta.size);
                    lemma_total_update(table_rows(before.tables), t as int, grown.meta.rows);
                    assert forall|a: int, b: int| 0 <= a < b < self@.tables.len() implies (
                    #[trigger] self@.tables[a]).name != (#[trigger] self@.tables[b]).name by {
                        assert(self@.tables[a].name == before.tables[a].name);
                        assert(self@.tables[b].name == before.tables[b].name);
                    }
                }
                Ok(())
            },
            None => {
                let table = Table::new(table_name.to_owned(), row_group);
                self.tables.push(table);
                self.size = size;
                self.rows = rows;
                proof {
                    let first = first_table(table_name@, rg);
                    assert(table@ == first);
                    assert(self@.tables =~= before.tables.push(first));
                    assert(table_sizes(self@.tables).drop_last() =~= table_sizes(before.tables));
                    assert(table_rows(self@.tables).drop_last() =~= table_rows(before.tables));
                    crate::table::lemma_rollup_single(rg.names, rg.kinds, rg);
                    assert forall|a: int, b: int| 0 <= a < b < self@.tables.len() implies (
                    #[trigger] self@.tables[a]).name != (#[trigger] self@.tables[b]).name by {
                        if b == before.tables.len() {
                            assert(!is_table(before.tables, table_name@, a));
                        }
                    }
                }
                Ok(())
            },
        }
    }

    /// The names of the tables that may hold rows meeting every predicate, in
    /// table order.
    pub fn table_names(&self, predicates: &[Predicate]) -> (names: Vec<String>)
        requires
            self.wf(),
        ensures
            forall|name: Seq<char>|
                #[trigger] lists_name(names@, name) <==> names_matching_table(
                    self@.tables,
                    predicates@,
                    self@.tables.len() as int,
                    name,
                ),
    {
        let mut names: Vec<String> = Vec::new();
        let mut t: usize = 0;
        while t < self.tables.len()
            invariant
                self.wf(),
                t <= self.tables.len(),
                forall|name: Seq<char>|
                    #[trigger] lists_name(names@, name) <==> names_matching_table(
                        self@.tables,
                        predicates@,
                        t as int,
                        name,
                    ),
            decreases self.tables.len() - t,
        {
            let table = &self.tables[t];
            let ghost old_names = names@;
            if table.may_match(predicates) {
                names.push(table.name().to_owned());
            }
            proof {
                assert forall|name: Seq<char>|
                    #[trigger] lists_name(names@, name) <==> names_matching_table(
                        self@.tables,
                        predicates@,
                        t + 1,
                        name,
                    ) by {
                    if lists_name(names@, name) {
                        let i = choose|i: int| 0 <= i < names@.len() && (#[trigger] names@[i])@ == name;
                        if i < old_names.len() {
                            assert(old_names[i]@ == name);
                            assert(lists_name(old_names, name));
                            let u = choose|u: int|
                                0 <= u < t && (#[trigger] self@.tables[u]).name == name
                                    && may_match(self@.tables[u], predicates@);
                            assert(0 <= u < t + 1 && self@.tables[u].name == name);
                        } else {
                            assert(self@.tables[t as int].name == name);
                        }
                    }
                    if names_matching_table(self@.tables, predicates@, t + 1, name) {
                        let u = choose|u: int|
                            0 <= u < t + 1 && (#[trigger] self@.tables[u]).name == name
                                && may_match(self@.tables[u], predicates@);
                        if u < t {
                            assert(names_matching_table(self@.tables, predicates@, t as int, name));
                            assert(lists_name(old_names, name));
                            let i = choose|i: int|
                                0 <= i < old_names.len() && (#[trigger] old_names[i])@ == name;
                            assert(names@[i]@ == name);
                        } else {
                            assert(names@[names@.len() - 1]@ == name);
                        }
                    }
                }
            }
            t += 1;
        }
        names
    }
}

} // verus!
