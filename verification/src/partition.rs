//! Partitions: the chunks that share one partition key.

use vstd::prelude::*;
use crate::chunk::{
    chunk_wf, table_row_groups, upsert_refusal, upserted, first_table, Chunk, ChunkModel,
};
use crate::error::Error;
use crate::row_group::{RowGroup, RowGroupModel};
use crate::sums::{
    add_capped, capped, lemma_total_insert, lemma_total_remove, lemma_total_update, total,
};
use crate::table::Table;

verus! {

/// What a partition denotes: its key, its chunks in ascending order of their
/// ids, and the totals over them.
pub struct PartitionModel {
    pub key: Seq<char>,
    pub chunks: Seq<ChunkModel>,
    pub size: nat,
    pub rows: nat,
}

/// The sizes of a list of chunks.
pub open spec fn chunk_sizes(chunks: Seq<ChunkModel>) -> Seq<nat> {
    Seq::new(chunks.len(), |c: int| chunks[c].size)
}

/// The row counts of a list of chunks.
pub open spec fn chunk_rows(chunks: Seq<ChunkModel>) -> Seq<nat> {
    Seq::new(chunks.len(), |c: int| chunks[c].rows)
}

/// The numbers of tables of a list of chunks.
pub open spec fn chunk_tables(chunks: Seq<ChunkModel>) -> Seq<nat> {
    Seq::new(chunks.len(), |c: int| chunks[c].tables.len())
}

/// The numbers of row groups of a list of chunks.
pub open spec fn chunk_row_groups(chunks: Seq<ChunkModel>) -> Seq<nat> {
    Seq::new(chunks.len(), |c: int| total(table_row_groups(chunks[c].tables)))
}

/// Whether chunk `c` has the id `id`.
pub open spec fn is_chunk(chunks: Seq<ChunkModel>, id: nat, c: int) -> bool {
    0 <= c < chunks.len() && chunks[c].id == id
}

/// Whether some chunk has the id `id`.
pub open spec fn has_chunk(chunks: Seq<ChunkModel>, id: nat) -> bool {
    exists|c: int| is_chunk(chunks, id, c)
}

/// The position of the chunk with the id `id`, where there is one.
pub open spec fn chunk_of(chunks: Seq<ChunkModel>, id: nat) -> int {
    choose|c: int| is_chunk(chunks, id, c)
}

/// The number of chunks whose id is below `id`: where a chunk with that id
/// belongs among chunks in ascending order.
pub open spec fn chunks_below(chunks: Seq<ChunkModel>, id: nat) -> int
    decreases chunks.len(),
{
    if chunks.len() == 0 {
        0
    } else if chunks.last().id < id {
        chunks_below(chunks.drop_last(), id) + 1
    } else {
        chunks_below(chunks.drop_last(), id)
    }
}

/// Whether the ids ascend strictly.
pub open spec fn ids_ascend(chunks: Seq<ChunkModel>) -> bool {
    forall|a: int, b: int|
        0 <= a < b < chunks.len() ==> (#[trigger] chunks[a]).id < (#[trigger] chunks[b]).id
}

/// The invariant of a partition: well-formed chunks in ascending order of
/// their ids, and totals that are the sums over the chunks.
pub open spec fn partition_wf(m: PartitionModel) -> bool {
    &&& forall|c: int| 0 <= c < m.chunks.len() ==> chunk_wf(#[trigger] m.chunks[c])
    &&& ids_ascend(m.chunks)
    &&& m.size == total(chunk_sizes(m.chunks))
    &&& m.rows == total(chunk_rows(m.chunks))
    &&& m.size <= u64::MAX
    &&& m.rows <= u64::MAX
}

/// The chunk that a first row group starts.
pub open spec fn first_chunk(id: nat, name: Seq<char>, rg: RowGroupModel) -> ChunkModel {
    ChunkModel { id, tables: seq![first_table(name, rg)], size: rg.size, rows: rg.rows }
}

/// Why a partition refuses a row group, if it does: its totals would
/// overflow, or the chunk that is to take the row group refuses it.
pub open spec fn partition_refusal(
    m: PartitionModel,
    id: nat,
    name: Seq<char>,
    rg: RowGroupModel,
) -> Option<Error> {
    if m.size + rg.size > u64::MAX || m.rows + rg.rows > u64::MAX {
        Some(Error::ConversionError)
    } else if has_chunk(m.chunks, id) {
        upsert_refusal(m.chunks[chunk_of(m.chunks, id)], name, rg)
    } else {
        None
    }
}

/// The partition after the row group has been written to the table `name`
/// of chunk `id`: the chunk takes it, or a new chunk is put in at its place
/// in the order of ids.
pub open spec fn partition_upserted(
    m: PartitionModel,
    id: nat,
    name: Seq<char>,
    rg: RowGroupModel,
) -> PartitionModel {
    PartitionModel {
        key: m.key,
        chunks: if has_chunk(m.chunks, id) {
            m.chunks.update(
                chunk_of(m.chunks, id),
                upserted(m.chunks[chunk_of(m.chunks, id)], name, rg),
            )
        } else {
            m.chunks.insert(chunks_below(m.chunks, id), first_chunk(id, name, rg))
        },
        size: m.size + rg.size,
        rows: m.rows + rg.rows,
    }
}

/// Among ascending ids an id belongs to one chunk only.
pub proof fn lemma_chunk_unique(chunks: Seq<ChunkModel>, id: nat, c: int)
    requires
        ids_ascend(chunks),
        is_chunk(chunks, id, c),
    ensures
        has_chunk(chunks, id),
        chunk_of(chunks, id) == c,
{
    let d = chunk_of(chunks, id);
    assert(is_chunk(chunks, id, d));
    if d < c {
        assert(chunks[d].id < chunks[c].id);
    } else if c < d {
        assert(chunks[c].id < chunks[d].id);
    }
}

/// Among ascending ids, the chunks below `id` are the chunks before the
/// first one whose id is not below it.
pub proof fn lemma_chunks_below(chunks: Seq<ChunkModel>, id: nat, p: int)
    requires
        ids_ascend(chunks),
        0 <= p <= chunks.len(),
        forall|c: int| 0 <= c < p ==> (#[trigger] chunks[c]).id < id,
        forall|c: int| p <= c < chunks.len() ==> (#[trigger] chunks[c]).id >= id,
    ensures
        chunks_below(chunks, id) == p,
    decreases chunks.len(),
{
    if chunks.len() > 0 {
        let rest = chunks.drop_last();
        assert(ids_ascend(rest)) by {
            assert forall|a: int, b: int| 0 <= a < b < rest.len() implies (#[trigger] rest[a]).id < (
            #[trigger] rest[b]).id by {
                assert(rest[a] == chunks[a]);
                assert(rest[b] == chunks[b]);
            }
        }
        if chunks.last().id < id {
            assert(p == chunks.len()) by {
                if p < chunks.len() {
                    assert(chunks[chunks.len() - 1].id >= id);
                }
            }
            assert forall|c: int| 0 <= c < p - 1 implies (#[trigger] rest[c]).id < id by {
                assert(rest[c] == chunks[c]);
            }
            lemma_chunks_below(rest, id, p - 1);
        } else {
            assert(p < chunks.len()) by {
                if p == chunks.len() {
                    assert(chunks[chunks.len() - 1].id < id);
                }
            }
            assert forall|c: int| 0 <= c < p implies (#[trigger] rest[c]).id < id by {
                assert(rest[c] == chunks[c]);
            }
            assert forall|c: int| p <= c < rest.len() implies (#[trigger] rest[c]).id >= id by {
                assert(rest[c] == chunks[c]);
            }
            lemma_chunks_below(rest, id, p);
        }
    }
}

/// The models of a list of chunks.
pub open spec fn chunk_views(chunks: Seq<Chunk>) -> Seq<ChunkModel> {
    chunks.map_values(|c: Chunk| c@)
}

/// The chunks of one partition key.
#[derive(Debug)]
pub struct Partition {
    key: String,
    chunks: Vec<Chunk>,
    size: u64,
    rows: u64,
}

impl View for Partition {
    type V = PartitionModel;

    closed spec fn view(&self) -> PartitionModel {
        PartitionModel {
            key: self.key@,
            chunks: chunk_views(self.chunks@),
            size: self.size as nat,
            rows: self.rows as nat,
        }
    }
}

impl Partition {
    /// The invariant of a partition.
    pub open spec fn wf(&self) -> bool {
        partition_wf(self@)
    }

    /// A partition that holds the one chunk `chunk`.
    pub fn new(partition_key: &str, chunk: Chunk) -> (p: Partition)
        requires
            chunk.wf(),
        ensures
            p.wf(),
            p@.key == partition_key@,
            p@.chunks == seq![chunk@],
            p@.size == chunk@.size,
            p@.rows == chunk@.rows,
    {
        let size = chunk.size();
        let rows = chunk.rows();
        let mut chunks: Vec<Chunk> = Vec::new();
        chunks.push(chunk);
        let p = Partition { key: partition_key.to_owned(), chunks, size, rows };
        proof {
            assert(p@.chunks =~= seq![chunk@]);
            let sizes = chunk_sizes(p@.chunks);
            let counts = chunk_rows(p@.chunks);
            assert(sizes.drop_last() =~= Seq::<nat>::empty());
            assert(counts.drop_last() =~= Seq::<nat>::empty());
            assert(total(sizes.drop_last()) == 0);
            assert(total(counts.drop_last()) == 0);
            assert(total(sizes) == sizes.last());
            assert(total(counts) == counts.last());
        }
        p
    }

    /// The key of the partition.
    pub fn key(&self) -> (k: &str)
        ensures
            k@ == self@.key,
    {
        self.key.as_str()
    }

    /// The chunks of the partition, in ascending order of their ids.
    pub fn chunks(&self) -> (r: &Vec<Chunk>)
        ensures
            chunk_views(r@) == self@.chunks,
    {
        &self.chunks
    }

    /// The position of the first chunk whose id is not below `chunk_id`.
    fn lower_bound(&self, chunk_id: u32) -> (p: usize)
        requires
            self.wf(),
        ensures
            p <= self@.chunks.len(),
            p == chunks_below(self@.chunks, chunk_id as nat),
            p < self@.chunks.len() && self@.chunks[p as int].id == chunk_id <==> has_chunk(
                self@.chunks,
                chunk_id as nat,
            ),
            has_chunk(self@.chunks, chunk_id as nat) ==> chunk_of(self@.chunks, chunk_id as nat)
                == p,
            forall|c: int| 0 <= c < p ==> (#[trigger] self@.chunks[c]).id < chunk_id,
            forall|c: int| p <= c < self@.chunks.len() ==> (#[trigger] self@.chunks[c]).id >= chunk_id,
    {
        let mut p: usize = 0;
        while p < self.chunks.len() && self.chunks[p].id() < chunk_id
            invariant
                self.wf(),
                p <= self.chunks.len(),
                forall|c: int| 0 <= c < p ==> (#[trigger] self@.chunks[c]).id < chunk_id,
            decreases self.chunks.len() - p,
        {
            p += 1;
        }
        proof {
            let chunks = self@.chunks;
            assert forall|c: int| p <= c < chunks.len() implies (#[trigger] chunks[c]).id
                >= chunk_id by {
                if c > p {
                    assert(chunks[p as int].id < chunks[c].id);
                }
            }
            lemma_chunks_below(chunks, chunk_id as nat, p as int);
            if p < chunks.len() && chunks[p as int].id == chunk_id {
                lemma_chunk_unique(chunks, chunk_id as nat, p as int);
            } else {
                if has_chunk(chunks, chunk_id as nat) {
                    let d = chunk_of(chunks, chunk_id as nat);
                    assert(is_chunk(chunks, chunk_id as nat, d));
                    if d < p {
                        assert(chunks[d].id < chunk_id);
                    } else {
                        assert(chunks[d].id >= chunk_id);
                        if d > p {
                            assert(chunks[p as int].id < chunks[d].id);
                        }
                    }
                }
            }
        }
        p
    }

    /// The chunk with the id `chunk_id`.
    pub fn get_chunk(&self, chunk_id: u32) -> (r: Result<&Chunk, Error>)
        requires
            self.wf(),
        ensures
            match r {
                Ok(chunk) => has_chunk(self@.chunks, chunk_id as nat) && chunk@
                    == self@.chunks[chunk_of(self@.chunks, chunk_id as nat)] && chunk.wf(),
                Err(e) => !has_chunk(self@.chunks, chunk_id as nat) && e == (Error::ChunkNotFound {
                    id: chunk_id,
                }),
            },
    {
        let p = self.lower_bound(chunk_id);
        if p < self.chunks.len() && self.chunks[p].id() == chunk_id {
            Ok(&self.chunks[p])
        } else {
            Err(Error::ChunkNotFound { id: chunk_id })
        }
    }

    /// Writes a row group to the table `table_name` of the chunk `chunk_id`,
    /// creating the chunk or the table where there is none. A row group that
    /// is refused leaves the partition as it was.
    pub fn upsert_chunk(&mut self, chunk_id: u32, table_name: &str, row_group: RowGroup) -> (r:
        Result<(), Error>)
        requires
            old(self).wf(),
            row_group.wf(),
        ensures
            final(self).wf(),
            match partition_refusal(old(self)@, chunk_id as nat, table_name@, row_group@) {
                Some(e) => r == Err::<(), Error>(e) && final(self)@ == old(self)@,
                None => r is Ok && final(self)@ == partition_upserted(
                    old(self)@,
                    chunk_id as nat,
                    table_name@,
                    row_group@,
                ),
            },
    {
        let ghost before = self@;
        let ghost rg = row_group@;
        let size = match self.size.checked_add(row_group.size()) {
            Some(size) => size,
            None => {
                return Err(Error::ConversionError);
            },
        };
        let rows = match self.rows.checked_add(row_group.rows() as u64) {
            Some(rows) => rows,
            None => {
                return Err(Error::ConversionError);
            },
        };
        let p = self.lower_bound(chunk_id);
        if p < self.chunks.len() && self.chunks[p].id() == chunk_id {
            let ghost chunk_before = self.chunks@[p as int]@;
            match self.chunks[p].upsert_table(table_name, row_group) {
                Ok(_) => {
                    self.size = size;
                    self.rows = rows;
                    proof {
                        let grown = upserted(chunk_before, table_name@, rg);
                        assert(self@.chunks =~= before.chunks.update(p as int, grown));
                        assert(chunk_sizes(self@.chunks) =~= chunk_sizes(before.chunks).update(
                            p as int,
                            grown.size,
                        ));
                        assert(chunk_rows(self@.chunks) =~= chunk_rows(before.chunks).update(
                            p as int,
                            grown.rows,
                        ));
                        lemma_total_update(chunk_sizes(before.chunks), p as int, grown.size);
                        lemma_total_update(chunk_rows(before.chunks), p as int, grown.rows);
                        assert forall|a: int, b: int| 0 <= a < b < self@.chunks.len() implies (
                        #[trigger] self@.chunks[a]).id < (#[trigger] self@.chunks[b]).id by {
                            assert(self@.chunks[a].id == before.chunks[a].id);
                            assert(self@.chunks[b].id == before.chunks[b].id);
                        }
                    }
                    Ok(())
                },
                Err(e) => {
                    assert(self@.chunks =~= before.chunks);
                    Err(e)
                },
            }
        } else {
            let chunk = Chunk::new(chunk_id, Table::new(table_name.to_owned(), row_group));
            proof {
                crate::table::lemma_rollup_single(rg.names, rg.kinds, rg);
                assert(chunk@ == first_chunk(chunk_id as nat, table_name@, rg));
            }
            self.chunks.insert(p, chunk);
            self.size = size;
            self.rows = rows;
            proof {
                let first = first_chunk(chunk_id as nat, table_name@, rg);
                assert(self@.chunks =~= before.chunks.insert(p as int, first));
                assert(chunk_sizes(self@.chunks) =~= chunk_sizes(before.chunks).insert(
                    p as int,
                    first.size,
                ));
                assert(chunk_rows(self@.chunks) =~= chunk_rows(before.chunks).insert(
                    p as int,
                    first.rows,
                ));
                lemma_total_insert(chunk_sizes(before.chunks), p as int, first.size);
                lemma_total_insert(chunk_rows(before.chunks), p as int, first.rows);
                assert forall|a: int, b: int| 0 <= a < b < self@.chunks.len() implies (
                #[trigger] self@.chunks[a]).id < (#[trigger] self@.chunks[b]).id by {
                    let ia = if a < p { a } else { a - 1 };
                    let ib = if b < p { b } else { b - 1 };
                    if a != p {
                        assert(self@.chunks[a] == before.chunks[ia]);
                    }
                    if b != p {
                        assert(self@.chunks[b] == before.chunks[ib]);
                    }
                    if a != p && b != p {
                        assert(before.chunks[ia].id < before.chunks[ib].id);
                    }
                    if a == p {
                        assert(before.chunks[ib].id >= chunk_id);
                        if ib > p {
                            assert(before.chunks[p as int].id >= chunk_id);
                            assert(before.chunks[p as int].id < before.chunks[ib].id);
                        }
                    }
                    if b == p {
                        assert(before.chunks[ia].id < chunk_id);
                    }
                }
                assert forall|c: int| 0 <= c < self@.chunks.len() implies chunk_wf(
                    #[trigger] self@.chunks[c],
                ) by {
                    if c < p {
                        assert(self@.chunks[c] == before.chunks[c]);
                    } else if c > p {
                        assert(self@.chunks[c] == before.chunks[c - 1]);
                    }
                }
            }
            Ok(())
        }
    }

    /// Removes the chunk with the id `chunk_id` and hands it out.
    pub fn drop_chunk(&mut self, chunk_id: u32) -> (r: Result<Chunk, Error>)
        requires
            old(self).wf(),
        ensures
            final(self).wf(),
            final(self)@.key == old(self)@.key,
            match r {
                Ok(chunk) => {
                    &&& has_chunk(old(self)@.chunks, chunk_id as nat)
                    &&& chunk@ == old(self)@.chunks[chunk_of(old(self)@.chunks, chunk_id as nat)]
                    &&& chunk.wf()
                    &&& final(self)@.chunks == old(self)@.chunks.remove(
                        chunk_of(old(self)@.chunks, chunk_id as nat),
                    )
                    &&& final(self)@.size + chunk@.size == old(self)@.size
                    &&& final(self)@.rows + chunk@.rows == old(self)@.rows
                },
                Err(e) => !has_chunk(old(self)@.chunks, chunk_id as nat) && e == (
                Error::ChunkNotFound { id: chunk_id }) && final(self)@ == old(self)@,
            },
    {
        let ghost before = self@;
        let p = self.lower_bound(chunk_id);
        if p < self.chunks.len() && self.chunks[p].id() == chunk_id {
            let chunk = self.chunks.remove(p);
            proof {
                assert(self@.chunks =~= before.chunks.remove(p as int));
                assert(chunk_sizes(self@.chunks) =~= chunk_sizes(before.chunks).remove(p as int));
                assert(chunk_rows(self@.chunks) =~= chunk_rows(before.chunks).remove(p as int));
                lemma_total_remove(chunk_sizes(before.chunks), p as int);
                lemma_total_remove(chunk_rows(before.chunks), p as int);
            }
            self.size = self.size - chunk.size();
            self.rows = self.rows - chunk.rows();
            proof {
                assert forall|a: int, b: int| 0 <= a < b < self@.chunks.len() implies (
                #[trigger] self@.chunks[a]).id < (#[trigger] self@.chunks[b]).id by {
                    let ia = if a < p { a } else { a + 1 };
                    let ib = if b < p { b } else { b + 1 };
                    assert(self@.chunks[a] == before.chunks[ia]);
                    assert(self@.chunks[b] == before.chunks[ib]);
                    assert(before.chunks[ia].id < before.chunks[ib].id);
                }
                assert forall|c: int| 0 <= c < self@.chunks.len() implies chunk_wf(
                    #[trigger] self@.chunks[c],
                ) by {
                    let ic = if c < p { c } else { c + 1 };
                    assert(self@.chunks[c] == before.chunks[ic]);
                }
            }
            Ok(chunk)
        } else {
            Err(Error::ChunkNotFound { id: chunk_id })
        }
    }

    /// The number of tables in all chunks, capped at the greatest `usize`.
    pub fn tables(&self) -> (n: usize)
        ensures
            n == capped(total(chunk_tables(self@.chunks))),
    {
        let ghost counts = chunk_tables(self@.chunks);
        let mut n: usize = 0;
        let mut c: usize = 0;
        assert(counts.take(0) =~= Seq::<nat>::empty());
        while c < self.chunks.len()
            invariant
                c <= self.chunks.len(),
                counts == chunk_tables(self@.chunks),
                n == capped(total(counts.take(c as int))),
            decreases self.chunks.len() - c,
        {
            assert(counts.take(c + 1).drop_last() =~= counts.take(c as int));
            assert(counts.take(c + 1).last() == self.chunks@[c as int]@.tables.len());
            n = add_capped(n, self.chunks[c].tables());
            c += 1;
        }
        assert(counts.take(self.chunks@.len() as int) =~= counts);
        n
    }

    /// The number of row groups in all tables of all chunks, capped at the
    /// greatest `usize`.
    pub fn row_groups(&self) -> (n: usize)
        ensures
            n == capped(total(chunk_row_groups(self@.chunks))),
    {
        let ghost counts = chunk_row_groups(self@.chunks);
        let mut n: usize = 0;
        let mut c: usize = 0;
        assert(counts.take(0) =~= Seq::<nat>::empty());
        while c < self.chunks.len()
            invariant
                c <= self.chunks.len(),
                counts == chunk_row_groups(self@.chunks),
                n == capped(total(counts.take(c as int))),
            decreases self.chunks.len() - c,
        {
            assert(counts.take(c + 1).drop_last() =~= counts.take(c as int));
            assert(counts.take(c + 1).last() == total(
                table_row_groups(self.chunks@[c as int]@.tables),
            ));
            n = add_capped(n, self.chunks[c].row_groups());
            c += 1;
        }
        assert(counts.take(self.chunks@.len() as int) =~= counts);
        n
    }

    /// The accounted size of all chunks in bytes.
    pub fn size(&self) -> (n: u64)
        ensures
            n == self@.size,
    {
        self.size
    }

    /// The number of rows in all chunks.
    pub fn rows(&self) -> (n: u64)
        ensures
            n == self@.rows,
    {
        self.rows
    }
}

} // verus!
