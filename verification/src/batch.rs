//! Batches: the tabular data of one ingest, before it is laid out as a row
//! group.

use vstd::prelude::*;
use crate::column::{
    value_views, Column, Value, FIELD_COLUMN_TYPE, TAG_COLUMN_TYPE, TIME_COLUMN_TYPE,
};
use crate::error::Error;
use crate::row_group::{
    distinct, model_of, model_wf, ColumnKind, ColumnType, RowGroup, RowGroupModel,
    TIME_COLUMN_NAME, VALUE_BYTES,
};
use crate::text::str_eq;

verus! {

/// One named column of a batch, with the kind that the batch's metadata
/// declares for it, if it declares any.
#[derive(Clone, Debug)]
pub struct BatchColumn {
    pub name: String,
    pub kind: Option<String>,
    pub values: Vec<Value>,
}

/// An ordered set of named columns of equal length.
#[derive(Clone, Debug)]
pub struct Batch {
    pub columns: Vec<BatchColumn>,
}

/// Whether a declared kind is one of the three that the read buffer knows.
pub open spec fn recognised(kind: Option<String>) -> bool {
    kind is Some && (kind->0@ == TAG_COLUMN_TYPE@ || kind->0@ == FIELD_COLUMN_TYPE@ || kind->0@
        == TIME_COLUMN_TYPE@)
}

/// The role that a recognised kind stands for.
pub open spec fn role(kind: Option<String>) -> ColumnKind {
    if kind->0@ == TIME_COLUMN_TYPE@ {
        ColumnKind::Time
    } else if kind->0@ == TAG_COLUMN_TYPE@ {
        ColumnKind::Tag
    } else {
        ColumnKind::Field
    }
}

/// Whether every column of the batch declares a recognised kind.
pub open spec fn kinds_valid(columns: Seq<BatchColumn>) -> bool {
    forall|c: int| 0 <= c < columns.len() ==> recognised((#[trigger] columns[c]).kind)
}

/// The number of rows of a batch: the length of its first column.
pub open spec fn batch_rows(columns: Seq<BatchColumn>) -> nat {
    if columns.len() == 0 {
        0
    } else {
        columns[0].values@.len()
    }
}

/// The names of the columns of a batch.
pub open spec fn batch_names(columns: Seq<BatchColumn>) -> Seq<Seq<char>> {
    Seq::new(columns.len(), |c: int| columns[c].name@)
}

/// Whether the columns of a batch can be laid out as a row group: at most
/// `u32::MAX` rows, the same number in every column; distinct names; exactly
/// one column of kind `time`, which is named `time` and holds signed integers
/// only; at least one row; and a size that fits in 64 bits.
pub open spec fn formable(columns: Seq<BatchColumn>) -> bool {
    &&& 0 < batch_rows(columns) <= u32::MAX
    &&& forall|c: int|
        0 <= c < columns.len() ==> (#[trigger] columns[c]).values@.len() == batch_rows(columns)
    &&& distinct(batch_names(columns))
    &&& exists|t: int|
        {
            &&& 0 <= t < columns.len()
            &&& (#[trigger] columns[t]).name@ == TIME_COLUMN_NAME@
            &&& forall|c: int|
                0 <= c < columns.len() ==> (role((#[trigger] columns[c]).kind) == ColumnKind::Time
                    <==> c == t)
            &&& forall|r: int|
                0 <= r < columns[t].values@.len() ==> (#[trigger] columns[t].values@[r])@ is I64
        }
    &&& VALUE_BYTES * batch_rows(columns) * columns.len() <= u64::MAX
}

/// Whether `m` is a row group of the batch's data: its rows, names, roles
/// and values are those of the batch.
pub open spec fn lays_out(columns: Seq<BatchColumn>, m: RowGroupModel) -> bool {
    &&& model_wf(m)
    &&& m.rows == batch_rows(columns)
    &&& m.names == batch_names(columns)
    &&& m.kinds.len() == columns.len()
    &&& forall|c: int| 0 <= c < columns.len() ==> (#[trigger] m.kinds[c]) == role(columns[c].kind)
    &&& m.columns.len() == columns.len()
    &&& forall|c: int|
        0 <= c < columns.len() ==> (#[trigger] m.columns[c]).values == value_views(
            columns[c].values@,
        )
}

/// Only a batch that can be laid out has a row group.
pub proof fn lemma_lays_out_formable(columns: Seq<BatchColumn>, m: RowGroupModel)
    requires
        lays_out(columns, m),
    ensures
        formable(columns),
{
    let t = m.time;
    assert(m.names[t] == columns[t].name@);
    assert(m.columns[0].values.len() == m.rows);
    assert(m.columns[t].range is Some);
    assert(m.rows > 0) by {
        if m.rows == 0 {
            let (lo, hi) = m.columns[t].range->0;
            let i = choose|i: int| 0 <= i < m.columns[t].values.len() && m.columns[t].values[i] == lo;
            assert(false);
        }
    }
    assert forall|c: int| 0 <= c < columns.len() implies (#[trigger] columns[c]).values@.len()
        == batch_rows(columns) by {
        assert(m.columns[c].values.len() == m.rows);
    }
    assert forall|c: int| 0 <= c < columns.len() implies (role((#[trigger] columns[c]).kind)
        == ColumnKind::Time <==> c == t) by {
        assert(m.kinds[c] == role(columns[c].kind));
    }
    assert forall|r: int| 0 <= r < columns[t].values@.len() implies (
    #[trigger] columns[t].values@[r])@ is I64 by {
        assert(m.columns[t].values[r] is I64);
        assert(m.columns[t].values[r] == columns[t].values@[r]@);
    }
}

/// Copies a list of values.
pub fn duplicate_values(values: &Vec<Value>) -> (copy: Vec<Value>)
    ensures
        value_views(copy@) == value_views(values@),
{
    let mut copy: Vec<Value> = Vec::new();
    let mut i: usize = 0;
    while i < values.len()
        invariant
            i <= values.len(),
            copy@.len() == i,
            forall|j: int| 0 <= j < i ==> (#[trigger] copy@[j])@ == values@[j]@,
        decreases values.len() - i,
    {
        copy.push(values[i].duplicate());
        i += 1;
    }
    assert(value_views(copy@) =~= value_views(values@));
    copy
}

impl BatchColumn {
    /// The role that the declared kind stands for, if it is recognised.
    pub fn declared_role(&self) -> (r: Option<ColumnKind>)
        ensures
            match r {
                Some(k) => recognised(self.kind) && k == role(self.kind),
                None => !recognised(self.kind),
            },
    {
        match &self.kind {
            None => None,
            Some(kind) => {
                if str_eq(kind.as_str(), TIME_COLUMN_TYPE) {
                    Some(ColumnKind::Time)
                } else if str_eq(kind.as_str(), TAG_COLUMN_TYPE) {
                    Some(ColumnKind::Tag)
                } else if str_eq(kind.as_str(), FIELD_COLUMN_TYPE) {
                    Some(ColumnKind::Field)
                } else {
                    None
                }
            },
        }
    }
}

impl Batch {
    /// Checks that every column declares a recognised kind.
    pub fn validate(&self) -> (r: Result<(), Error>)
        ensures
            match r {
                Ok(_) => kinds_valid(self.columns@),
                Err(e) => e is ColumnTypeInvalid && !kinds_valid(self.columns@),
            },
    {
        let mut c: usize = 0;
        while c < self.columns.len()
            invariant
                c <= self.columns.len(),
                forall|d: int| 0 <= d < c ==> recognised((#[trigger] self.columns@[d]).kind),
            decreases self.columns.len() - c,
        {
            if self.columns[c].declared_role().is_none() {
                return Err(Error::ColumnTypeInvalid);
            }
            c += 1;
        }
        Ok(())
    }

    /// Lays the batch out as a row group. Fails with `ColumnTypeInvalid` when
    /// a column declares no recognised kind, and otherwise with
    /// `ConversionError` when the columns cannot form a row group.
    pub fn to_row_group(&self) -> (r: Result<RowGroup, Error>)
        ensures
            match r {
                Ok(rg) => kinds_valid(self.columns@) && rg.wf() && lays_out(self.columns@, rg@),
                Err(e) => if kinds_valid(self.columns@) {
                    e is ConversionError && !formable(self.columns@)
                } else {
                    e is ColumnTypeInvalid
                },
            },
    {
        match self.validate() {
            Ok(_) => {},
            Err(e) => {
                return Err(e);
            },
        }
        let row_count = if self.columns.len() == 0 {
            0
        } else {
            self.columns[0].values.len()
        };
        if row_count > u32::MAX as usize {
            return Err(Error::ConversionError);
        }
        let rows = row_count as u32;
        let mut typed: Vec<(String, ColumnType)> = Vec::new();
        let mut c: usize = 0;
        while c < self.columns.len()
            invariant
                c <= self.columns.len(),
                kinds_valid(self.columns@),
                typed@.len() == c,
                forall|d: int|
                    0 <= d < c ==> {
                        &&& (#[trigger] typed@[d]).0@ == self.columns@[d].name@
                        &&& typed@[d].1.kind_spec() == role(self.columns@[d].kind)
                        &&& typed@[d].1.column_spec().wf()
                        &&& typed@[d].1.column_spec()@.values == value_views(
                            self.columns@[d].values@,
                        )
                    },
            decreases self.columns.len() - c,
        {
            let source = &self.columns[c];
            let column = Column::new(duplicate_values(&source.values));
            let entry = match source.declared_role() {
                Some(ColumnKind::Time) => ColumnType::Time(column),
                Some(ColumnKind::Tag) => ColumnType::Tag(column),
                _ => ColumnType::Field(column),
            };
            typed.push((source.name.clone(), entry));
            c += 1;
        }
        let ghost given = typed@;
        match RowGroup::new(rows, typed) {
            Some(rg) => {
                proof {
                    let m = rg@;
                    assert(m.names =~= batch_names(self.columns@));
                }
                Ok(rg)
            },
            None => {
                proof {
                    if formable(self.columns@) {
                        let columns = self.columns@;
                        let t = choose|t: int|
                            {
                                &&& 0 <= t < columns.len()
                                &&& (#[trigger] columns[t]).name@ == TIME_COLUMN_NAME@
                                &&& forall|c: int|
                                    0 <= c < columns.len() ==> (role((#[trigger] columns[c]).kind)
                                        == ColumnKind::Time <==> c == t)
                                &&& forall|r: int|
                                    0 <= r < columns[t].values@.len() ==> (
                                    #[trigger] columns[t].values@[r])@ is I64
                            };
                        let times = given[t].1.column_spec()@;
                        assert(times.values[0] == columns[t].values@[0]@);
                        assert(times.values[0] is I64);
                        assert(times.range is Some);
                        let (lo, hi) = times.range->0;
                        let at_lo = choose|i: int| 0 <= i < times.values.len() && times.values[i] == lo;
                        let at_hi = choose|i: int| 0 <= i < times.values.len() && times.values[i] == hi;
                        assert(times.values[at_lo] == columns[t].values@[at_lo]@);
                        assert(times.values[at_hi] == columns[t].values@[at_hi]@);
                        let span = (lo->I64_0, hi->I64_0);
                        let m = model_of(rows, given, t, span);
                        assert(m.names =~= batch_names(columns));
                        assert forall|r: int| 0 <= r < m.rows implies (
                        #[trigger] m.columns[m.time].values[r]) is I64 by {
                            assert(times.values[r] == columns[t].values@[r]@);
                        }
                        assert(m.size == VALUE_BYTES * rows * given.len());
                        assert(model_wf(m));
                    }
                }
                Err(Error::ConversionError)
            },
        }
    }
}

} // verus!
