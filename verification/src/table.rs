//! Tables: the row groups of one measurement, with rolled-up metadata that
//! lets queries skip row groups without scanning them.

use vstd::prelude::*;
use vstd::string::StringExecFns;
use crate::column::{
    add_counts, aggregate_name, capped_count, comparable, homogeneous, initial, lemma_lt_total,
    lemma_lt_transitive, lemma_range_is_conservative, model_lt, present_among,
    range_could_satisfy, range_of, range_view, satisfies, AggregateModel, AggregateResult,
    AggregateType, Operator, Scalar, Value, ValueModel,
};
use crate::error::Error;
use crate::row_group::{
    accumulated_from, aggregate_columns, all_columns_exist, column_has_text, column_has_value,
    column_of, could_satisfy, distinct, has_column, is_filter_result, is_group_result, model_wf,
    passes, predicate_columns, row_matches, selected_rows, str_views, time_bounded, window_view,
    within_time_range, ColumnKind, Predicate, ReadFilterResult, ReadGroupResult, RowGroup,
    RowGroupModel, TIME_COLUMN_NAME,
};
use crate::sums::total;
use crate::text::{ascending, holds_name, insert_sorted, lists_name, push_char, str_eq};

verus! {

/// What the metadata of a table denotes.
pub struct MetaModel {
    /// The accounted size of all row groups in bytes.
    pub size: nat,
    /// The number of rows in all row groups.
    pub rows: nat,
    /// The name of each column of the table.
    pub names: Seq<Seq<char>>,
    /// The role of each column of the table.
    pub kinds: Seq<ColumnKind>,
    /// The range of each column over all row groups.
    pub ranges: Seq<Option<(ValueModel, ValueModel)>>,
    /// The least and the greatest timestamp over all row groups.
    pub time_range: Option<(int, int)>,
}

/// The smaller range that covers both `a` and `b`: the lesser of the lower
/// ends and the greater of the upper ends.
pub open spec fn widen_range(
    a: Option<(ValueModel, ValueModel)>,
    b: Option<(ValueModel, ValueModel)>,
) -> Option<(ValueModel, ValueModel)> {
    match (a, b) {
        (None, _) => b,
        (_, None) => a,
        (Some((alo, ahi)), Some((blo, bhi))) => Some(
            (
                if model_lt(blo, alo) {
                    blo
                } else {
                    alo
                },
                if model_lt(ahi, bhi) {
                    bhi
                } else {
                    ahi
                },
            ),
        ),
    }
}

/// The time range `a` widened to cover `b`.
pub open spec fn widen_time(a: Option<(int, int)>, b: (int, int)) -> Option<(int, int)> {
    match a {
        None => Some(b),
        Some((lo, hi)) => Some(
            (
                if b.0 < lo {
                    b.0
                } else {
                    lo
                },
                if hi < b.1 {
                    b.1
                } else {
                    hi
                },
            ),
        ),
    }
}

/// Whether a row group has the columns of the table: the same names with the
/// same roles, in the same order.
pub open spec fn same_schema(meta: MetaModel, rg: RowGroupModel) -> bool {
    meta.names == rg.names && meta.kinds == rg.kinds
}

/// The metadata after a row group has been added: sums added, ranges
/// widened.
pub open spec fn widened(meta: MetaModel, rg: RowGroupModel) -> MetaModel {
    MetaModel {
        size: meta.size + rg.size,
        rows: meta.rows + rg.rows,
        names: meta.names,
        kinds: meta.kinds,
        ranges: Seq::new(
            meta.ranges.len(),
            |c: int| widen_range(meta.ranges[c], rg.columns[c].range),
        ),
        time_range: widen_time(meta.time_range, rg.time_range),
    }
}

/// The metadata of a table without row groups.
pub open spec fn empty_meta(names: Seq<Seq<char>>, kinds: Seq<ColumnKind>) -> MetaModel {
    MetaModel {
        size: 0,
        rows: 0,
        names,
        kinds,
        ranges: Seq::new(names.len(), |c: int| None),
        time_range: None,
    }
}

/// The metadata of a table with the given columns and row groups.
pub open spec fn rollup(
    names: Seq<Seq<char>>,
    kinds: Seq<ColumnKind>,
    row_groups: Seq<RowGroupModel>,
) -> MetaModel
    decreases row_groups.len(),
{
    if row_groups.len() == 0 {
        empty_meta(names, kinds)
    } else {
        widened(rollup(names, kinds, row_groups.drop_last()), row_groups.last())
    }
}

/// Whether the sums of the metadata still fit their counters once the row
/// group is added.
pub open spec fn fits(meta: MetaModel, rg: RowGroupModel) -> bool {
    meta.size + rg.size <= u64::MAX && meta.rows + rg.rows <= u64::MAX
}

/// The row groups below `n` whose ranges leave room for every predicate, in
/// ascending order.
pub open spec fn kept(row_groups: Seq<RowGroupModel>, predicates: Seq<Predicate>, n: int) -> Seq<
    int,
>
    decreases n,
{
    if n <= 0 {
        Seq::empty()
    } else {
        let before = kept(row_groups, predicates, n - 1);
        if passes(row_groups[n - 1], predicates) {
            before.push(n - 1)
        } else {
            before
        }
    }
}

/// The aggregate of kind `kind` over the column `name` in the rows, of the
/// first `n` of the listed row groups, that meet every predicate: the rows
/// are taken row group by row group, each in row order.
pub open spec fn table_aggregate(
    row_groups: Seq<RowGroupModel>,
    listed: Seq<int>,
    predicates: Seq<Predicate>,
    kind: AggregateType,
    name: Seq<char>,
    n: int,
) -> AggregateModel
    decreases n,
{
    if n <= 0 {
        initial(kind)
    } else {
        let m = row_groups[listed[n - 1]];
        accumulated_from(
            m,
            table_aggregate(row_groups, listed, predicates, kind, name, n - 1),
            column_of(m.names, name),
            selected_rows(m, predicates, m.rows as int),
        )
    }
}

/// The kind of an aggregate.
pub open spec fn kind_of(a: AggregateModel) -> AggregateType {
    match a {
        AggregateModel::Count(_) => AggregateType::Count,
        AggregateModel::First(_) => AggregateType::First,
        AggregateModel::Last(_) => AggregateType::Last,
        AggregateModel::Min(_) => AggregateType::Min,
        AggregateModel::Max(_) => AggregateType::Max,
        AggregateModel::Sum(_) => AggregateType::Sum,
    }
}

/// Carrying an aggregate on keeps its kind.
pub proof fn lemma_accumulated_kind(m: RowGroupModel, start: AggregateModel, c: int, rows: Seq<int>)
    ensures
        kind_of(accumulated_from(m, start, c, rows)) == kind_of(start),
    decreases rows.len(),
{
    if rows.len() > 0 {
        lemma_accumulated_kind(m, start, c, rows.drop_last());
    }
}

/// The aggregate of a table is of the kind that was asked for.
pub proof fn lemma_table_aggregate_kind(
    row_groups: Seq<RowGroupModel>,
    listed: Seq<int>,
    predicates: Seq<Predicate>,
    kind: AggregateType,
    name: Seq<char>,
    n: int,
)
    ensures
        kind_of(table_aggregate(row_groups, listed, predicates, kind, name, n)) == kind,
    decreases n,
{
    if n > 0 {
        lemma_table_aggregate_kind(row_groups, listed, predicates, kind, name, n - 1);
        let m = row_groups[listed[n - 1]];
        lemma_accumulated_kind(
            m,
            table_aggregate(row_groups, listed, predicates, kind, name, n - 1),
            column_of(m.names, name),
            selected_rows(m, predicates, m.rows as int),
        );
    }
}

/// The aggregate of kind `kind` over the column `name` in all rows of the
/// table that meet every predicate.
pub open spec fn column_aggregate(
    t: TableModel,
    predicates: Seq<Predicate>,
    kind: AggregateType,
    name: Seq<char>,
) -> AggregateModel {
    let survivors = kept(t.row_groups, predicates, t.row_groups.len() as int);
    table_aggregate(t.row_groups, survivors, predicates, kind, name, survivors.len() as int)
}

/// Whether `predicates` is the one predicate `time op bound`.
pub open spec fn time_bound(predicates: Seq<Predicate>, op: Operator, bound: int) -> bool {
    &&& predicates.len() == 1
    &&& predicates[0].0@ == TIME_COLUMN_NAME@
    &&& predicates[0].1.0 == op
    &&& predicates[0].1.1@ == ValueModel::I64(bound)
}

/// Whether `name` is a tag key of the table under the predicates: one of the
/// first `n` columns is a tag column of that name and holds, in some row
/// group, a value that is not null in a row that meets every predicate.
pub open spec fn tag_key_among(
    t: TableModel,
    predicates: Seq<Predicate>,
    name: Seq<char>,
    n: int,
) -> bool {
    exists|c: int, g: int|
        0 <= c < n && c < t.meta.names.len() && t.meta.names[c] == name && t.meta.kinds[c]
            == ColumnKind::Tag && 0 <= g < t.row_groups.len() && #[trigger] column_has_value(
            t.row_groups[g],
            predicates,
            c,
        )
}

/// Whether `name` is a tag key of the table under the predicates.
pub open spec fn is_tag_key(t: TableModel, predicates: Seq<Predicate>, name: Seq<char>) -> bool {
    tag_key_among(t, predicates, name, t.meta.names.len() as int)
}

/// Whether column `c` of the table holds the text `v`, in one of the first
/// `n` row groups, in a row that meets every predicate.
pub open spec fn tag_value_among(
    t: TableModel,
    predicates: Seq<Predicate>,
    c: int,
    v: Seq<char>,
    n: int,
) -> bool {
    exists|g: int|
        0 <= g < n && g < t.row_groups.len() && #[trigger] column_has_text(
            t.row_groups[g],
            predicates,
            c,
            v,
        )
}

/// The names of the tag columns among the first `n` columns, in column
/// order.
pub open spec fn tag_names(meta: MetaModel, n: int) -> Seq<Seq<char>>
    decreases n,
{
    if n <= 0 {
        Seq::empty()
    } else if meta.kinds[n - 1] == ColumnKind::Tag {
        tag_names(meta, n - 1).push(meta.names[n - 1])
    } else {
        tag_names(meta, n - 1)
    }
}

/// The columns whose values a query for tag values yields: the listed ones,
/// or every tag column of the table when the list is empty.
pub open spec fn wanted_tags(meta: MetaModel, tag_keys: Seq<String>) -> Seq<Seq<char>> {
    if tag_keys.len() == 0 {
        tag_names(meta, meta.names.len() as int)
    } else {
        tag_keys.map_values(|k: String| k@)
    }
}

/// Whether `entry` carries the name `name` and, in ascending order, exactly
/// the texts that the column of that name holds in rows that meet every
/// predicate.
pub open spec fn tag_values_are(
    entry: (String, Vec<String>),
    t: TableModel,
    predicates: Seq<Predicate>,
    name: Seq<char>,
) -> bool {
    &&& entry.0@ == name
    &&& ascending(entry.1@)
    &&& forall|v: Seq<char>|
        #[trigger] lists_name(entry.1@, v) <==> tag_value_among(
            t,
            predicates,
            column_of(t.meta.names, name),
            v,
            t.row_groups.len() as int,
        )
}

/// Whether the table has a column named `name` that holds the text `v` in
/// a row that meets every predicate.
pub open spec fn has_tag_value(
    t: TableModel,
    predicates: Seq<Predicate>,
    name: Seq<char>,
    v: Seq<char>,
) -> bool {
    has_column(t.meta.names, name) && tag_value_among(
        t,
        predicates,
        column_of(t.meta.names, name),
        v,
        t.row_groups.len() as int,
    )
}

/// Whether one of the first `n` columns is a tag column named `name`.
pub open spec fn tag_column_among(meta: MetaModel, name: Seq<char>, n: int) -> bool {
    exists|c: int|
        0 <= c < n && c < meta.names.len() && (#[trigger] meta.names[c]) == name && meta.kinds[c]
            == ColumnKind::Tag
}

/// The wider of two ranges, as values.
fn widen(a: &Option<(Value, Value)>, b: Option<(&Value, &Value)>) -> (r: Option<(Value, Value)>)
    ensures
        range_view(r) == widen_range(
            range_view(*a),
            match b {
                Some((lo, hi)) => Some((lo@, hi@)),
                None => None,
            },
        ),
{
    match (a, b) {
        (None, None) => None,
        (None, Some((lo, hi))) => Some((lo.duplicate(), hi.duplicate())),
        (Some((lo, hi)), None) => Some((lo.duplicate(), hi.duplicate())),
        (Some((alo, ahi)), Some((blo, bhi))) => {
            let lo = if blo.lt(alo) {
                blo.duplicate()
            } else {
                alo.duplicate()
            };
            let hi = if ahi.lt(bhi) {
                bhi.duplicate()
            } else {
                ahi.duplicate()
            };
            Some((lo, hi))
        },
    }
}

/// Rolled-up facts about the row groups of a table.
#[derive(Debug)]
pub struct MetaData {
    size: u64,
    rows: u64,
    names: Vec<String>,
    kinds: Vec<ColumnKind>,
    ranges: Vec<Option<(Value, Value)>>,
    time_range: Option<(i64, i64)>,
}

impl View for MetaData {
    type V = MetaModel;

    closed spec fn view(&self) -> MetaModel {
        MetaModel {
            size: self.size as nat,
            rows: self.rows as nat,
            names: self.names@.map_values(|s: String| s@),
            kinds: self.kinds@,
            ranges: self.ranges@.map_values(|r: Option<(Value, Value)>| range_view(r)),
            time_range: match self.time_range {
                Some((lo, hi)) => Some((lo as int, hi as int)),
                None => None,
            },
        }
    }
}

/// The invariant of metadata: one role and one range for each column name.
pub open spec fn meta_wf(m: MetaModel) -> bool {
    m.kinds.len() == m.names.len() && m.ranges.len() == m.names.len()
}

impl MetaData {
    /// The invariant of metadata.
    pub open spec fn wf(&self) -> bool {
        meta_wf(self@)
    }

    /// The metadata of a table that holds the one row group `segment`.
    pub fn new(segment: &RowGroup) -> (meta: MetaData)
        requires
            segment.wf(),
        ensures
            meta.wf(),
            meta@ == rollup(segment@.names, segment@.kinds, seq![segment@]),
    {
        let mut names: Vec<String> = Vec::new();
        let mut kinds: Vec<ColumnKind> = Vec::new();
        let mut ranges: Vec<Option<(Value, Value)>> = Vec::new();
        let mut c: usize = 0;
        while c < segment.columns()
            invariant
                segment.wf(),
                c <= segment@.columns.len(),
                names@.len() == c,
                kinds@.len() == c,
                ranges@.len() == c,
                forall|d: int| 0 <= d < c ==> (#[trigger] names@[d])@ == segment@.names[d],
                forall|d: int| 0 <= d < c ==> (#[trigger] kinds@[d]) == segment@.kinds[d],
                forall|d: int|
                    0 <= d < c ==> range_view(#[trigger] ranges@[d]) == segment@.columns[d].range,
            decreases segment@.columns.len() - c,
        {
            names.push(segment.column_name(c).clone());
            kinds.push(segment.column_kind(c));
            ranges.push(widen(&None, segment.column(c).range()));
            c += 1;
        }
        let meta = MetaData {
            size: segment.size(),
            rows: segment.rows() as u64,
            names,
            kinds,
            ranges,
            time_range: Some(segment.time_range()),
        };
        proof {
            let groups = seq![segment@];
            assert(groups.drop_last() =~= Seq::<RowGroupModel>::empty());
            assert(groups.last() == segment@);
            let base = rollup(segment@.names, segment@.kinds, groups.drop_last());
            assert(base == empty_meta(segment@.names, segment@.kinds));
            let want = widened(base, segment@);
            assert(meta@.names =~= want.names);
            assert(meta@.kinds =~= want.kinds);
            assert(meta@.ranges =~= want.ranges);
        }
        meta
    }

    /// Whether the row group has the columns that this metadata describes.
    pub fn schema_matches(&self, rg: &RowGroup) -> (r: bool)
        requires
            self.wf(),
            rg.wf(),
        ensures
            r == same_schema(self@, rg@),
    {
        if self.names.len() != rg.columns() {
            return false;
        }
        let mut c: usize = 0;
        while c < self.names.len()
            invariant
                self.wf(),
                rg.wf(),
                self@.names.len() == rg@.names.len(),
                c <= self.names.len(),
                forall|d: int|
                    0 <= d < c ==> self@.names[d] == rg@.names[d] && self@.kinds[d] == rg@.kinds[d],
            decreases self.names.len() - c,
        {
            if !str_eq(self.names[c].as_str(), rg.column_name(c).as_str()) {
                assert(self@.names[c as int] != rg@.names[c as int]);
                return false;
            }
            if self.kinds[c] != rg.column_kind(c) {
                assert(self@.kinds[c as int] != rg@.kinds[c as int]);
                return false;
            }
            c += 1;
        }
        assert(self@.names =~= rg@.names);
        assert(self@.kinds =~= rg@.kinds);
        true
    }

    /// Takes a further row group into account: adds its size and rows and
    /// widens every range to cover it. A row group with other columns, or one
    /// that would overflow the totals, is refused and changes nothing.
    pub fn update(&mut self, rg: &RowGroup) -> (r: Result<(), Error>)
        requires
            old(self).wf(),
            rg.wf(),
        ensures
            final(self).wf(),
            match r {
                Ok(_) => same_schema(old(self)@, rg@) && fits(old(self)@, rg@) && final(self)@
                    == widened(old(self)@, rg@),
                Err(e) => {
                    &&& final(self)@ == old(self)@
                    &&& (e is SchemaMismatch || e is ConversionError)
                    &&& (e is SchemaMismatch <==> !same_schema(old(self)@, rg@))
                    &&& !(same_schema(old(self)@, rg@) && fits(old(self)@, rg@))
                },
            },
    {
        if !self.schema_matches(rg) {
            return Err(Error::SchemaMismatch);
        }
        let size = match self.size.checked_add(rg.size()) {
            Some(size) => size,
            None => {
                return Err(Error::ConversionError);
            },
        };
        let rows = match self.rows.checked_add(rg.rows() as u64) {
            Some(rows) => rows,
            None => {
                return Err(Error::ConversionError);
            },
        };
        let mut ranges: Vec<Option<(Value, Value)>> = Vec::new();
        let mut c: usize = 0;
        while c < self.ranges.len()
            invariant
                self.wf(),
                rg.wf(),
                same_schema(self@, rg@),
                c <= self.ranges.len(),
                ranges@.len() == c,
                forall|d: int|
                    0 <= d < c ==> range_view(#[trigger] ranges@[d]) == widen_range(
                        self@.ranges[d],
                        rg@.columns[d].range,
                    ),
            decreases self.ranges.len() - c,
        {
            ranges.push(widen(&self.ranges[c], rg.column(c).range()));
            c += 1;
        }
        let span = rg.time_range();
        let time_range = match self.time_range {
            None => Some(span),
            Some((lo, hi)) => Some(
                (
                    if span.0 < lo {
                        span.0
                    } else {
                        lo
                    },
                    if hi < span.1 {
                        span.1
                    } else {
                        hi
                    },
                ),
            ),
        };
        let ghost before = self@;
        self.size = size;
        self.rows = rows;
        self.ranges = ranges;
        self.time_range = time_range;
        proof {
            let want = widened(before, rg@);
            assert(self@.names == before.names);
            assert(self@.ranges =~= want.ranges);
            assert(self@ == want);
        }
        Ok(())
    }

    /// Recomputes the metadata from the row groups that are left after a
    /// removal; the columns stay as they are.
    pub fn invalidate(&mut self, row_groups: &Vec<RowGroup>)
        requires
            old(self).wf(),
            forall|g: int|
                0 <= g < row_groups@.len() ==> (#[trigger] row_groups@[g]).wf() && same_schema(
                    old(self)@,
                    row_groups@[g]@,
                ),
            rollup(old(self)@.names, old(self)@.kinds, group_views(row_groups@)).size <= u64::MAX,
            rollup(old(self)@.names, old(self)@.kinds, group_views(row_groups@)).rows <= u64::MAX,
        ensures
            final(self).wf(),
            final(self)@ == rollup(old(self)@.names, old(self)@.kinds, group_views(row_groups@)),
    {
        let ghost names = self@.names;
        let ghost kinds = self@.kinds;
        let ghost all = group_views(row_groups@);
        let mut ranges: Vec<Option<(Value, Value)>> = Vec::new();
        let mut c: usize = 0;
        while c < self.names.len()
            invariant
                c <= self.names.len(),
                ranges@.len() == c,
                forall|d: int| 0 <= d < c ==> range_view(#[trigger] ranges@[d]) is None,
            decreases self.names.len() - c,
        {
            ranges.push(None);
            c += 1;
        }
        self.size = 0;
        self.rows = 0;
        self.ranges = ranges;
        self.time_range = None;
        assert(self@.ranges =~= empty_meta(names, kinds).ranges);
        assert(all.take(0) =~= Seq::<RowGroupModel>::empty());
        let mut g: usize = 0;
        while g < row_groups.len()
            invariant
                g <= row_groups.len(),
                self.wf(),
                all == group_views(row_groups@),
                names == self@.names,
                kinds == self@.kinds,
                forall|g: int|
                    0 <= g < row_groups@.len() ==> (#[trigger] row_groups@[g]).wf() && same_schema(
                        self@,
                        row_groups@[g]@,
                    ),
                rollup(names, kinds, all).size <= u64::MAX,
                rollup(names, kinds, all).rows <= u64::MAX,
                self@ == rollup(names, kinds, all.take(g as int)),
            decreases row_groups.len() - g,
        {
            proof {
                assert(all.take(g + 1).drop_last() =~= all.take(g as int));
                assert(all.take(g + 1).last() == row_groups@[g as int]@);
                lemma_rollup_grows(names, kinds, all, g + 1);
            }
            let r = self.update(&row_groups[g]);
            assert(r is Ok);
            g += 1;
        }
        assert(all.take(row_groups@.len() as int) =~= all);
    }

    /// The accounted size of all row groups in bytes.
    pub fn size(&self) -> (n: u64)
        ensures
            n == self@.size,
    {
        self.size
    }

    /// The number of rows in all row groups.
    pub fn rows(&self) -> (n: u64)
        ensures
            n == self@.rows,
    {
        self.rows
    }

    /// The least and the greatest timestamp over all row groups.
    pub fn time_range(&self) -> (r: Option<(i64, i64)>)
        ensures
            match r {
                Some((lo, hi)) => self@.time_range == Some((lo as int, hi as int)),
                None => self@.time_range is None,
            },
    {
        self.time_range
    }

    /// Whether the table has a column of this name.
    pub fn has_column(&self, name: &str) -> (r: bool)
        ensures
            r == crate::row_group::has_column(self@.names, name@),
    {
        let mut c: usize = 0;
        while c < self.names.len()
            invariant
                c <= self.names.len(),
                forall|d: int| 0 <= d < c ==> self@.names[d] != name@,
            decreases self.names.len() - c,
        {
            if str_eq(self.names[c].as_str(), name) {
                assert(crate::row_group::is_column(self@.names, name@, c as int));
                return true;
            }
            c += 1;
        }
        assert(!crate::row_group::has_column(self@.names, name@)) by {
            if crate::row_group::has_column(self@.names, name@) {
                let d = choose|d: int| crate::row_group::is_column(self@.names, name@, d);
                assert(self@.names[d] != name@);
            }
        }
        false
    }

    /// The range of each column, by name, in column order.
    pub fn column_ranges(&self) -> (r: Vec<(String, Option<(Value, Value)>)>)
        requires
            self.wf(),
        ensures
            r@.len() == self@.names.len(),
            forall|c: int|
                0 <= c < r@.len() ==> (#[trigger] r@[c]).0@ == self@.names[c] && range_view(r@[c].1)
                    == self@.ranges[c],
    {
        let mut out: Vec<(String, Option<(Value, Value)>)> = Vec::new();
        let mut c: usize = 0;
        while c < self.names.len()
            invariant
                self.wf(),
                c <= self.names.len(),
                out@.len() == c,
                forall|d: int|
                    0 <= d < c ==> (#[trigger] out@[d]).0@ == self@.names[d] && range_view(out@[d].1)
                        == self@.ranges[d],
            decreases self.names.len() - c,
        {
            out.push((self.names[c].clone(), widen(&self.ranges[c], None)));
            c += 1;
        }
        out
    }
}

/// The models of a list of row groups.
pub open spec fn group_views(row_groups: Seq<RowGroup>) -> Seq<RowGroupModel> {
    row_groups.map_values(|rg: RowGroup| rg@)
}

/// The sums of a rollup grow with every row group taken in: those over a
/// prefix of the row groups are at most those over all of them.
pub proof fn lemma_rollup_grows(
    names: Seq<Seq<char>>,
    kinds: Seq<ColumnKind>,
    row_groups: Seq<RowGroupModel>,
    n: int,
)
    requires
        0 <= n <= row_groups.len(),
    ensures
        rollup(names, kinds, row_groups.take(n)).size <= rollup(names, kinds, row_groups).size,
        rollup(names, kinds, row_groups.take(n)).rows <= rollup(names, kinds, row_groups).rows,
        rollup(names, kinds, row_groups).names == names,
        rollup(names, kinds, row_groups).kinds == kinds,
        rollup(names, kinds, row_groups).ranges.len() == names.len(),
    decreases row_groups.len(),
{
    if n == row_groups.len() {
        assert(row_groups.take(n) =~= row_groups);
        if row_groups.len() > 0 {
            lemma_rollup_grows(names, kinds, row_groups.drop_last(), n - 1);
        }
    } else {
        assert(row_groups.drop_last().take(n) =~= row_groups.take(n));
        lemma_rollup_grows(names, kinds, row_groups.drop_last(), n);
    }
}

/// The rollup of a single row group is the empty metadata widened by it.
pub proof fn lemma_rollup_single(names: Seq<Seq<char>>, kinds: Seq<ColumnKind>, rg: RowGroupModel)
    ensures
        rollup(names, kinds, seq![rg]) == widened(empty_meta(names, kinds), rg),
{
    assert(seq![rg].drop_last() =~= Seq::<RowGroupModel>::empty());
    assert(seq![rg].last() == rg);
    assert(rollup(names, kinds, seq![rg].drop_last()) == empty_meta(names, kinds));
}

/// The sums of a rollup without one row group are the sums of the whole less
/// that row group's share.
pub proof fn lemma_rollup_remove(
    names: Seq<Seq<char>>,
    kinds: Seq<ColumnKind>,
    row_groups: Seq<RowGroupModel>,
    i: int,
)
    requires
        0 <= i < row_groups.len(),
    ensures
        rollup(names, kinds, row_groups.remove(i)).size + row_groups[i].size == rollup(
            names,
            kinds,
            row_groups,
        ).size,
        rollup(names, kinds, row_groups.remove(i)).rows + row_groups[i].rows == rollup(
            names,
            kinds,
            row_groups,
        ).rows,
    decreases row_groups.len(),
{
    if i == row_groups.len() - 1 {
        assert(row_groups.remove(i) =~= row_groups.drop_last());
    } else {
        assert(row_groups.remove(i).drop_last() =~= row_groups.drop_last().remove(i));
        assert(row_groups.remove(i).last() == row_groups.last());
        lemma_rollup_remove(names, kinds, row_groups.drop_last(), i);
    }
}

/// What a table denotes: its name, its row groups in the order in which they
/// were added, and its metadata.
pub struct TableModel {
    pub name: Seq<char>,
    pub meta: MetaModel,
    pub row_groups: Seq<RowGroupModel>,
}

/// The invariant of a table: its columns have distinct names, one of them is
/// named `time`, every row
/// group is well formed and has the table's columns, and the metadata is the
/// rollup of the row groups.
pub open spec fn table_wf(t: TableModel) -> bool {
    &&& meta_wf(t.meta)
    &&& distinct(t.meta.names)
    &&& has_column(t.meta.names, TIME_COLUMN_NAME@)
    &&& forall|g: int|
        0 <= g < t.row_groups.len() ==> model_wf(#[trigger] t.row_groups[g]) && same_schema(
            t.meta,
            t.row_groups[g],
        )
    &&& t.meta == rollup(t.meta.names, t.meta.kinds, t.row_groups)
}

/// The selections of a table: the requested column names and one result for
/// each row group that was read, in the order of the row groups.
#[derive(Debug)]
pub struct ReadFilterResults {
    pub names: Vec<String>,
    pub values: Vec<ReadFilterResult>,
}

impl ReadFilterResults {
    /// Whether no row group was read.
    pub fn is_empty(&self) -> (r: bool)
        ensures
            r == (self.values@.len() == 0),
    {
        self.values.len() == 0
    }

    /// The first `j` names of the header, a comma after each but the last of
    /// the header.
    pub open spec fn header_text(&self, j: int) -> Seq<char>
        decreases j,
    {
        if j <= 0 {
            Seq::empty()
        } else {
            let head = self.header_text(j - 1) + self.names@[j - 1]@;
            if j < self.names@.len() {
                head.push(',')
            } else {
                head
            }
        }
    }

    /// The rows of the first `i` results.
    pub open spec fn body_text(&self, i: int) -> Seq<char>
        decreases i,
    {
        if i <= 0 {
            Seq::empty()
        } else {
            self.body_text(i - 1) + self.values@[i - 1].rows_text(self.values@[i - 1].row_count())
        }
    }

    /// Writes the results out: a header line with the column names, then the
    /// rows of every result, one line per row, commas between the cells.
    pub fn display(&self) -> (s: String)
        ensures
            s@ == self.header_text(self.names@.len() as int).push('\n') + self.body_text(
                self.values@.len() as int,
            ),
    {
        let mut out = String::new();
        let mut j: usize = 0;
        while j < self.names.len()
            invariant
                j <= self.names.len(),
                out@ == self.header_text(j as int),
            decreases self.names.len() - j,
        {
            out.append(self.names[j].as_str());
            if j + 1 < self.names.len() {
                push_char(&mut out, ',');
            }
            j += 1;
        }
        push_char(&mut out, '\n');
        let ghost head = out@;
        let mut i: usize = 0;
        while i < self.values.len()
            invariant
                i <= self.values.len(),
                out@ == head + self.body_text(i as int),
            decreases self.values.len() - i,
        {
            let rows = self.values[i].display();
            out.append(rows.as_str());
            i += 1;
            assert(out@ =~= head + self.body_text(i as int));
        }
        out
    }
}

/// The grouped aggregates of a table: the group columns, the requested
/// aggregates and one result for each row group that was read, in the order
/// of the row groups. A group key that occurs in several row groups is
/// reported once for each of them.
#[derive(Debug)]
pub struct ReadGroupResults {
    pub groupby_columns: Vec<String>,
    pub aggregate_columns: Vec<(String, AggregateType)>,
    pub values: Vec<ReadGroupResult>,
}

impl ReadGroupResults {
    /// Whether no row group was read.
    pub fn is_empty(&self) -> (r: bool)
        ensures
            r == (self.values@.len() == 0),
    {
        self.values.len() == 0
    }

    /// The first `j` group columns of the header, a comma after each.
    pub open spec fn group_header(&self, j: int) -> Seq<char>
        decreases j,
    {
        if j <= 0 {
            Seq::empty()
        } else {
            (self.group_header(j - 1) + self.groupby_columns@[j - 1]@).push(',')
        }
    }

    /// The first `a` aggregates of the header, each as the name of its
    /// column, an underscore and the name of the aggregate, with a comma
    /// after each but the last.
    pub open spec fn aggregate_header(&self, a: int) -> Seq<char>
        decreases a,
    {
        if a <= 0 {
            Seq::empty()
        } else {
            let text = (self.aggregate_header(a - 1) + self.aggregate_columns@[a - 1].0@).push('_')
                + aggregate_name(self.aggregate_columns@[a - 1].1);
            if a < self.aggregate_columns@.len() {
                text.push(',')
            } else {
                text
            }
        }
    }

    /// The groups of the first `i` results.
    pub open spec fn body_text(&self, i: int) -> Seq<char>
        decreases i,
    {
        if i <= 0 {
            Seq::empty()
        } else {
            self.body_text(i - 1) + self.values@[i - 1].groups_text(
                self.values@[i - 1].keys@.len() as int,
            )
        }
    }

    /// Writes the results out: a header line with the group columns and the
    /// aggregates, then the groups of every result, one line per group.
    pub fn display(&self) -> (s: String)
        ensures
            s@ == (self.group_header(self.groupby_columns@.len() as int) + self.aggregate_header(
                self.aggregate_columns@.len() as int,
            )).push('\n') + self.body_text(self.values@.len() as int),
    {
        let mut out = String::new();
        let mut j: usize = 0;
        while j < self.groupby_columns.len()
            invariant
                j <= self.groupby_columns.len(),
                out@ == self.group_header(j as int),
            decreases self.groupby_columns.len() - j,
        {
            out.append(self.groupby_columns[j].as_str());
            push_char(&mut out, ',');
            j += 1;
        }
        let ghost groups = out@;
        let mut a: usize = 0;
        while a < self.aggregate_columns.len()
            invariant
                a <= self.aggregate_columns.len(),
                out@ == groups + self.aggregate_header(a as int),
            decreases self.aggregate_columns.len() - a,
        {
            out.append(self.aggregate_columns[a].0.as_str());
            push_char(&mut out, '_');
            let name = self.aggregate_columns[a].1.name();
            out.append(name.as_str());
            if a + 1 < self.aggregate_columns.len() {
                push_char(&mut out, ',');
            }
            a += 1;
            assert(out@ =~= groups + self.aggregate_header(a as int));
        }
        push_char(&mut out, '\n');
        let ghost head = out@;
        let mut i: usize = 0;
        while i < self.values.len()
            invariant
                i <= self.values.len(),
                out@ == head + self.body_text(i as int),
            decreases self.values.len() - i,
        {
            let rows = self.values[i].display();
            out.append(rows.as_str());
            i += 1;
            assert(out@ =~= head + self.body_text(i as int));
        }
        out
    }
}

/// The row groups of one measurement.
///
/// Row groups are horizontal slices of the table; their time ranges may
/// overlap. All of them have the same columns. The table keeps a rollup of
/// their sizes, row counts and ranges.
#[derive(Debug)]
pub struct Table {
    name: String,
    meta: MetaData,
    row_groups: Vec<RowGroup>,
}

impl View for Table {
    type V = TableModel;

    closed spec fn view(&self) -> TableModel {
        TableModel { name: self.name@, meta: self.meta@, row_groups: group_views(self.row_groups@) }
    }
}

impl Table {
    /// The invariant of a table.
    pub open spec fn wf(&self) -> bool {
        table_wf(self@)
    }

    /// A table that holds the one row group `rg`.
    pub fn new(name: String, rg: RowGroup) -> (t: Table)
        requires
            rg.wf(),
        ensures
            t.wf(),
            t@.name == name@,
            t@.row_groups == seq![rg@],
            t@.meta.names == rg@.names,
            t@.meta.kinds == rg@.kinds,
    {
        let meta = MetaData::new(&rg);
        proof {
            lemma_rollup_grows(rg@.names, rg@.kinds, seq![rg@], 0);
            assert(crate::row_group::is_column(rg@.names, TIME_COLUMN_NAME@, rg@.time));
        }
        let mut row_groups: Vec<RowGroup> = Vec::new();
        row_groups.push(rg);
        let t = Table { name, meta, row_groups };
        assert(t@.row_groups =~= seq![rg@]);
        t
    }

    /// Adds a row group to the table. A row group whose columns differ from
    /// the table's is refused, and so is one that would overflow the table's
    /// totals; the table is then left as it was.
    pub fn add_row_group(&mut self, rg: RowGroup) -> (r: Result<(), Error>)
        requires
            old(self).wf(),
            rg.wf(),
        ensures
            final(self).wf(),
            match r {
                Ok(_) => {
                    &&& same_schema(old(self)@.meta, rg@)
                    &&& fits(old(self)@.meta, rg@)
                    &&& final(self)@.name == old(self)@.name
                    &&& final(self)@.row_groups == old(self)@.row_groups.push(rg@)
                    &&& final(self)@.meta == widened(old(self)@.meta, rg@)
                },
                Err(e) => {
                    &&& final(self)@ == old(self)@
                    &&& (e is SchemaMismatch || e is ConversionError)
                    &&& (e is SchemaMismatch <==> !same_schema(old(self)@.meta, rg@))
                    &&& !(same_schema(old(self)@.meta, rg@) && fits(old(self)@.meta, rg@))
                },
            },
    {
        let ghost before = self@;
        match self.meta.update(&rg) {
            Ok(_) => {
                self.row_groups.push(rg);
                proof {
                    let after = self@.row_groups;
                    assert(after =~= before.row_groups.push(rg@));
                    assert(after.drop_last() =~= before.row_groups);
                    assert(after.last() == rg@);
                }
                Ok(())
            },
            Err(e) => Err(e),
        }
    }

    /// Removes the row group at `position` and hands it out; the metadata is
    /// recomputed from what is left. Nothing is removed when there is no row
    /// group at `position`.
    pub fn drop_segment(&mut self, position: usize) -> (r: Option<RowGroup>)
        requires
            old(self).wf(),
        ensures
            final(self).wf(),
            final(self)@.name == old(self)@.name,
            final(self)@.meta.names == old(self)@.meta.names,
            final(self)@.meta.kinds == old(self)@.meta.kinds,
            match r {
                Some(rg) => {
                    &&& position < old(self)@.row_groups.len()
                    &&& rg@ == old(self)@.row_groups[position as int]
                    &&& rg.wf()
                    &&& final(self)@.row_groups == old(self)@.row_groups.remove(position as int)
                },
                None => position >= old(self)@.row_groups.len() && final(self)@ == old(self)@,
            },
    {
        if position >= self.row_groups.len() {
            return None;
        }
        let ghost before = self@;
        let rg = self.row_groups.remove(position);
        proof {
            assert(rg@ == before.row_groups[position as int]);
            assert(group_views(self.row_groups@) =~= before.row_groups.remove(position as int));
            lemma_rollup_remove(
                before.meta.names,
                before.meta.kinds,
                before.row_groups,
                position as int,
            );
            assert forall|g: int| 0 <= g < self.row_groups@.len() implies (
            #[trigger] self.row_groups@[g]).wf() && same_schema(self.meta@, self.row_groups@[g]@) by {
                let h = if g < position {
                    g
                } else {
                    g + 1
                };
                assert(self.row_groups@[g]@ == before.row_groups[h]);
            }
        }
        self.meta.invalidate(&self.row_groups);
        proof {
            lemma_rollup_grows(
                before.meta.names,
                before.meta.kinds,
                group_views(self.row_groups@),
                0,
            );
        }
        Some(rg)
    }

    /// The row groups of the table, in the order in which they were added.
    pub fn iter(&self) -> (r: &Vec<RowGroup>)
        ensures
            group_views(r@) == self@.row_groups,
    {
        &self.row_groups
    }

    /// The name of the table.
    pub fn name(&self) -> (r: &str)
        ensures
            r@ == self@.name,
    {
        self.name.as_str()
    }

    /// Whether the table holds no row groups.
    pub fn is_empty(&self) -> (r: bool)
        ensures
            r == (self@.row_groups.len() == 0),
    {
        self.row_groups.len() == 0
    }

    /// The number of row groups in the table.
    pub fn len(&self) -> (n: usize)
        ensures
            n == self@.row_groups.len(),
    {
        self.row_groups.len()
    }

    /// The accounted size of the table in bytes.
    pub fn size(&self) -> (n: u64)
        ensures
            n == self@.meta.size,
    {
        self.meta.size()
    }

    /// The number of rows in the table.
    pub fn rows(&self) -> (n: u64)
        ensures
            n == self@.meta.rows,
    {
        self.meta.rows()
    }

    /// The time range of all row groups in the table.
    pub fn time_range(&self) -> (r: Option<(i64, i64)>)
        ensures
            match r {
                Some((lo, hi)) => self@.meta.time_range == Some((lo as int, hi as int)),
                None => self@.meta.time_range is None,
            },
    {
        self.meta.time_range()
    }

    /// The range of each column over all row groups, by name, in column
    /// order.
    pub fn column_ranges(&self) -> (r: Vec<(String, Option<(Value, Value)>)>)
        requires
            self.wf(),
        ensures
            r@.len() == self@.meta.names.len(),
            forall|c: int|
                0 <= c < r@.len() ==> (#[trigger] r@[c]).0@ == self@.meta.names[c] && range_view(
                    r@[c].1,
                ) == self@.meta.ranges[c],
    {
        self.meta.column_ranges()
    }

    /// Whether the table has a column for every one of the names.
    pub fn has_all_columns(&self, names: &[&str]) -> (r: bool)
        ensures
            r == all_columns_exist(self@.meta.names, str_views(names@)),
    {
        let mut j: usize = 0;
        while j < names.len()
            invariant
                j <= names.len(),
                forall|i: int|
                    0 <= i < j ==> crate::row_group::has_column(
                        self@.meta.names,
                        #[trigger] str_views(names@)[i],
                    ),
            decreases names.len() - j,
        {
            if !self.meta.has_column(names[j]) {
                assert(str_views(names@)[j as int] == names@[j as int]@);
                return false;
            }
            assert(str_views(names@)[j as int] == names@[j as int]@);
            j += 1;
        }
        true
    }

    /// Whether the table has a column for every one of the predicates.
    pub fn has_predicate_columns(&self, predicates: &[Predicate]) -> (r: bool)
        ensures
            r == all_columns_exist(self@.meta.names, predicate_columns(predicates@)),
    {
        let mut k: usize = 0;
        while k < predicates.len()
            invariant
                k <= predicates.len(),
                forall|i: int|
                    0 <= i < k ==> crate::row_group::has_column(
                        self@.meta.names,
                        #[trigger] predicate_columns(predicates@)[i],
                    ),
            decreases predicates.len() - k,
        {
            if !self.meta.has_column(predicates[k].0.as_str()) {
                assert(predicate_columns(predicates@)[k as int] == predicates@[k as int].0@);
                return false;
            }
            assert(predicate_columns(predicates@)[k as int] == predicates@[k as int].0@);
            k += 1;
        }
        true
    }

    /// Whether the row group has the columns of this table.
    pub fn schema_matches(&self, rg: &RowGroup) -> (r: bool)
        requires
            self.wf(),
            rg.wf(),
        ensures
            r == same_schema(self@.meta, rg@),
    {
        self.meta.schema_matches(rg)
    }

    /// Whether the ranges of at least one row group rule none of the
    /// predicates out.
    pub fn may_match(&self, predicates: &[Predicate]) -> (r: bool)
        requires
            self.wf(),
        ensures
            r == (exists|g: int|
                0 <= g < self@.row_groups.len() && passes(
                    #[trigger] self@.row_groups[g],
                    predicates@,
                )),
    {
        let mut g: usize = 0;
        while g < self.row_groups.len()
            invariant
                self.wf(),
                g <= self.row_groups.len(),
                forall|h: int| 0 <= h < g ==> !passes(#[trigger] self@.row_groups[h], predicates@),
            decreases self.row_groups.len() - g,
        {
            let rg = &self.row_groups[g];
            assert(rg@ == self@.row_groups[g as int]);
            if rg.could_satisfy_all(predicates) {
                return true;
            }
            g += 1;
        }
        false
    }

    /// Whether the table has a column for every one of the aggregates.
    pub fn has_aggregate_columns(&self, aggregates: &[(String, AggregateType)]) -> (r: bool)
        ensures
            r == all_columns_exist(self@.meta.names, aggregate_columns(aggregates@)),
    {
        let mut a: usize = 0;
        while a < aggregates.len()
            invariant
                a <= aggregates.len(),
                forall|i: int|
                    0 <= i < a ==> crate::row_group::has_column(
                        self@.meta.names,
                        #[trigger] aggregate_columns(aggregates@)[i],
                    ),
            decreases aggregates.len() - a,
        {
            if !self.meta.has_column(aggregates[a].0.as_str()) {
                assert(aggregate_columns(aggregates@)[a as int] == aggregates@[a as int].0@);
                return false;
            }
            assert(aggregate_columns(aggregates@)[a as int] == aggregates@[a as int].0@);
            a += 1;
        }
        true
    }

    /// All rows of the table: one selection of the requested columns for
    /// every row group, in table order, each holding the rows in row order.
    /// An empty list of columns asks for all columns. Fails when a requested
    /// column is not a column of the table.
    pub fn scan(&self, columns: &[&str]) -> (r: Result<ReadFilterResults, Error>)
        requires
            self.wf(),
        ensures
            match r {
                Ok(res) => {
                    &&& all_columns_exist(self@.meta.names, str_views(columns@))
                    &&& res.names@.len() == columns@.len()
                    &&& forall|j: int|
                        0 <= j < columns@.len() ==> (#[trigger] res.names@[j])@ == columns@[j]@
                    &&& res.values@.len() == self@.row_groups.len()
                    &&& forall|g: int|
                        0 <= g < self@.row_groups.len() ==> is_filter_result(
                            #[trigger] res.values@[g],
                            self@.row_groups[g],
                            str_views(columns@),
                            Seq::empty(),
                        )
                },
                Err(e) => e is ColumnNotFound && !all_columns_exist(
                    self@.meta.names,
                    str_views(columns@),
                ),
            },
    {
        let unrestricted: Vec<Predicate> = Vec::new();
        proof {
            assert(unrestricted@ =~= Seq::<Predicate>::empty());
            lemma_no_predicates_keep_all(self@.row_groups, self@.row_groups.len() as int);
        }
        self.select(columns, unrestricted.as_slice())
    }

    /// The requested aggregates for each group of rows that meet every
    /// predicate, grouped by the values of `group_columns` and, when `window`
    /// gives the start of the first window and the width of the windows, by
    /// the window of their timestamp: one result for each row group that the
    /// ranges do not rule out, in table order. Group keys are not merged
    /// across row groups. Fails when a predicate, a group column or an
    /// aggregate names a column that is not a column of the table.
    pub fn aggregate_groups(
        &self,
        predicates: &[Predicate],
        group_columns: &[&str],
        aggregates: &[(String, AggregateType)],
        window: Option<(i64, i64)>,
    ) -> (r: Result<ReadGroupResults, Error>)
        requires
            self.wf(),
        ensures
            match r {
                Ok(res) => {
                    let survivors = kept(
                        self@.row_groups,
                        predicates@,
                        self@.row_groups.len() as int,
                    );
                    &&& all_columns_exist(self@.meta.names, str_views(group_columns@))
                    &&& all_columns_exist(self@.meta.names, aggregate_columns(aggregates@))
                    &&& all_columns_exist(self@.meta.names, predicate_columns(predicates@))
                    &&& res.groupby_columns@.len() == group_columns@.len()
                    &&& forall|j: int|
                        0 <= j < group_columns@.len() ==> (#[trigger] res.groupby_columns@[j])@
                            == group_columns@[j]@
                    &&& res.aggregate_columns@.len() == aggregates@.len()
                    &&& forall|a: int|
                        0 <= a < aggregates@.len() ==> (#[trigger] res.aggregate_columns@[a]).0@
                            == aggregates@[a].0@ && res.aggregate_columns@[a].1 == aggregates@[a].1
                    &&& res.values@.len() == survivors.len()
                    &&& forall|i: int|
                        0 <= i < survivors.len() ==> is_group_result(
                            #[trigger] res.values@[i],
                            self@.row_groups[survivors[i]],
                            predicates@,
                            str_views(group_columns@),
                            window_view(window),
                            aggregates@,
                        )
                },
                Err(e) => e is ColumnNotFound && !(all_columns_exist(
                    self@.meta.names,
                    str_views(group_columns@),
                ) && all_columns_exist(self@.meta.names, aggregate_columns(aggregates@))
                    && all_columns_exist(self@.meta.names, predicate_columns(predicates@))),
            },
    {
        if !self.has_all_columns(group_columns) {
            return Err(Error::ColumnNotFound);
        }
        if !self.has_aggregate_columns(aggregates) {
            return Err(Error::ColumnNotFound);
        }
        if !self.has_predicate_columns(predicates) {
            return Err(Error::ColumnNotFound);
        }
        let mut groupby_columns: Vec<String> = Vec::new();
        let mut j: usize = 0;
        while j < group_columns.len()
            invariant
                j <= group_columns.len(),
                groupby_columns@.len() == j,
                forall|i: int|
                    0 <= i < j ==> (#[trigger] groupby_columns@[i])@ == group_columns@[i]@,
            decreases group_columns.len() - j,
        {
            groupby_columns.push(group_columns[j].to_owned());
            j += 1;
        }
        let mut aggregate_names: Vec<(String, AggregateType)> = Vec::new();
        let mut a: usize = 0;
        while a < aggregates.len()
            invariant
                a <= aggregates.len(),
                aggregate_names@.len() == a,
                forall|i: int|
                    0 <= i < a ==> (#[trigger] aggregate_names@[i]).0@ == aggregates@[i].0@
                        && aggregate_names@[i].1 == aggregates@[i].1,
            decreases aggregates.len() - a,
        {
            aggregate_names.push((aggregates[a].0.clone(), aggregates[a].1));
            a += 1;
        }
        let segments = self.filter_row_groups(predicates);
        let ghost survivors = kept(self@.row_groups, predicates@, self@.row_groups.len() as int);
        proof {
            lemma_kept_in_range(self@.row_groups, predicates@, self@.row_groups.len() as int);
        }
        let mut values: Vec<ReadGroupResult> = Vec::new();
        let mut i: usize = 0;
        while i < segments.len()
            invariant
                self.wf(),
                i <= segments.len(),
                all_columns_exist(self@.meta.names, str_views(group_columns@)),
                all_columns_exist(self@.meta.names, aggregate_columns(aggregates@)),
                all_columns_exist(self@.meta.names, predicate_columns(predicates@)),
                survivors == kept(self@.row_groups, predicates@, self@.row_groups.len() as int),
                segments@.len() == survivors.len(),
                forall|i: int|
                    0 <= i < survivors.len() ==> 0 <= #[trigger] survivors[i]
                        < self@.row_groups.len(),
                forall|i: int|
                    0 <= i < segments@.len() ==> (#[trigger] segments@[i]).wf() && segments@[i]@
                        == self@.row_groups[survivors[i]],
                values@.len() == i,
                forall|k: int|
                    0 <= k < i ==> is_group_result(
                        #[trigger] values@[k],
                        self@.row_groups[survivors[k]],
                        predicates@,
                        str_views(group_columns@),
                        window_view(window),
                        aggregates@,
                    ),
            decreases segments.len() - i,
        {
            let segment = segments[i];
            assert(same_schema(self@.meta, self@.row_groups[survivors[i as int]]));
            match segment.read_group_window(predicates, group_columns, aggregates, window) {
                Ok(res) => {
                    values.push(res);
                },
                Err(_) => {
                    assert(false);
                },
            }
            i += 1;
        }
        Ok(ReadGroupResults { groupby_columns, aggregate_columns: aggregate_names, values })
    }

    /// The requested aggregates for each group of rows that meet every
    /// predicate, grouped by the values of `group_columns`: one result for
    /// each row group that the ranges do not rule out, in table order. Group
    /// keys are not merged across row groups. Fails when a predicate, a
    /// group column or an aggregate names a column that is not a column of
    /// the table.
    pub fn aggregate(
        &self,
        predicates: &[Predicate],
        group_columns: &[&str],
        aggregates: &[(String, AggregateType)],
    ) -> (r: Result<ReadGroupResults, Error>)
        requires
            self.wf(),
        ensures
            match r {
                Ok(res) => {
                    let survivors = kept(
                        self@.row_groups,
                        predicates@,
                        self@.row_groups.len() as int,
                    );
                    &&& all_columns_exist(self@.meta.names, str_views(group_columns@))
                    &&& all_columns_exist(self@.meta.names, aggregate_columns(aggregates@))
                    &&& all_columns_exist(self@.meta.names, predicate_columns(predicates@))
                    &&& res.groupby_columns@.len() == group_columns@.len()
                    &&& forall|j: int|
                        0 <= j < group_columns@.len() ==> (#[trigger] res.groupby_columns@[j])@
                            == group_columns@[j]@
                    &&& res.aggregate_columns@.len() == aggregates@.len()
                    &&& forall|a: int|
                        0 <= a < aggregates@.len() ==> (#[trigger] res.aggregate_columns@[a]).0@
                            == aggregates@[a].0@ && res.aggregate_columns@[a].1 == aggregates@[a].1
                    &&& res.values@.len() == survivors.len()
                    &&& forall|i: int|
                        0 <= i < survivors.len() ==> is_group_result(
                            #[trigger] res.values@[i],
                            self@.row_groups[survivors[i]],
                            predicates@,
                            str_views(group_columns@),
                            None,
                            aggregates@,
                        )
                },
                Err(e) => e is ColumnNotFound && !(all_columns_exist(
                    self@.meta.names,
                    str_views(group_columns@),
                ) && all_columns_exist(self@.meta.names, aggregate_columns(aggregates@))
                    && all_columns_exist(self@.meta.names, predicate_columns(predicates@))),
            },
    {
        self.aggregate_groups(predicates, group_columns, aggregates, None)
    }

    /// As `aggregate`, over the rows whose timestamp lies in
    /// `[time_range.0, time_range.1)` only, and with the rows grouped by the
    /// window of their timestamp as well: windows are `window` nanoseconds
    /// wide, the first begins at `time_range.0`, and the number of a row's
    /// window is the last part of its group key.
    pub fn aggregate_window(
        &self,
        time_range: (i64, i64),
        predicates: &[Predicate],
        group_columns: &[&str],
        aggregates: &[(String, AggregateType)],
        window: i64,
    ) -> (r: Result<ReadGroupResults, Error>)
        requires
            self.wf(),
        ensures
            match r {
                Ok(res) => {
                    &&& all_columns_exist(self@.meta.names, str_views(group_columns@))
                    &&& all_columns_exist(self@.meta.names, aggregate_columns(aggregates@))
                    &&& all_columns_exist(self@.meta.names, predicate_columns(predicates@))
                    &&& exists|combined: Seq<Predicate>|
                        {
                            let survivors = kept(
                                self@.row_groups,
                                combined,
                                self@.row_groups.len() as int,
                            );
                            &&& #[trigger] time_bounded(
                                combined,
                                time_range.0 as int,
                                time_range.1 as int,
                                predicates@,
                            )
                            &&& res.values@.len() == survivors.len()
                            &&& forall|i: int|
                                0 <= i < survivors.len() ==> is_group_result(
                                    #[trigger] res.values@[i],
                                    self@.row_groups[survivors[i]],
                                    combined,
                                    str_views(group_columns@),
                                    Some((time_range.0 as int, window as int)),
                                    aggregates@,
                                )
                        }
                },
                Err(e) => e is ColumnNotFound && !(all_columns_exist(
                    self@.meta.names,
                    str_views(group_columns@),
                ) && all_columns_exist(self@.meta.names, aggregate_columns(aggregates@))
                    && all_columns_exist(self@.meta.names, predicate_columns(predicates@))),
            },
    {
        if !self.has_predicate_columns(predicates) {
            return Err(Error::ColumnNotFound);
        }
        let combined = within_time_range(time_range.0, time_range.1, predicates);
        proof {
            assert forall|j: int| 0 <= j < predicate_columns(combined@).len() implies has_column(
                self@.meta.names,
                #[trigger] predicate_columns(combined@)[j],
            ) by {
                assert(predicate_columns(combined@)[j] == combined@[j].0@);
                if j >= 2 {
                    assert(combined@[j - 2 + 2].0@ == predicates@[j - 2].0@);
                    assert(has_column(self@.meta.names, predicate_columns(predicates@)[j - 2]));
                }
            }
        }
        match self.aggregate_groups(
            combined.as_slice(),
            group_columns,
            aggregates,
            Some((time_range.0, window)),
        ) {
            Ok(res) => {
                proof {
                    assert(time_bounded(
                        combined@,
                        time_range.0 as int,
                        time_range.1 as int,
                        predicates@,
                    ));
                }
                Ok(res)
            },
            Err(e) => Err(Error::ColumnNotFound),
        }
    }

    /// The requested aggregates over all rows of the table that meet every
    /// predicate, without grouping: row groups that the ranges rule out are
    /// skipped, the others are read in table order. Fails when a predicate or
    /// an aggregate names a column that is not a column of the table.
    pub fn aggregate_all(&self, predicates: &[Predicate], aggregates: &[(String, AggregateType)]) -> (r:
        Result<Vec<AggregateResult>, Error>)
        requires
            self.wf(),
        ensures
            match r {
                Ok(res) => {
                    let survivors = kept(
                        self@.row_groups,
                        predicates@,
                        self@.row_groups.len() as int,
                    );
                    &&& all_columns_exist(self@.meta.names, aggregate_columns(aggregates@))
                    &&& all_columns_exist(self@.meta.names, predicate_columns(predicates@))
                    &&& res@.len() == aggregates@.len()
                    &&& forall|a: int|
                        0 <= a < aggregates@.len() ==> (#[trigger] res@[a])@ == table_aggregate(
                            self@.row_groups,
                            survivors,
                            predicates@,
                            aggregates@[a].1,
                            aggregates@[a].0@,
                            survivors.len() as int,
                        )
                },
                Err(e) => e is ColumnNotFound && !(all_columns_exist(
                    self@.meta.names,
                    aggregate_columns(aggregates@),
                ) && all_columns_exist(self@.meta.names, predicate_columns(predicates@))),
            },
    {
        if !self.has_aggregate_columns(aggregates) {
            return Err(Error::ColumnNotFound);
        }
        if !self.has_predicate_columns(predicates) {
            return Err(Error::ColumnNotFound);
        }
        let mut acc: Vec<AggregateResult> = Vec::new();
        let mut a: usize = 0;
        while a < aggregates.len()
            invariant
                a <= aggregates.len(),
                acc@.len() == a,
                forall|b: int| 0 <= b < a ==> (#[trigger] acc@[b])@ == initial(aggregates@[b].1),
            decreases aggregates.len() - a,
        {
            acc.push(AggregateResult::new(aggregates[a].1));
            a += 1;
        }
        let segments = self.filter_row_groups(predicates);
        let ghost survivors = kept(self@.row_groups, predicates@, self@.row_groups.len() as int);
        proof {
            lemma_kept_in_range(self@.row_groups, predicates@, self@.row_groups.len() as int);
        }
        let mut i: usize = 0;
        while i < segments.len()
            invariant
                self.wf(),
                i <= segments.len(),
                all_columns_exist(self@.meta.names, aggregate_columns(aggregates@)),
                all_columns_exist(self@.meta.names, predicate_columns(predicates@)),
                survivors == kept(self@.row_groups, predicates@, self@.row_groups.len() as int),
                segments@.len() == survivors.len(),
                forall|i: int|
                    0 <= i < survivors.len() ==> 0 <= #[trigger] survivors[i]
                        < self@.row_groups.len(),
                forall|i: int|
                    0 <= i < segments@.len() ==> (#[trigger] segments@[i]).wf() && segments@[i]@
                        == self@.row_groups[survivors[i]],
                acc@.len() == aggregates@.len(),
                forall|b: int|
                    0 <= b < aggregates@.len() ==> (#[trigger] acc@[b])@ == table_aggregate(
                        self@.row_groups,
                        survivors,
                        predicates@,
                        aggregates@[b].1,
                        aggregates@[b].0@,
                        i as int,
                    ),
            decreases segments.len() - i,
        {
            let segment = segments[i];
            assert(same_schema(self@.meta, self@.row_groups[survivors[i as int]]));
            match segment.aggregate_into(predicates, aggregates, acc) {
                Ok(next) => {
                    acc = next;
                },
                Err(_) => {
                    assert(false);
                    acc = Vec::new();
                },
            }
            i += 1;
        }
        Ok(acc)
    }

    /// The requested aggregates over the rows of the table whose timestamp
    /// lies in `[time_range.0, time_range.1)` and that meet every predicate,
    /// each under the name of its column.
    pub fn read_aggregate_no_group(
        &self,
        time_range: (i64, i64),
        predicates: &[Predicate],
        aggregates: &[(String, AggregateType)],
    ) -> (r: Result<Vec<(String, AggregateResult)>, Error>)
        requires
            self.wf(),
        ensures
            match r {
                Ok(res) => {
                    &&& all_columns_exist(self@.meta.names, aggregate_columns(aggregates@))
                    &&& all_columns_exist(self@.meta.names, predicate_columns(predicates@))
                    &&& res@.len() == aggregates@.len()
                    &&& exists|combined: Seq<Predicate>|
                        {
                            let survivors = kept(
                                self@.row_groups,
                                combined,
                                self@.row_groups.len() as int,
                            );
                            &&& #[trigger] time_bounded(
                                combined,
                                time_range.0 as int,
                                time_range.1 as int,
                                predicates@,
                            )
                            &&& forall|a: int|
                                0 <= a < aggregates@.len() ==> (#[trigger] res@[a]).0@
                                    == aggregates@[a].0@ && res@[a].1@ == table_aggregate(
                                    self@.row_groups,
                                    survivors,
                                    combined,
                                    aggregates@[a].1,
                                    aggregates@[a].0@,
                                    survivors.len() as int,
                                )
                        }
                },
                Err(e) => e is ColumnNotFound && !(all_columns_exist(
                    self@.meta.names,
                    aggregate_columns(aggregates@),
                ) && all_columns_exist(self@.meta.names, predicate_columns(predicates@))),
            },
    {
        if !self.has_predicate_columns(predicates) {
            return Err(Error::ColumnNotFound);
        }
        let combined = within_time_range(time_range.0, time_range.1, predicates);
        match self.aggregate_all(combined.as_slice(), aggregates) {
            Ok(found) => {
                let mut res: Vec<(String, AggregateResult)> = Vec::new();
                let mut a: usize = 0;
                while a < aggregates.len()
                    invariant
                        a <= aggregates.len(),
                        found@.len() == aggregates@.len(),
                        res@.len() == a,
                        forall|b: int|
                            0 <= b < a ==> (#[trigger] res@[b]).0@ == aggregates@[b].0@
                                && res@[b].1@ == found@[b]@,
                    decreases aggregates.len() - a,
                {
                    res.push((aggregates[a].0.clone(), found[a].duplicate()));
                    a += 1;
                }
                proof {
                    assert(time_bounded(
                        combined@,
                        time_range.0 as int,
                        time_range.1 as int,
                        predicates@,
                    ));
                }
                Ok(res)
            },
            Err(e) => {
                proof {
                    if all_columns_exist(self@.meta.names, aggregate_columns(aggregates@)) {
                        assert(!all_columns_exist(self@.meta.names, predicate_columns(combined@)));
                        let bad = choose|j: int|
                            0 <= j < predicate_columns(combined@).len() && !has_column(
                                self@.meta.names,
                                #[trigger] predicate_columns(combined@)[j],
                            );
                        if bad >= 2 {
                            assert(combined@[bad - 2 + 2].0@ == predicates@[bad - 2].0@);
                            assert(has_column(
                                self@.meta.names,
                                predicate_columns(predicates@)[bad - 2],
                            ));
                        }
                        assert(false);
                    }
                }
                Err(Error::ColumnNotFound)
            },
        }
    }

    /// One aggregate over one column in the rows that meet every predicate;
    /// nothing when the table has no such column.
    fn single(&self, predicates: &[Predicate], column_name: &str, kind: AggregateType) -> (r: Option<
        AggregateResult,
    >)
        requires
            self.wf(),
            all_columns_exist(self@.meta.names, predicate_columns(predicates@)),
        ensures
            match r {
                Some(res) => has_column(self@.meta.names, column_name@) && res@
                    == column_aggregate(self@, predicates@, kind, column_name@) && kind_of(res@)
                    == kind,
                None => !has_column(self@.meta.names, column_name@),
            },
    {
        let mut wanted: Vec<(String, AggregateType)> = Vec::new();
        wanted.push((column_name.to_owned(), kind));
        assert(aggregate_columns(wanted@)[0] == column_name@);
        match self.aggregate_all(predicates, wanted.as_slice()) {
            Ok(mut found) => {
                proof {
                    let survivors = kept(
                        self@.row_groups,
                        predicates@,
                        self@.row_groups.len() as int,
                    );
                    lemma_table_aggregate_kind(
                        self@.row_groups,
                        survivors,
                        predicates@,
                        kind,
                        column_name@,
                        survivors.len() as int,
                    );
                }
                found.pop()
            },
            Err(_) => None,
        }
    }

    /// The number of non-null values of the column in the rows whose
    /// timestamp lies in `[time_range.0, time_range.1)`, up to the greatest
    /// 64-bit value; zero when the table has no such column. Row groups whose
    /// time range does not meet the range of the query are skipped; a row
    /// group whose time span lies within the range of the query contributes
    /// its cached number of values without being read; any other row group is
    /// scanned.
    pub fn count(&self, column_name: &str, time_range: (i64, i64)) -> (r: u64)
        requires
            self.wf(),
        ensures
            if has_column(self@.meta.names, column_name@) {
                exists|predicates: Seq<Predicate>|
                    #[trigger] time_bounded(
                        predicates,
                        time_range.0 as int,
                        time_range.1 as int,
                        Seq::empty(),
                    ) && AggregateModel::Count(r as int) == column_aggregate(
                        self@,
                        predicates,
                        AggregateType::Count,
                        column_name@,
                    )
            } else {
                r == 0
            },
    {
        let unrestricted: Vec<Predicate> = Vec::new();
        let predicates = within_time_range(time_range.0, time_range.1, unrestricted.as_slice());
        let ghost from = time_range.0 as int;
        let ghost to = time_range.1 as int;
        proof {
            assert(time_bounded(predicates@, from, to, Seq::empty()));
            self.lemma_time_predicates_exist(predicates@, from, to);
        }
        let c = match self.find_column(column_name) {
            Some(c) => c,
            None => {
                return 0;
            },
        };
        let mut wanted: Vec<(String, AggregateType)> = Vec::new();
        wanted.push((column_name.to_owned(), AggregateType::Count));
        let segments = self.filter_row_groups(predicates.as_slice());
        let ghost rgs = self@.row_groups;
        let ghost survivors = kept(rgs, predicates@, rgs.len() as int);
        proof {
            lemma_kept_in_range(rgs, predicates@, rgs.len() as int);
        }
        let mut acc: u64 = 0;
        let mut i: usize = 0;
        while i < segments.len()
            invariant
                self.wf(),
                rgs == self@.row_groups,
                survivors == kept(rgs, predicates@, rgs.len() as int),
                from == time_range.0 as int,
                to == time_range.1 as int,
                time_bounded(predicates@, from, to, Seq::empty()),
                all_columns_exist(self@.meta.names, predicate_columns(predicates@)),
                c < self@.meta.names.len(),
                self@.meta.names[c as int] == column_name@,
                wanted@.len() == 1,
                wanted@[0].0@ == column_name@,
                wanted@[0].1 == AggregateType::Count,
                i <= segments.len(),
                segments@.len() == survivors.len(),
                forall|i: int| 0 <= i < survivors.len() ==> 0 <= #[trigger] survivors[i] < rgs.len(),
                forall|i: int|
                    0 <= i < segments@.len() ==> (#[trigger] segments@[i]).wf() && segments@[i]@
                        == rgs[survivors[i]],
                AggregateModel::Count(acc as int) == table_aggregate(
                    rgs,
                    survivors,
                    predicates@,
                    AggregateType::Count,
                    column_name@,
                    i as int,
                ),
            decreases segments.len() - i,
        {
            let segment = segments[i];
            let ghost m = rgs[survivors[i as int]];
            assert(segment@ == m);
            assert(same_schema(self@.meta, m));
            proof {
                crate::row_group::lemma_column_unique(m.names, column_name@, c as int);
                lemma_accumulated_kind(
                    m,
                    AggregateModel::Count(acc as int),
                    c as int,
                    selected_rows(m, predicates@, m.rows as int),
                );
            }
            let span = segment.time_range();
            let column = segment.column(c);
            if time_range.0 <= span.0 && span.1 < time_range.1 {
                let next = add_counts(acc, column.present() as u64);
                proof {
                    lemma_whole_span_selects_all(m, predicates@, from, to, m.rows as int);
                    lemma_count_of_rows(m, acc as int, c as int, m.rows as int);
                }
                acc = next;
            } else {
                let mut current: Vec<AggregateResult> = Vec::new();
                current.push(AggregateResult::Count(acc));
                assert(aggregate_columns(wanted@)[0] == column_name@);
                let carried = match segment.aggregate_into(
                    predicates.as_slice(),
                    wanted.as_slice(),
                    current,
                ) {
                    Ok(mut next) => next.pop(),
                    Err(_) => None,
                };
                acc = match carried {
                    Some(AggregateResult::Count(n)) => n,
                    _ => {
                        assert(false);
                        0
                    },
                };
            }
            i += 1;
        }
        acc
    }

    /// The sum of the integer values of the column in the rows whose
    /// timestamp lies in `[time_range.0, time_range.1)`; nothing when the
    /// table has no such column.
    pub fn sum(&self, column_name: &str, time_range: (i64, i64)) -> (r: Option<Scalar>)
        requires
            self.wf(),
        ensures
            match r {
                Some(s) => has_column(self@.meta.names, column_name@) && exists|
                    predicates: Seq<Predicate>,
                |
                    #[trigger] time_bounded(
                        predicates,
                        time_range.0 as int,
                        time_range.1 as int,
                        Seq::empty(),
                    ) && AggregateModel::Sum(s@) == column_aggregate(
                        self@,
                        predicates,
                        AggregateType::Sum,
                        column_name@,
                    ),
                None => !has_column(self@.meta.names, column_name@),
            },
    {
        let unrestricted: Vec<Predicate> = Vec::new();
        let predicates = within_time_range(time_range.0, time_range.1, unrestricted.as_slice());
        proof {
            assert(time_bounded(
                predicates@,
                time_range.0 as int,
                time_range.1 as int,
                Seq::empty(),
            ));
            self.lemma_time_predicates_exist(predicates@, time_range.0 as int, time_range.1 as int);
        }
        match self.single(predicates.as_slice(), column_name, AggregateType::Sum) {
            Some(AggregateResult::Sum(s)) => Some(s),
            _ => None,
        }
    }

    /// The least non-null value of the column in the rows whose timestamp
    /// lies in `[time_range.0, time_range.1)`; null when there is none or the
    /// table has no such column. Row groups whose time range does not meet
    /// the range of the query are skipped; a row group whose time span lies
    /// within the range of the query, and whose column holds values of one
    /// kind, contributes the lower end of its cached range without being
    /// read; any other row group is scanned.
    pub fn min(&self, column_name: &str, time_range: (i64, i64)) -> (r: Value)
        requires
            self.wf(),
        ensures
            if has_column(self@.meta.names, column_name@) {
                exists|predicates: Seq<Predicate>|
                    #[trigger] time_bounded(
                        predicates,
                        time_range.0 as int,
                        time_range.1 as int,
                        Seq::empty(),
                    ) && AggregateModel::Min(r@) == column_aggregate(
                        self@,
                        predicates,
                        AggregateType::Min,
                        column_name@,
                    )
            } else {
                r@ is Null
            },
    {
        let unrestricted: Vec<Predicate> = Vec::new();
        let predicates = within_time_range(time_range.0, time_range.1, unrestricted.as_slice());
        let ghost from = time_range.0 as int;
        let ghost to = time_range.1 as int;
        proof {
            assert(time_bounded(predicates@, from, to, Seq::empty()));
            self.lemma_time_predicates_exist(predicates@, from, to);
        }
        let c = match self.find_column(column_name) {
            Some(c) => c,
            None => {
                return Value::Null;
            },
        };
        let mut wanted: Vec<(String, AggregateType)> = Vec::new();
        wanted.push((column_name.to_owned(), AggregateType::Min));
        let segments = self.filter_row_groups(predicates.as_slice());
        let ghost rgs = self@.row_groups;
        let ghost survivors = kept(rgs, predicates@, rgs.len() as int);
        proof {
            lemma_kept_in_range(rgs, predicates@, rgs.len() as int);
        }
        let mut acc = Value::Null;
        let mut i: usize = 0;
        while i < segments.len()
            invariant
                self.wf(),
                rgs == self@.row_groups,
                survivors == kept(rgs, predicates@, rgs.len() as int),
                from == time_range.0 as int,
                to == time_range.1 as int,
                time_bounded(predicates@, from, to, Seq::empty()),
                all_columns_exist(self@.meta.names, predicate_columns(predicates@)),
                c < self@.meta.names.len(),
                self@.meta.names[c as int] == column_name@,
                wanted@.len() == 1,
                wanted@[0].0@ == column_name@,
                wanted@[0].1 == AggregateType::Min,
                i <= segments.len(),
                segments@.len() == survivors.len(),
                forall|i: int| 0 <= i < survivors.len() ==> 0 <= #[trigger] survivors[i] < rgs.len(),
                forall|i: int|
                    0 <= i < segments@.len() ==> (#[trigger] segments@[i]).wf() && segments@[i]@
                        == rgs[survivors[i]],
                AggregateModel::Min(acc@) == table_aggregate(
                    rgs,
                    survivors,
                    predicates@,
                    AggregateType::Min,
                    column_name@,
                    i as int,
                ),
            decreases segments.len() - i,
        {
            let segment = segments[i];
            let ghost m = rgs[survivors[i as int]];
            assert(segment@ == m);
            assert(same_schema(self@.meta, m));
            proof {
                crate::row_group::lemma_column_unique(m.names, column_name@, c as int);
                lemma_accumulated_kind(
                    m,
                    AggregateModel::Min(acc@),
                    c as int,
                    selected_rows(m, predicates@, m.rows as int),
                );
            }
            let span = segment.time_range();
            let column = segment.column(c);
            if time_range.0 <= span.0 && span.1 < time_range.1 && column.is_uniform() {
                let end = match column.range() {
                    Some((lo, _)) => lo.duplicate(),
                    None => Value::Null,
                };
                let next = acc.lesser_of(&end);
                proof {
                    lemma_whole_span_selects_all(m, predicates@, from, to, m.rows as int);
                    lemma_min_of_rows(m, acc@, c as int, m.rows as int);
                    lemma_least_is_lower_end(
                        accumulated_from(
                            m,
                            AggregateModel::Min(acc@),
                            c as int,
                            first_rows(m.rows as int),
                        )->Min_0,
                        acc@,
                        m.columns[c as int].values,
                        m.columns[c as int].range,
                    );
                }
                acc = next;
            } else {
                let mut current: Vec<AggregateResult> = Vec::new();
                current.push(AggregateResult::Min(acc));
                assert(aggregate_columns(wanted@)[0] == column_name@);
                let carried = match segment.aggregate_into(
                    predicates.as_slice(),
                    wanted.as_slice(),
                    current,
                ) {
                    Ok(mut next) => next.pop(),
                    Err(_) => None,
                };
                acc = match carried {
                    Some(AggregateResult::Min(v)) => v,
                    _ => {
                        assert(false);
                        Value::Null
                    },
                };
            }
            i += 1;
        }
        acc
    }

    /// The greatest non-null value of the column in the rows whose timestamp
    /// lies in `[time_range.0, time_range.1)`; null when there is none or the
    /// table has no such column. Row groups are skipped, answered from their
    /// cached range or scanned as for `min`.
    pub fn max(&self, column_name: &str, time_range: (i64, i64)) -> (r: Value)
        requires
            self.wf(),
        ensures
            if has_column(self@.meta.names, column_name@) {
                exists|predicates: Seq<Predicate>|
                    #[trigger] time_bounded(
                        predicates,
                        time_range.0 as int,
                        time_range.1 as int,
                        Seq::empty(),
                    ) && AggregateModel::Max(r@) == column_aggregate(
                        self@,
                        predicates,
                        AggregateType::Max,
                        column_name@,
                    )
            } else {
                r@ is Null
            },
    {
        let unrestricted: Vec<Predicate> = Vec::new();
        let predicates = within_time_range(time_range.0, time_range.1, unrestricted.as_slice());
        let ghost from = time_range.0 as int;
        let ghost to = time_range.1 as int;
        proof {
            assert(time_bounded(predicates@, from, to, Seq::empty()));
            self.lemma_time_predicates_exist(predicates@, from, to);
        }
        let c = match self.find_column(column_name) {
            Some(c) => c,
            None => {
                return Value::Null;
            },
        };
        let mut wanted: Vec<(String, AggregateType)> = Vec::new();
        wanted.push((column_name.to_owned(), AggregateType::Max));
        let segments = self.filter_row_groups(predicates.as_slice());
        let ghost rgs = self@.row_groups;
        let ghost survivors = kept(rgs, predicates@, rgs.len() as int);
        proof {
            lemma_kept_in_range(rgs, predicates@, rgs.len() as int);
        }
        let mut acc = Value::Null;
        let mut i: usize = 0;
        while i < segments.len()
            invariant
                self.wf(),
                rgs == self@.row_groups,
                survivors == kept(rgs, predicates@, rgs.len() as int),
                from == time_range.0 as int,
                to == time_range.1 as int,
                time_bounded(predicates@, from, to, Seq::empty()),
                all_columns_exist(self@.meta.names, predicate_columns(predicates@)),
                c < self@.meta.names.len(),
                self@.meta.names[c as int] == column_name@,
                wanted@.len() == 1,
                wanted@[0].0@ == column_name@,
                wanted@[0].1 == AggregateType::Max,
                i <= segments.len(),
                segments@.len() == survivors.len(),
                forall|i: int| 0 <= i < survivors.len() ==> 0 <= #[trigger] survivors[i] < rgs.len(),
                forall|i: int|
                    0 <= i < segments@.len() ==> (#[trigger] segments@[i]).wf() && segments@[i]@
                        == rgs[survivors[i]],
                AggregateModel::Max(acc@) == table_aggregate(
                    rgs,
                    survivors,
                    predicates@,
                    AggregateType::Max,
                    column_name@,
                    i as int,
                ),
            decreases segments.len() - i,
        {
            let segment = segments[i];
            let ghost m = rgs[survivors[i as int]];
            assert(segment@ == m);
            assert(same_schema(self@.meta, m));
            proof {
                crate::row_group::lemma_column_unique(m.names, column_name@, c as int);
                lemma_accumulated_kind(
                    m,
                    AggregateModel::Max(acc@),
                    c as int,
                    selected_rows(m, predicates@, m.rows as int),
                );
            }
            let span = segment.time_range();
            let column = segment.column(c);
            if time_range.0 <= span.0 && span.1 < time_range.1 && column.is_uniform() {
                let end = match column.range() {
                    Some((_, hi)) => hi.duplicate(),
                    None => Value::Null,
                };
                let next = acc.greater_of(&end);
                proof {
                    lemma_whole_span_selects_all(m, predicates@, from, to, m.rows as int);
                    lemma_max_of_rows(m, acc@, c as int, m.rows as int);
                    lemma_greatest_is_upper_end(
                        accumulated_from(
                            m,
                            AggregateModel::Max(acc@),
                            c as int,
                            first_rows(m.rows as int),
                        )->Max_0,
                        acc@,
                        m.columns[c as int].values,
                        m.columns[c as int].range,
                    );
                }
                acc = next;
            } else {
                let mut current: Vec<AggregateResult> = Vec::new();
                current.push(AggregateResult::Max(acc));
                assert(aggregate_columns(wanted@)[0] == column_name@);
                let carried = match segment.aggregate_into(
                    predicates.as_slice(),
                    wanted.as_slice(),
                    current,
                ) {
                    Ok(mut next) => next.pop(),
                    Err(_) => None,
                };
                acc = match carried {
                    Some(AggregateResult::Max(v)) => v,
                    _ => {
                        assert(false);
                        Value::Null
                    },
                };
            }
            i += 1;
        }
        acc
    }

    /// The value of the column in the row with the earliest timestamp that
    /// is not below `time_lower_bound`, with that timestamp; among rows with
    /// that timestamp the first in table order. Nothing when there is no
    /// such row or the table has no such column.
    pub fn first(&self, column_name: &str, time_lower_bound: i64) -> (r: Option<(i64, Value)>)
        requires
            self.wf(),
        ensures
            if has_column(self@.meta.names, column_name@) {
                exists|predicates: Seq<Predicate>|
                    #[trigger] time_bound(predicates, Operator::GTE, time_lower_bound as int)
                        && (AggregateResult::First(r))@ == column_aggregate(
                        self@,
                        predicates,
                        AggregateType::First,
                        column_name@,
                    )
            } else {
                r is None
            },
    {
        let mut predicates: Vec<Predicate> = Vec::new();
        predicates.push(
            (
                TIME_COLUMN_NAME.to_owned(),
                (Operator::GTE, Value::Scalar(Scalar::I64(time_lower_bound))),
            ),
        );
        proof {
            assert(predicate_columns(predicates@)[0] == TIME_COLUMN_NAME@);
            assert(time_bound(predicates@, Operator::GTE, time_lower_bound as int));
        }
        match self.single(predicates.as_slice(), column_name, AggregateType::First) {
            Some(AggregateResult::First(found)) => found,
            _ => None,
        }
    }

    /// The value of the column in the row with the latest timestamp below
    /// `time_upper_bound`, with that timestamp; among rows with that
    /// timestamp the first in table order. Nothing when there is no such row
    /// or the table has no such column.
    pub fn last(&self, column_name: &str, time_upper_bound: i64) -> (r: Option<(i64, Value)>)
        requires
            self.wf(),
        ensures
            if has_column(self@.meta.names, column_name@) {
                exists|predicates: Seq<Predicate>|
                    #[trigger] time_bound(predicates, Operator::LT, time_upper_bound as int) && (
                    AggregateResult::Last(r))@ == column_aggregate(
                        self@,
                        predicates,
                        AggregateType::Last,
                        column_name@,
                    )
            } else {
                r is None
            },
    {
        let mut predicates: Vec<Predicate> = Vec::new();
        predicates.push(
            (
                TIME_COLUMN_NAME.to_owned(),
                (Operator::LT, Value::Scalar(Scalar::I64(time_upper_bound))),
            ),
        );
        proof {
            assert(predicate_columns(predicates@)[0] == TIME_COLUMN_NAME@);
            assert(time_bound(predicates@, Operator::LT, time_upper_bound as int));
        }
        match self.single(predicates.as_slice(), column_name, AggregateType::Last) {
            Some(AggregateResult::Last(found)) => found,
            _ => None,
        }
    }

    /// The two predicates of a time range name a column of the table.
    proof fn lemma_time_predicates_exist(&self, predicates: Seq<Predicate>, from: int, to: int)
        requires
            self.wf(),
            time_bounded(predicates, from, to, Seq::empty()),
        ensures
            all_columns_exist(self@.meta.names, predicate_columns(predicates)),
    {
        assert forall|j: int| 0 <= j < predicate_columns(predicates).len() implies has_column(
            self@.meta.names,
            #[trigger] predicate_columns(predicates)[j],
        ) by {
            assert(predicate_columns(predicates)[j] == predicates[j].0@);
        }
    }

    /// Whether column `c` holds, in some row group, a value that is not null
    /// in a row that meets every predicate.
    fn column_in_use(&self, predicates: &[Predicate], c: usize) -> (r: bool)
        requires
            self.wf(),
            c < self@.meta.names.len(),
            all_columns_exist(self@.meta.names, predicate_columns(predicates@)),
        ensures
            r == (exists|g: int|
                0 <= g < self@.row_groups.len() && #[trigger] column_has_value(
                    self@.row_groups[g],
                    predicates@,
                    c as int,
                )),
    {
        let mut g: usize = 0;
        while g < self.row_groups.len()
            invariant
                self.wf(),
                c < self@.meta.names.len(),
                all_columns_exist(self@.meta.names, predicate_columns(predicates@)),
                g <= self.row_groups.len(),
                forall|h: int|
                    0 <= h < g ==> !#[trigger] column_has_value(
                        self@.row_groups[h],
                        predicates@,
                        c as int,
                    ),
            decreases self.row_groups.len() - g,
        {
            let rg = &self.row_groups[g];
            let ghost m = self@.row_groups[g as int];
            assert(rg@ == m);
            assert(same_schema(self@.meta, m));
            if rg.could_satisfy_all(predicates) {
                match rg.has_value(predicates, c) {
                    Ok(true) => {
                        return true;
                    },
                    Ok(false) => {},
                    Err(_) => {
                        assert(false);
                    },
                }
            } else {
                proof {
                    if column_has_value(m, predicates@, c as int) {
                        let r = choose|r: int|
                            0 <= r < m.rows && row_matches(m, r, predicates@) && !(
                            #[trigger] m.columns[c as int].values[r] is Null);
                        crate::row_group::lemma_match_passes(m, predicates@, r);
                    }
                }
            }
            g += 1;
        }
        false
    }

    /// The tag keys of the table in the rows that meet every predicate: the
    /// names of the tag columns that hold a value in such a row, in ascending
    /// order, without those that `found_columns` lists already. Fails when a
    /// predicate names a column that is not a column of the table.
    pub fn tag_keys_matching(&self, predicates: &[Predicate], found_columns: &[String]) -> (r: Result<
        Vec<String>,
        Error,
    >)
        requires
            self.wf(),
        ensures
            match r {
                Ok(keys) => {
                    &&& all_columns_exist(self@.meta.names, predicate_columns(predicates@))
                    &&& ascending(keys@)
                    &&& forall|name: Seq<char>|
                        #[trigger] lists_name(keys@, name) <==> is_tag_key(
                            self@,
                            predicates@,
                            name,
                        ) && !lists_name(found_columns@, name)
                },
                Err(e) => e is ColumnNotFound && !all_columns_exist(
                    self@.meta.names,
                    predicate_columns(predicates@),
                ),
            },
    {
        if !self.has_predicate_columns(predicates) {
            return Err(Error::ColumnNotFound);
        }
        let ghost t = self@;
        let mut keys: Vec<String> = Vec::new();
        let mut c: usize = 0;
        while c < self.meta.names.len()
            invariant
                self.wf(),
                t == self@,
                all_columns_exist(t.meta.names, predicate_columns(predicates@)),
                c <= self.meta.names.len(),
                self.meta.names@.len() == t.meta.names.len(),
                ascending(keys@),
                forall|name: Seq<char>|
                    #[trigger] lists_name(keys@, name) <==> tag_key_among(
                        t,
                        predicates@,
                        name,
                        c as int,
                    ) && !lists_name(found_columns@, name),
            decreases self.meta.names.len() - c,
        {
            let name = &self.meta.names[c];
            assert(name@ == t.meta.names[c as int]);
            assert(self.meta.kinds@[c as int] == t.meta.kinds[c as int]);
            let ghost before = keys@;
            let is_tag = match self.meta.kinds[c] {
                ColumnKind::Tag => true,
                _ => false,
            };
            let mut added = false;
            if is_tag && !holds_name(found_columns, name.as_str()) {
                if self.column_in_use(predicates, c) {
                    insert_sorted(&mut keys, name.as_str());
                    added = true;
                }
            }
            proof {
                assert forall|other: Seq<char>| #[trigger]
                    lists_name(keys@, other) <==> tag_key_among(t, predicates@, other, c + 1)
                        && !lists_name(found_columns@, other) by {
                    if tag_key_among(t, predicates@, other, c + 1) && !lists_name(
                        found_columns@,
                        other,
                    ) {
                        let (d, g) = choose|d: int, g: int|
                            0 <= d < c + 1 && d < t.meta.names.len() && t.meta.names[d] == other
                                && t.meta.kinds[d] == ColumnKind::Tag && 0 <= g
                                < t.row_groups.len() && #[trigger] column_has_value(
                                t.row_groups[g],
                                predicates@,
                                d,
                            );
                        if d < c {
                            assert(tag_key_among(t, predicates@, other, c as int));
                        } else {
                            assert(added);
                        }
                    }
                    if lists_name(keys@, other) {
                        if lists_name(before, other) {
                            assert(tag_key_among(t, predicates@, other, c as int));
                            let (d, g) = choose|d: int, g: int|
                                0 <= d < c && d < t.meta.names.len() && t.meta.names[d] == other
                                    && t.meta.kinds[d] == ColumnKind::Tag && 0 <= g
                                    < t.row_groups.len() && #[trigger] column_has_value(
                                    t.row_groups[g],
                                    predicates@,
                                    d,
                                );
                            assert(0 <= d < c + 1 && column_has_value(
                                t.row_groups[g],
                                predicates@,
                                d,
                            ));
                        } else {
                            assert(added && other == name@);
                            let g = choose|g: int|
                                0 <= g < t.row_groups.len() && #[trigger] column_has_value(
                                    t.row_groups[g],
                                    predicates@,
                                    c as int,
                                );
                            assert(column_has_value(t.row_groups[g], predicates@, c as int));
                        }
                    }
                }
            }
            c += 1;
        }
        Ok(keys)
    }

    /// The tag keys of the table in the rows whose timestamp lies in
    /// `[time_range.0, time_range.1)` and that meet every predicate: the
    /// names of the tag columns that hold a value in such a row, in ascending
    /// order, without those that `found_columns` lists already. Fails when a
    /// predicate names a column that is not a column of the table.
    pub fn tag_keys(&self, time_range: (i64, i64), predicates: &[Predicate], found_columns: &[String]) -> (r:
        Result<Vec<String>, Error>)
        requires
            self.wf(),
        ensures
            match r {
                Ok(keys) => {
                    &&& all_columns_exist(self@.meta.names, predicate_columns(predicates@))
                    &&& ascending(keys@)
                    &&& exists|combined: Seq<Predicate>|
                        {
                            &&& #[trigger] time_bounded(
                                combined,
                                time_range.0 as int,
                                time_range.1 as int,
                                predicates@,
                            )
                            &&& forall|name: Seq<char>|
                                #[trigger] lists_name(keys@, name) <==> is_tag_key(
                                    self@,
                                    combined,
                                    name,
                                ) && !lists_name(found_columns@, name)
                        }
                },
                Err(e) => e is ColumnNotFound && !all_columns_exist(
                    self@.meta.names,
                    predicate_columns(predicates@),
                ),
            },
    {
        if !self.has_predicate_columns(predicates) {
            return Err(Error::ColumnNotFound);
        }
        let combined = within_time_range(time_range.0, time_range.1, predicates);
        proof {
            assert forall|j: int| 0 <= j < predicate_columns(combined@).len() implies has_column(
                self@.meta.names,
                #[trigger] predicate_columns(combined@)[j],
            ) by {
                assert(predicate_columns(combined@)[j] == combined@[j].0@);
                if j >= 2 {
                    assert(combined@[j - 2 + 2].0@ == predicates@[j - 2].0@);
                    assert(has_column(self@.meta.names, predicate_columns(predicates@)[j - 2]));
                }
            }
            assert(time_bounded(
                combined@,
                time_range.0 as int,
                time_range.1 as int,
                predicates@,
            ));
        }
        match self.tag_keys_matching(combined.as_slice(), found_columns) {
            Ok(keys) => Ok(keys),
            Err(_) => {
                assert(false);
                Err(Error::ColumnNotFound)
            },
        }
    }

    /// The texts that column `c` holds in rows that meet every predicate, in
    /// ascending order, each once.
    fn column_texts(&self, predicates: &[Predicate], c: usize) -> (r: Vec<String>)
        requires
            self.wf(),
            c < self@.meta.names.len(),
            all_columns_exist(self@.meta.names, predicate_columns(predicates@)),
        ensures
            ascending(r@),
            forall|v: Seq<char>|
                #[trigger] lists_name(r@, v) <==> tag_value_among(
                    self@,
                    predicates@,
                    c as int,
                    v,
                    self@.row_groups.len() as int,
                ),
    {
        let ghost t = self@;
        let mut out: Vec<String> = Vec::new();
        let mut g: usize = 0;
        while g < self.row_groups.len()
            invariant
                self.wf(),
                t == self@,
                c < t.meta.names.len(),
                all_columns_exist(t.meta.names, predicate_columns(predicates@)),
                g <= self.row_groups.len(),
                ascending(out@),
                forall|v: Seq<char>|
                    #[trigger] lists_name(out@, v) <==> tag_value_among(
                        t,
                        predicates@,
                        c as int,
                        v,
                        g as int,
                    ),
            decreases self.row_groups.len() - g,
        {
            let rg = &self.row_groups[g];
            let ghost m = t.row_groups[g as int];
            assert(rg@ == m);
            assert(same_schema(t.meta, m));
            let ghost before = out@;
            let mut read = false;
            if rg.could_satisfy_all(predicates) {
                match rg.collect_texts(predicates, c, &mut out) {
                    Ok(_) => {
                        read = true;
                    },
                    Err(_) => {
                        assert(false);
                    },
                }
            }
            proof {
                assert forall|v: Seq<char>| #[trigger]
                    lists_name(out@, v) <==> tag_value_among(t, predicates@, c as int, v, g + 1) by {
                    let here = column_has_text(m, predicates@, c as int, v);
                    if here && !read {
                        let r = choose|r: int|
                            0 <= r < m.rows && row_matches(m, r, predicates@)
                                && #[trigger] m.columns[c as int].values[r] == ValueModel::Text(
                                vstd::utf8::encode_utf8(v),
                            );
                        crate::row_group::lemma_match_passes(m, predicates@, r);
                    }
                    if tag_value_among(t, predicates@, c as int, v, g + 1) {
                        let h = choose|h: int|
                            0 <= h < g + 1 && h < t.row_groups.len() && #[trigger] column_has_text(
                                t.row_groups[h],
                                predicates@,
                                c as int,
                                v,
                            );
                        if h < g {
                            assert(tag_value_among(t, predicates@, c as int, v, g as int));
                        }
                    }
                    if lists_name(before, v) {
                        assert(tag_value_among(t, predicates@, c as int, v, g as int));
                        let h = choose|h: int|
                            0 <= h < g && h < t.row_groups.len() && #[trigger] column_has_text(
                                t.row_groups[h],
                                predicates@,
                                c as int,
                                v,
                            );
                        assert(0 <= h < g + 1);
                    }
                    if here {
                        assert(column_has_text(t.row_groups[g as int], predicates@, c as int, v));
                    }
                }
            }
            g += 1;
        }
        out
    }

    /// Puts into the ascending list `out` every text that the column named
    /// `name` holds in a row that meets every predicate; a table without
    /// such a column adds nothing. Fails, leaving the list as it was, when a
    /// predicate names a column that is not a column of the table.
    pub fn texts_matching(&self, predicates: &[Predicate], name: &str, out: &mut Vec<String>) -> (r:
        Result<(), Error>)
        requires
            self.wf(),
            ascending(old(out)@),
        ensures
            ascending(final(out)@),
            match r {
                Ok(_) => all_columns_exist(self@.meta.names, predicate_columns(predicates@))
                    && forall|v: Seq<char>|
                    #[trigger] lists_name(final(out)@, v) <==> lists_name(old(out)@, v)
                        || has_tag_value(self@, predicates@, name@, v),
                Err(e) => e is ColumnNotFound && !all_columns_exist(
                    self@.meta.names,
                    predicate_columns(predicates@),
                ) && final(out)@ == old(out)@,
            },
    {
        if !self.has_predicate_columns(predicates) {
            return Err(Error::ColumnNotFound);
        }
        let c = match self.find_column(name) {
            Some(c) => c,
            None => {
                return Ok(());
            },
        };
        proof {
            crate::row_group::lemma_column_unique(self@.meta.names, name@, c as int);
        }
        let found = self.column_texts(predicates, c);
        let ghost start = out@;
        let mut i: usize = 0;
        while i < found.len()
            invariant
                i <= found.len(),
                ascending(out@),
                forall|v: Seq<char>|
                    #[trigger] lists_name(out@, v) <==> lists_name(start, v) || lists_name(
                        found@.take(i as int),
                        v,
                    ),
            decreases found.len() - i,
        {
            let ghost before = out@;
            insert_sorted(out, found[i].as_str());
            proof {
                assert forall|v: Seq<char>| #[trigger]
                    lists_name(out@, v) <==> lists_name(start, v) || lists_name(
                        found@.take(i + 1),
                        v,
                    ) by {
                    if lists_name(found@.take(i + 1), v) {
                        let j = choose|j: int|
                            0 <= j < i + 1 && (#[trigger] found@.take(i + 1)[j])@ == v;
                        if j < i {
                            assert(found@.take(i as int)[j]@ == v);
                            assert(lists_name(before, v));
                        }
                    }
                    if lists_name(found@.take(i as int), v) {
                        let j = choose|j: int|
                            0 <= j < i && (#[trigger] found@.take(i as int)[j])@ == v;
                        assert(found@.take(i + 1)[j]@ == v);
                    }
                    if v == found@[i as int]@ {
                        assert(found@.take(i + 1)[i as int]@ == v);
                    }
                }
            }
            i += 1;
        }
        proof {
            assert(found@.take(found@.len() as int) =~= found@);
        }
        Ok(())
    }

    /// Puts the name of every tag column of the table into the ascending
    /// list `out`.
    pub fn tag_columns_into(&self, out: &mut Vec<String>)
        requires
            self.wf(),
            ascending(old(out)@),
        ensures
            ascending(final(out)@),
            forall|name: Seq<char>|
                #[trigger] lists_name(final(out)@, name) <==> lists_name(old(out)@, name)
                    || tag_column_among(self@.meta, name, self@.meta.names.len() as int),
    {
        let ghost start = out@;
        let ghost meta = self@.meta;
        let mut c: usize = 0;
        while c < self.meta.names.len()
            invariant
                self.wf(),
                meta == self@.meta,
                c <= self.meta.names.len(),
                self.meta.names@.len() == meta.names.len(),
                self.meta.kinds@.len() == meta.names.len(),
                ascending(out@),
                forall|name: Seq<char>|
                    #[trigger] lists_name(out@, name) <==> lists_name(start, name)
                        || tag_column_among(meta, name, c as int),
            decreases self.meta.names.len() - c,
        {
            assert(self.meta.names@[c as int]@ == meta.names[c as int]);
            let ghost before = out@;
            let mut added = false;
            assert(self.meta.kinds@[c as int] == meta.kinds[c as int]);
            match self.meta.kinds[c] {
                ColumnKind::Tag => {
                    insert_sorted(out, self.meta.names[c].as_str());
                    added = true;
                },
                _ => {},
            }
            proof {
                assert forall|name: Seq<char>| #[trigger]
                    lists_name(out@, name) <==> lists_name(start, name) || tag_column_among(
                        meta,
                        name,
                        c + 1,
                    ) by {
                    if tag_column_among(meta, name, c + 1) {
                        let d = choose|d: int|
                            0 <= d < c + 1 && d < meta.names.len() && (#[trigger] meta.names[d])
                                == name && meta.kinds[d] == ColumnKind::Tag;
                        if d < c {
                            assert(tag_column_among(meta, name, c as int));
                        } else {
                            assert(added);
                        }
                    }
                    if lists_name(before, name) && !lists_name(start, name) {
                        assert(tag_column_among(meta, name, c as int));
                        let d = choose|d: int|
                            0 <= d < c && d < meta.names.len() && (#[trigger] meta.names[d]) == name
                                && meta.kinds[d] == ColumnKind::Tag;
                        assert(0 <= d < c + 1);
                    }
                    if added && name == meta.names[c as int] {
                        assert(meta.names[c as int] == name && meta.kinds[c as int]
                            == ColumnKind::Tag);
                    }
                }
            }
            c += 1;
        }
    }

    /// The position of the column named `name`, if the table has one.
    pub fn find_column(&self, name: &str) -> (r: Option<usize>)
        requires
            self.wf(),
        ensures
            match r {
                Some(c) => c < self@.meta.names.len() && self@.meta.names[c as int] == name@
                    && has_column(self@.meta.names, name@),
                None => !has_column(self@.meta.names, name@),
            },
    {
        let mut c: usize = 0;
        while c < self.meta.names.len()
            invariant
                c <= self.meta.names.len(),
                self.meta.names@.len() == self@.meta.names.len(),
                forall|d: int| 0 <= d < c ==> self@.meta.names[d] != name@,
            decreases self.meta.names.len() - c,
        {
            assert(self.meta.names@[c as int]@ == self@.meta.names[c as int]);
            if str_eq(self.meta.names[c].as_str(), name) {
                assert(crate::row_group::is_column(self@.meta.names, name@, c as int));
                return Some(c);
            }
            c += 1;
        }
        assert(!has_column(self@.meta.names, name@)) by {
            if has_column(self@.meta.names, name@) {
                let d = choose|d: int| crate::row_group::is_column(self@.meta.names, name@, d);
                assert(self@.meta.names[d] != name@);
            }
        }
        None
    }

    /// The tag values of the table in the rows whose timestamp lies in
    /// `[time_range.0, time_range.1)` and that meet every predicate: for each
    /// of the listed columns, or for every tag column when none is listed,
    /// the texts that the column holds in such rows, each once, in ascending
    /// order. Fails when a predicate or the list names a column that is not a
    /// column of the table.
    pub fn tag_values(&self, time_range: (i64, i64), predicates: &[Predicate], tag_keys: &[String]) -> (r:
        Result<Vec<(String, Vec<String>)>, Error>)
        requires
            self.wf(),
        ensures
            match r {
                Ok(res) => {
                    let wanted = wanted_tags(self@.meta, tag_keys@);
                    &&& all_columns_exist(self@.meta.names, predicate_columns(predicates@))
                    &&& all_columns_exist(self@.meta.names, wanted)
                    &&& res@.len() == wanted.len()
                    &&& exists|combined: Seq<Predicate>|
                        {
                            &&& #[trigger] time_bounded(
                                combined,
                                time_range.0 as int,
                                time_range.1 as int,
                                predicates@,
                            )
                            &&& forall|j: int|
                                0 <= j < wanted.len() ==> tag_values_are(
                                    #[trigger] res@[j],
                                    self@,
                                    combined,
                                    wanted[j],
                                )
                        }
                },
                Err(e) => e is ColumnNotFound && !(all_columns_exist(
                    self@.meta.names,
                    predicate_columns(predicates@),
                ) && all_columns_exist(self@.meta.names, wanted_tags(self@.meta, tag_keys@))),
            },
    {
        if !self.has_predicate_columns(predicates) {
            return Err(Error::ColumnNotFound);
        }
        let combined = within_time_range(time_range.0, time_range.1, predicates);
        proof {
            assert forall|j: int| 0 <= j < predicate_columns(combined@).len() implies has_column(
                self@.meta.names,
                #[trigger] predicate_columns(combined@)[j],
            ) by {
                assert(predicate_columns(combined@)[j] == combined@[j].0@);
                if j >= 2 {
                    assert(combined@[j - 2 + 2].0@ == predicates@[j - 2].0@);
                    assert(has_column(self@.meta.names, predicate_columns(predicates@)[j - 2]));
                }
            }
        }
        let ghost t = self@;
        let ghost wanted = wanted_tags(t.meta, tag_keys@);
        let mut res: Vec<(String, Vec<String>)> = Vec::new();
        if tag_keys.len() == 0 {
            let mut c: usize = 0;
            while c < self.meta.names.len()
                invariant
                    self.wf(),
                    t == self@,
                    distinct(t.meta.names),
                    all_columns_exist(t.meta.names, predicate_columns(combined@)),
                    c <= self.meta.names.len(),
                    self.meta.names@.len() == t.meta.names.len(),
                    res@.len() == tag_names(t.meta, c as int).len(),
                    forall|j: int|
                        0 <= j < res@.len() ==> tag_values_are(
                            #[trigger] res@[j],
                            t,
                            combined@,
                            tag_names(t.meta, c as int)[j],
                        ) && has_column(t.meta.names, tag_names(t.meta, c as int)[j]),
                decreases self.meta.names.len() - c,
            {
                assert(self.meta.names@[c as int]@ == t.meta.names[c as int]);
                assert(self.meta.kinds@[c as int] == t.meta.kinds[c as int]);
                let is_tag = match self.meta.kinds[c] {
                    ColumnKind::Tag => true,
                    _ => false,
                };
                if is_tag {
                    let texts = self.column_texts(combined.as_slice(), c);
                    proof {
                        crate::row_group::lemma_column_unique(
                            t.meta.names,
                            t.meta.names[c as int],
                            c as int,
                        );
                    }
                    res.push((self.meta.names[c].clone(), texts));
                }
                c += 1;
            }
            proof {
                assert(time_bounded(
                    combined@,
                    time_range.0 as int,
                    time_range.1 as int,
                    predicates@,
                ));
                assert forall|j: int| 0 <= j < wanted.len() implies has_column(
                    t.meta.names,
                    #[trigger] wanted[j],
                ) by {
                    assert(tag_values_are(res@[j], t, combined@, wanted[j]));
                }
            }
            Ok(res)
        } else {
            let mut j: usize = 0;
            while j < tag_keys.len()
                invariant
                    self.wf(),
                    t == self@,
                    distinct(t.meta.names),
                    all_columns_exist(t.meta.names, predicate_columns(combined@)),
                    wanted == tag_keys@.map_values(|k: String| k@),
                    j <= tag_keys.len(),
                    res@.len() == j,
                    forall|i: int|
                        0 <= i < j ==> tag_values_are(#[trigger] res@[i], t, combined@, wanted[i])
                            && has_column(t.meta.names, wanted[i]),
                decreases tag_keys.len() - j,
            {
                assert(wanted[j as int] == tag_keys@[j as int]@);
                match self.find_column(tag_keys[j].as_str()) {
                    Some(c) => {
                        let texts = self.column_texts(combined.as_slice(), c);
                        proof {
                            crate::row_group::lemma_column_unique(
                                t.meta.names,
                                wanted[j as int],
                                c as int,
                            );
                        }
                        res.push((tag_keys[j].clone(), texts));
                    },
                    None => {
                        return Err(Error::ColumnNotFound);
                    },
                }
                j += 1;
            }
            proof {
                assert(time_bounded(
                    combined@,
                    time_range.0 as int,
                    time_range.1 as int,
                    predicates@,
                ));
                assert forall|i: int| 0 <= i < wanted.len() implies has_column(
                    t.meta.names,
                    #[trigger] wanted[i],
                ) by {
                    assert(tag_values_are(res@[i], t, combined@, wanted[i]));
                }
            }
            Ok(res)
        }
    }

    /// The row groups that may hold rows meeting every predicate: those whose
    /// ranges rule none of the predicates out, in table order.
    pub fn filter_row_groups(&self, predicates: &[Predicate]) -> (r: Vec<&RowGroup>)
        requires
            self.wf(),
        ensures
            r@.len() == kept(self@.row_groups, predicates@, self@.row_groups.len() as int).len(),
            forall|i: int|
                0 <= i < r@.len() ==> (#[trigger] r@[i]).wf() && r@[i]@ == self@.row_groups[kept(
                    self@.row_groups,
                    predicates@,
                    self@.row_groups.len() as int,
                )[i]],
    {
        let mut rgs: Vec<&RowGroup> = Vec::new();
        let mut g: usize = 0;
        while g < self.row_groups.len()
            invariant
                self.wf(),
                g <= self.row_groups.len(),
                rgs@.len() == kept(self@.row_groups, predicates@, g as int).len(),
                forall|i: int|
                    0 <= i < rgs@.len() ==> (#[trigger] rgs@[i]).wf() && rgs@[i]@
                        == self@.row_groups[kept(self@.row_groups, predicates@, g as int)[i]],
            decreases self.row_groups.len() - g,
        {
            let rg = &self.row_groups[g];
            assert(rg@ == self@.row_groups[g as int]);
            if rg.could_satisfy_all(predicates) {
                rgs.push(rg);
            }
            g += 1;
        }
        rgs
    }

    /// The values of the requested columns in the rows that meet every
    /// predicate: one result for each row group that the ranges do not rule
    /// out, in table order, each holding the matching rows in row order. An
    /// empty list of columns asks for all columns. Fails when a requested
    /// column or the column of a predicate is not a column of the table.
    pub fn select(&self, columns: &[&str], predicates: &[Predicate]) -> (r: Result<
        ReadFilterResults,
        Error,
    >)
        requires
            self.wf(),
        ensures
            match r {
                Ok(res) => {
                    let survivors = kept(
                        self@.row_groups,
                        predicates@,
                        self@.row_groups.len() as int,
                    );
                    &&& all_columns_exist(self@.meta.names, str_views(columns@))
                    &&& all_columns_exist(self@.meta.names, predicate_columns(predicates@))
                    &&& res.names@.len() == columns@.len()
                    &&& forall|j: int|
                        0 <= j < columns@.len() ==> (#[trigger] res.names@[j])@ == columns@[j]@
                    &&& res.values@.len() == survivors.len()
                    &&& forall|i: int|
                        0 <= i < survivors.len() ==> is_filter_result(
                            #[trigger] res.values@[i],
                            self@.row_groups[survivors[i]],
                            str_views(columns@),
                            predicates@,
                        )
                },
                Err(e) => e is ColumnNotFound && !(all_columns_exist(
                    self@.meta.names,
                    str_views(columns@),
                ) && all_columns_exist(self@.meta.names, predicate_columns(predicates@))),
            },
    {
        if !self.has_all_columns(columns) || !self.has_predicate_columns(predicates) {
            return Err(Error::ColumnNotFound);
        }
        let mut names: Vec<String> = Vec::new();
        let mut j: usize = 0;
        while j < columns.len()
            invariant
                j <= columns.len(),
                names@.len() == j,
                forall|i: int| 0 <= i < j ==> (#[trigger] names@[i])@ == columns@[i]@,
            decreases columns.len() - j,
        {
            names.push(columns[j].to_owned());
            j += 1;
        }
        let segments = self.filter_row_groups(predicates);
        let ghost survivors = kept(self@.row_groups, predicates@, self@.row_groups.len() as int);
        proof {
            lemma_kept_in_range(self@.row_groups, predicates@, self@.row_groups.len() as int);
        }
        let mut values: Vec<ReadFilterResult> = Vec::new();
        let mut i: usize = 0;
        while i < segments.len()
            invariant
                self.wf(),
                i <= segments.len(),
                all_columns_exist(self@.meta.names, str_views(columns@)),
                all_columns_exist(self@.meta.names, predicate_columns(predicates@)),
                survivors == kept(self@.row_groups, predicates@, self@.row_groups.len() as int),
                segments@.len() == survivors.len(),
                forall|i: int|
                    0 <= i < survivors.len() ==> 0 <= #[trigger] survivors[i]
                        < self@.row_groups.len(),
                forall|i: int|
                    0 <= i < segments@.len() ==> (#[trigger] segments@[i]).wf() && segments@[i]@
                        == self@.row_groups[survivors[i]],
                values@.len() == i,
                forall|k: int|
                    0 <= k < i ==> is_filter_result(
                        #[trigger] values@[k],
                        self@.row_groups[survivors[k]],
                        str_views(columns@),
                        predicates@,
                    ),
            decreases segments.len() - i,
        {
            let segment = segments[i];
            assert(same_schema(self@.meta, self@.row_groups[survivors[i as int]]));
            match segment.read_filter(columns, predicates) {
                Ok(res) => {
                    values.push(res);
                },
                Err(_) => {
                    assert(false);
                },
            }
            i += 1;
        }
        Ok(ReadFilterResults { names, values })
    }
}

/// Every index that pruning keeps is the index of a row group.
pub proof fn lemma_kept_in_range(
    row_groups: Seq<RowGroupModel>,
    predicates: Seq<Predicate>,
    n: int,
)
    requires
        n <= row_groups.len(),
    ensures
        forall|i: int|
            0 <= i < kept(row_groups, predicates, n).len() ==> 0 <= #[trigger] kept(
                row_groups,
                predicates,
                n,
            )[i] < n,
    decreases n,
{
    if n > 0 {
        lemma_kept_in_range(row_groups, predicates, n - 1);
        let before = kept(row_groups, predicates, n - 1);
        let now = kept(row_groups, predicates, n);
        assert forall|i: int| 0 <= i < now.len() implies 0 <= #[trigger] now[i] < n by {
            if i < before.len() {
                assert(now[i] == before[i]);
            }
        }
    }
}

/// Pruning with an empty list of predicates keeps every row group.
pub proof fn lemma_no_predicates_keep_all(row_groups: Seq<RowGroupModel>, n: int)
    requires
        0 <= n <= row_groups.len(),
    ensures
        kept(row_groups, Seq::<Predicate>::empty(), n) == Seq::new(n as nat, |g: int| g),
    decreases n,
{
    if n > 0 {
        lemma_no_predicates_keep_all(row_groups, n - 1);
        assert(passes(row_groups[n - 1], Seq::<Predicate>::empty()));
        assert(Seq::new((n - 1) as nat, |g: int| g).push(n - 1) =~= Seq::new(n as nat, |g: int| g));
    } else {
        assert(Seq::<int>::empty() =~= Seq::new(0nat, |g: int| g));
    }
}

/// Pruning keeps a row group exactly when its ranges rule out none of the
/// predicates.
pub proof fn lemma_kept_exactly(
    row_groups: Seq<RowGroupModel>,
    predicates: Seq<Predicate>,
    n: int,
    g: int,
)
    requires
        0 <= n <= row_groups.len(),
    ensures
        kept(row_groups, predicates, n).contains(g) <==> 0 <= g < n && passes(
            row_groups[g],
            predicates,
        ),
    decreases n,
{
    if n > 0 {
        lemma_kept_exactly(row_groups, predicates, n - 1, g);
        let before = kept(row_groups, predicates, n - 1);
        let now = kept(row_groups, predicates, n);
        if now.contains(g) {
            let i = choose|i: int| 0 <= i < now.len() && now[i] == g;
            if i < before.len() {
                assert(before[i] == g);
            }
        }
        if before.contains(g) {
            let i = choose|i: int| 0 <= i < before.len() && before[i] == g;
            assert(now[i] == g);
        }
        if g == n - 1 && passes(row_groups[g], predicates) {
            assert(now[before.len() as int] == g);
        }
    }
}

/// Whether `v` lies within the range from `lo` to `hi`.
pub open spec fn within(v: ValueModel, lo: ValueModel, hi: ValueModel) -> bool {
    comparable(v, lo) && !model_lt(v, lo) && !model_lt(hi, v)
}

/// A comparison that no value within a range meets is ruled out by the ends
/// of the range, whatever the operator.
pub proof fn lemma_disjoint_range_is_ruled_out(
    lo: ValueModel,
    hi: ValueModel,
    op: Operator,
    operand: ValueModel,
)
    requires
        comparable(lo, hi),
        comparable(lo, operand),
        !model_lt(hi, lo),
        forall|v: ValueModel| within(v, lo, hi) ==> !satisfies(v, op, operand),
    ensures
        !range_could_satisfy(Some((lo, hi)), op, operand),
{
    lemma_lt_total(lo, hi);
    lemma_lt_total(lo, operand);
    lemma_lt_total(hi, operand);
    lemma_lt_total(lo, lo);
    lemma_lt_total(hi, hi);
    assert(within(lo, lo, hi));
    assert(within(hi, lo, hi));
    if !model_lt(operand, lo) && !model_lt(hi, operand) {
        assert(within(operand, lo, hi));
        lemma_lt_total(operand, operand);
    }
}

/// Pruning drops a row group when one of the predicates is met by no value
/// within the range of its column in that row group.
pub proof fn lemma_filter_excludes_disjoint(
    row_groups: Seq<RowGroupModel>,
    predicates: Seq<Predicate>,
    g: int,
    k: int,
)
    requires
        0 <= g < row_groups.len(),
        0 <= k < predicates.len(),
        has_column(row_groups[g].names, predicates[k].0@),
        ({
            let range = row_groups[g].columns[column_of(
                row_groups[g].names,
                predicates[k].0@,
            )].range;
            match range {
                Some((lo, hi)) => {
                    &&& comparable(lo, hi)
                    &&& comparable(lo, predicates[k].1.1@)
                    &&& !model_lt(hi, lo)
                    &&& forall|v: ValueModel|
                        within(v, lo, hi) ==> !satisfies(v, predicates[k].1.0, predicates[k].1.1@)
                },
                None => true,
            }
        }),
    ensures
        !kept(row_groups, predicates, row_groups.len() as int).contains(g),
{
    let range = row_groups[g].columns[column_of(row_groups[g].names, predicates[k].0@)].range;
    if range is Some {
        let (lo, hi) = range->0;
        lemma_disjoint_range_is_ruled_out(lo, hi, predicates[k].1.0, predicates[k].1.1@);
    }
    assert(!could_satisfy(row_groups[g], predicates[k]));
    lemma_kept_exactly(row_groups, predicates, row_groups.len() as int, g);
}

/// Pruning never drops a row group that holds a row meeting every predicate.
pub proof fn lemma_filter_is_conservative(
    row_groups: Seq<RowGroupModel>,
    predicates: Seq<Predicate>,
    g: int,
    row: int,
)
    requires
        0 <= g < row_groups.len(),
        model_wf(row_groups[g]),
        0 <= row < row_groups[g].rows,
        row_matches(row_groups[g], row, predicates),
    ensures
        kept(row_groups, predicates, row_groups.len() as int).contains(g),
{
    let m = row_groups[g];
    assert forall|k: int| 0 <= k < predicates.len() implies could_satisfy(
        m,
        #[trigger] predicates[k],
    ) by {
        let p = predicates[k];
        assert(crate::row_group::predicate_holds(m, row, p));
        let c = column_of(m.names, p.0@);
        assert(crate::row_group::is_column(m.names, p.0@, c));
        assert(m.columns[c].values.len() == m.rows);
        lemma_range_is_conservative(m.columns[c].values, m.columns[c].range, p.1.0, p.1.1@, row);
    }
    lemma_kept_exactly(row_groups, predicates, row_groups.len() as int, g);
}

/// The row counts of a list of row groups.
pub open spec fn group_row_counts(row_groups: Seq<RowGroupModel>) -> Seq<nat> {
    Seq::new(row_groups.len(), |g: int| row_groups[g].rows)
}

/// The sizes of a list of row groups.
pub open spec fn group_sizes(row_groups: Seq<RowGroupModel>) -> Seq<nat> {
    Seq::new(row_groups.len(), |g: int| row_groups[g].size)
}

/// The row count of a rollup is the sum of the row counts of the row groups,
/// and its size the sum of their sizes.
pub proof fn lemma_rollup_sums(
    names: Seq<Seq<char>>,
    kinds: Seq<ColumnKind>,
    row_groups: Seq<RowGroupModel>,
)
    ensures
        rollup(names, kinds, row_groups).rows == total(group_row_counts(row_groups)),
        rollup(names, kinds, row_groups).size == total(group_sizes(row_groups)),
    decreases row_groups.len(),
{
    if row_groups.len() > 0 {
        lemma_rollup_sums(names, kinds, row_groups.drop_last());
        assert(group_row_counts(row_groups).drop_last() =~= group_row_counts(
            row_groups.drop_last(),
        ));
        assert(group_sizes(row_groups).drop_last() =~= group_sizes(row_groups.drop_last()));
    } else {
        assert(group_row_counts(row_groups) =~= Seq::<nat>::empty());
        assert(group_sizes(row_groups) =~= Seq::<nat>::empty());
    }
}

/// Whether the ends of two ranges are ordered against each other.
pub open spec fn ends_comparable(
    a: Option<(ValueModel, ValueModel)>,
    b: Option<(ValueModel, ValueModel)>,
) -> bool {
    match (a, b) {
        (Some((alo, ahi)), Some((blo, bhi))) => comparable(alo, blo) && comparable(ahi, bhi),
        _ => true,
    }
}

/// Widening a range by two others gives the same range in either order.
pub proof fn lemma_widen_range_commutes(
    r: Option<(ValueModel, ValueModel)>,
    a: Option<(ValueModel, ValueModel)>,
    b: Option<(ValueModel, ValueModel)>,
)
    requires
        ends_comparable(r, a),
        ends_comparable(r, b),
        ends_comparable(a, b),
    ensures
        widen_range(widen_range(r, a), b) == widen_range(widen_range(r, b), a),
{
    if a is Some && b is Some {
        let (alo, ahi) = a->0;
        let (blo, bhi) = b->0;
        lemma_lt_total(alo, blo);
        lemma_lt_total(ahi, bhi);
        if r is Some {
            let (rlo, rhi) = r->0;
            lemma_lt_total(rlo, alo);
            lemma_lt_total(rlo, blo);
            lemma_lt_total(rhi, ahi);
            lemma_lt_total(rhi, bhi);
            if model_lt(alo, blo) && model_lt(blo, rlo) {
                lemma_lt_transitive(alo, blo, rlo);
            }
            if model_lt(blo, alo) && model_lt(alo, rlo) {
                lemma_lt_transitive(blo, alo, rlo);
            }
            if model_lt(alo, rlo) && model_lt(rlo, blo) {
                lemma_lt_transitive(alo, rlo, blo);
            }
            if model_lt(blo, rlo) && model_lt(rlo, alo) {
                lemma_lt_transitive(blo, rlo, alo);
            }
            if model_lt(rhi, ahi) && model_lt(ahi, bhi) {
                lemma_lt_transitive(rhi, ahi, bhi);
            }
            if model_lt(rhi, bhi) && model_lt(bhi, ahi) {
                lemma_lt_transitive(rhi, bhi, ahi);
            }
            if model_lt(ahi, rhi) && model_lt(rhi, bhi) {
                lemma_lt_transitive(ahi, rhi, bhi);
            }
            if model_lt(bhi, rhi) && model_lt(rhi, ahi) {
                lemma_lt_transitive(bhi, rhi, ahi);
            }
        }
    }
}

/// Adding two row groups to a table gives the same metadata in either
/// order, provided that the ends of their ranges and of the table's are
/// ordered against each other column by column.
pub proof fn lemma_rollup_commutes(meta: MetaModel, a: RowGroupModel, b: RowGroupModel)
    requires
        meta_wf(meta),
        a.columns.len() == meta.ranges.len(),
        b.columns.len() == meta.ranges.len(),
        forall|c: int|
            0 <= c < meta.ranges.len() ==> ends_comparable(
                #[trigger] meta.ranges[c],
                a.columns[c].range,
            ) && ends_comparable(meta.ranges[c], b.columns[c].range) && ends_comparable(
                a.columns[c].range,
                b.columns[c].range,
            ),
    ensures
        widened(widened(meta, a), b) == widened(widened(meta, b), a),
{
    let ab = widened(widened(meta, a), b);
    let ba = widened(widened(meta, b), a);
    assert forall|c: int| 0 <= c < meta.ranges.len() implies ab.ranges[c] == ba.ranges[c] by {
        assert(ends_comparable(meta.ranges[c], a.columns[c].range));
        lemma_widen_range_commutes(meta.ranges[c], a.columns[c].range, b.columns[c].range);
    }
    assert(ab.ranges =~= ba.ranges);
}

/// The widening of the ranges of two sequences of values of one kind is the
/// range of the two sequences together: its lower end is the least and its
/// upper end the greatest of all their values.
pub proof fn lemma_widen_is_range_of_both(
    va: Seq<ValueModel>,
    ra: Option<(ValueModel, ValueModel)>,
    vb: Seq<ValueModel>,
    rb: Option<(ValueModel, ValueModel)>,
)
    requires
        range_of(va, ra),
        range_of(vb, rb),
        homogeneous(va + vb),
    ensures
        range_of(va + vb, widen_range(ra, rb)),
{
    let all = va + vb;
    assert forall|i: int| 0 <= i < va.len() implies all[i] == va[i] by {}
    assert forall|j: int| 0 <= j < vb.len() implies all[va.len() + j] == vb[j] by {}
    match (ra, rb) {
        (Some((alo, ahi)), Some((blo, bhi))) => {
            let ia_lo = choose|i: int| 0 <= i < va.len() && va[i] == alo;
            let ia_hi = choose|i: int| 0 <= i < va.len() && va[i] == ahi;
            let ib_lo = choose|i: int| 0 <= i < vb.len() && vb[i] == blo;
            let ib_hi = choose|i: int| 0 <= i < vb.len() && vb[i] == bhi;
            assert(all[ia_lo] == alo);
            assert(all[ia_hi] == ahi);
            assert(all[va.len() + ib_lo] == blo);
            assert(all[va.len() + ib_hi] == bhi);
            let (lo, hi) = widen_range(ra, rb)->0;
            assert(exists|i: int| 0 <= i < all.len() && all[i] == lo) by {
                if model_lt(blo, alo) {
                    assert(all[va.len() + ib_lo] == lo);
                } else {
                    assert(all[ia_lo] == lo);
                }
            }
            assert(exists|i: int| 0 <= i < all.len() && all[i] == hi) by {
                if model_lt(ahi, bhi) {
                    assert(all[va.len() + ib_hi] == hi);
                } else {
                    assert(all[ia_hi] == hi);
                }
            }
            assert forall|i: int| 0 <= i < all.len() && !(all[i] is Null) implies !model_lt(
                all[i],
                lo,
            ) && !model_lt(hi, all[i]) by {
                let v = all[i];
                assert(comparable(v, all[ia_lo]));
                assert(comparable(v, all[ia_hi]));
                assert(comparable(v, all[va.len() + ib_lo]));
                assert(comparable(v, all[va.len() + ib_hi]));
                lemma_lt_total(v, alo);
                lemma_lt_total(v, blo);
                lemma_lt_total(v, ahi);
                lemma_lt_total(v, bhi);
                if i < va.len() {
                    assert(v == va[i]);
                    if model_lt(v, blo) && model_lt(blo, alo) {
                        lemma_lt_transitive(v, blo, alo);
                    }
                    if model_lt(ahi, bhi) && model_lt(bhi, v) {
                        lemma_lt_transitive(ahi, bhi, v);
                    }
                } else {
                    assert(v == vb[i - va.len()]);
                    if model_lt(blo, v) && model_lt(v, alo) {
                        lemma_lt_transitive(blo, v, alo);
                    }
                    if model_lt(ahi, v) && model_lt(v, bhi) {
                        lemma_lt_transitive(ahi, v, bhi);
                    }
                }
            }
        },
        (Some((alo, ahi)), None) => {
            let ia_lo = choose|i: int| 0 <= i < va.len() && va[i] == alo;
            let ia_hi = choose|i: int| 0 <= i < va.len() && va[i] == ahi;
            assert(all[ia_lo] == alo);
            assert(all[ia_hi] == ahi);
            assert forall|i: int| 0 <= i < all.len() && !(all[i] is Null) implies !model_lt(
                all[i],
                alo,
            ) && !model_lt(ahi, all[i]) by {
                if i < va.len() {
                    assert(all[i] == va[i]);
                } else {
                    assert(all[i] == vb[i - va.len()]);
                }
            }
        },
        (None, Some((blo, bhi))) => {
            let ib_lo = choose|i: int| 0 <= i < vb.len() && vb[i] == blo;
            let ib_hi = choose|i: int| 0 <= i < vb.len() && vb[i] == bhi;
            assert(all[va.len() + ib_lo] == blo);
            assert(all[va.len() + ib_hi] == bhi);
            assert forall|i: int| 0 <= i < all.len() && !(all[i] is Null) implies !model_lt(
                all[i],
                blo,
            ) && !model_lt(bhi, all[i]) by {
                if i < va.len() {
                    assert(all[i] == va[i]);
                } else {
                    assert(all[i] == vb[i - va.len()]);
                }
            }
        },
        (None, None) => {
            assert forall|i: int| 0 <= i < all.len() implies all[i] is Null by {
                if i < va.len() {
                    assert(all[i] == va[i]);
                } else {
                    assert(all[i] == vb[i - va.len()]);
                }
            }
        },
    }
}

/// The values of column `c` in all row groups, in table order.
pub open spec fn all_values(row_groups: Seq<RowGroupModel>, c: int) -> Seq<ValueModel>
    decreases row_groups.len(),
{
    if row_groups.len() == 0 {
        Seq::empty()
    } else {
        all_values(row_groups.drop_last(), c) + row_groups.last().columns[c].values
    }
}

/// The range that a rollup holds for a column whose values are of one kind
/// is the range of that column over all rows of all row groups.
pub proof fn lemma_rollup_ranges(
    names: Seq<Seq<char>>,
    kinds: Seq<ColumnKind>,
    row_groups: Seq<RowGroupModel>,
    c: int,
)
    requires
        0 <= c < names.len(),
        forall|g: int|
            0 <= g < row_groups.len() ==> model_wf(#[trigger] row_groups[g]) && row_groups[g].names
                == names,
        homogeneous(all_values(row_groups, c)),
    ensures
        rollup(names, kinds, row_groups).ranges.len() == names.len(),
        range_of(all_values(row_groups, c), rollup(names, kinds, row_groups).ranges[c]),
    decreases row_groups.len(),
{
    if row_groups.len() > 0 {
        let rest = row_groups.drop_last();
        let last = row_groups.last();
        let before = all_values(rest, c);
        let all = all_values(row_groups, c);
        assert forall|i: int| 0 <= i < before.len() implies all[i] == before[i] by {}
        assert(homogeneous(before)) by {
            assert forall|i: int, j: int|
                0 <= i < before.len() && 0 <= j < before.len() && !(#[trigger] before[i] is Null)
                    && !(#[trigger] before[j] is Null) implies comparable(before[i], before[j]) by {
                assert(all[i] == before[i]);
                assert(all[j] == before[j]);
            }
        }
        assert forall|g: int| 0 <= g < rest.len() implies model_wf(#[trigger] rest[g]) && rest[g].names
            == names by {
            assert(rest[g] == row_groups[g]);
        }
        lemma_rollup_ranges(names, kinds, rest, c);
        assert(model_wf(last));
        assert(range_of(last.columns[c].values, last.columns[c].range));
        lemma_widen_is_range_of_both(
            before,
            rollup(names, kinds, rest).ranges[c],
            last.columns[c].values,
            last.columns[c].range,
        );
    }
}

/// The rows `0` up to `n`, in ascending order.
pub open spec fn first_rows(n: int) -> Seq<int> {
    Seq::new(n as nat, |r: int| r)
}

/// A time range that holds the whole time span of a row group selects every
/// one of its rows.
pub proof fn lemma_whole_span_selects_all(
    m: RowGroupModel,
    predicates: Seq<Predicate>,
    from: int,
    to: int,
    n: int,
)
    requires
        model_wf(m),
        time_bounded(predicates, from, to, Seq::empty()),
        from <= m.time_range.0,
        m.time_range.1 < to,
        0 <= n <= m.rows,
    ensures
        selected_rows(m, predicates, n) == first_rows(n),
    decreases n,
{
    if n > 0 {
        lemma_whole_span_selects_all(m, predicates, from, to, n - 1);
        let row = n - 1;
        crate::row_group::lemma_column_unique(m.names, TIME_COLUMN_NAME@, m.time);
        let times = m.columns[m.time];
        assert(times.values.len() == m.rows);
        assert(times.values[row] is I64);
        assert forall|k: int| 0 <= k < predicates.len() implies crate::row_group::predicate_holds(
            m,
            row,
            #[trigger] predicates[k],
        ) by {
            assert(predicates[k].0@ == TIME_COLUMN_NAME@);
        }
        assert(first_rows(n - 1).push(n - 1) =~= first_rows(n));
    } else {
        assert(Seq::<int>::empty() =~= first_rows(n));
    }
}

/// The lower end of a range, or null when there is no range.
pub open spec fn lower_end(range: Option<(ValueModel, ValueModel)>) -> ValueModel {
    match range {
        Some((lo, _)) => lo,
        None => ValueModel::Null,
    }
}

/// The upper end of a range, or null when there is no range.
pub open spec fn upper_end(range: Option<(ValueModel, ValueModel)>) -> ValueModel {
    match range {
        Some((_, hi)) => hi,
        None => ValueModel::Null,
    }
}

/// Whether `f` is the least of `x` and the first `n` values: it is `x` or one
/// of the values, no value is below it, and it is `x` unless it is below `x`.
pub open spec fn least_so_far(f: ValueModel, x: ValueModel, values: Seq<ValueModel>, n: int) -> bool {
    &&& f is Null ==> x is Null
    &&& f is Null ==> forall|j: int| 0 <= j < n ==> (#[trigger] values[j]) is Null
    &&& f == x || exists|j: int| 0 <= j < n && #[trigger] values[j] == f
    &&& forall|j: int| 0 <= j < n && !(#[trigger] values[j] is Null) ==> !model_lt(values[j], f)
    &&& !(x is Null) ==> f == x || model_lt(f, x)
}

/// Whether `f` is the greatest of `x` and the first `n` values.
pub open spec fn greatest_so_far(
    f: ValueModel,
    x: ValueModel,
    values: Seq<ValueModel>,
    n: int,
) -> bool {
    &&& f is Null ==> x is Null
    &&& f is Null ==> forall|j: int| 0 <= j < n ==> (#[trigger] values[j]) is Null
    &&& f == x || exists|j: int| 0 <= j < n && #[trigger] values[j] == f
    &&& forall|j: int| 0 <= j < n && !(#[trigger] values[j] is Null) ==> !model_lt(f, values[j])
    &&& !(x is Null) ==> f == x || model_lt(x, f)
}

/// A minimum carried on over the first `n` rows of a column is the least of
/// where it started and those rows.
pub proof fn lemma_min_of_rows(m: RowGroupModel, x: ValueModel, c: int, n: int)
    requires
        0 <= c < m.columns.len(),
        0 <= n <= m.columns[c].values.len(),
    ensures
        accumulated_from(m, AggregateModel::Min(x), c, first_rows(n)) is Min,
        least_so_far(
            accumulated_from(m, AggregateModel::Min(x), c, first_rows(n))->Min_0,
            x,
            m.columns[c].values,
            n,
        ),
    decreases n,
{
    let values = m.columns[c].values;
    if n > 0 {
        lemma_min_of_rows(m, x, c, n - 1);
        assert(first_rows(n).drop_last() =~= first_rows(n - 1));
        assert(first_rows(n).last() == n - 1);
        let f = accumulated_from(m, AggregateModel::Min(x), c, first_rows(n - 1))->Min_0;
        let v = values[n - 1];
        let g = accumulated_from(m, AggregateModel::Min(x), c, first_rows(n))->Min_0;
        assert(g == crate::column::lesser(f, v));
        if !(v is Null) && !(f is Null) {
            lemma_lt_total_or_apart(v, f);
        }
        if !(x is Null) && !(v is Null) {
            lemma_lt_total_or_apart(v, x);
        }
        if g == v && !(v is Null) {
            assert(values[n - 1] == g);
            assert forall|j: int| 0 <= j < n && !(#[trigger] values[j] is Null) implies !model_lt(
                values[j],
                g,
            ) by {
                if j < n - 1 {
                    if model_lt(values[j], v) && model_lt(v, f) {
                        lemma_lt_transitive(values[j], v, f);
                    }
                } else {
                    crate::column::lemma_lt_irreflexive(v);
                }
            }
            if !(x is Null) && f != x && model_lt(v, f) {
                lemma_lt_transitive(v, f, x);
            }
        } else {
            assert(g == f);
            if f != x {
                let j = choose|j: int| 0 <= j < n - 1 && #[trigger] values[j] == f;
                assert(values[j] == g);
            }
        }
    }
}

/// A maximum carried on over the first `n` rows of a column is the greatest
/// of where it started and those rows.
pub proof fn lemma_max_of_rows(m: RowGroupModel, x: ValueModel, c: int, n: int)
    requires
        0 <= c < m.columns.len(),
        0 <= n <= m.columns[c].values.len(),
    ensures
        accumulated_from(m, AggregateModel::Max(x), c, first_rows(n)) is Max,
        greatest_so_far(
            accumulated_from(m, AggregateModel::Max(x), c, first_rows(n))->Max_0,
            x,
            m.columns[c].values,
            n,
        ),
    decreases n,
{
    let values = m.columns[c].values;
    if n > 0 {
        lemma_max_of_rows(m, x, c, n - 1);
        assert(first_rows(n).drop_last() =~= first_rows(n - 1));
        assert(first_rows(n).last() == n - 1);
        let f = accumulated_from(m, AggregateModel::Max(x), c, first_rows(n - 1))->Max_0;
        let v = values[n - 1];
        let g = accumulated_from(m, AggregateModel::Max(x), c, first_rows(n))->Max_0;
        assert(g == crate::column::greater(f, v));
        if !(v is Null) && !(f is Null) {
            lemma_lt_total_or_apart(v, f);
        }
        if !(x is Null) && !(v is Null) {
            lemma_lt_total_or_apart(v, x);
        }
        if g == v && !(v is Null) {
            assert(values[n - 1] == g);
            assert forall|j: int| 0 <= j < n && !(#[trigger] values[j] is Null) implies !model_lt(
                g,
                values[j],
            ) by {
                if j < n - 1 {
                    if model_lt(f, v) && model_lt(v, values[j]) {
                        lemma_lt_transitive(f, v, values[j]);
                    }
                } else {
                    crate::column::lemma_lt_irreflexive(v);
                }
            }
            if !(x is Null) && f != x && model_lt(f, v) {
                lemma_lt_transitive(x, f, v);
            }
        } else {
            assert(g == f);
            if f != x {
                let j = choose|j: int| 0 <= j < n - 1 && #[trigger] values[j] == f;
                assert(values[j] == g);
            }
        }
    }
}

/// Two values are ordered at most one way, and comparable values that are
/// ordered neither way are equal.
pub proof fn lemma_lt_total_or_apart(a: ValueModel, b: ValueModel)
    ensures
        !(model_lt(a, b) && model_lt(b, a)),
        comparable(a, b) ==> model_lt(a, b) || model_lt(b, a) || a == b,
        model_lt(a, b) ==> comparable(a, b),
{
    if comparable(a, b) {
        lemma_lt_total(a, b);
    }
}

/// The least of a value and all values of a column of one kind is the lesser
/// of that value and the lower end of the column's range.
pub proof fn lemma_least_is_lower_end(
    f: ValueModel,
    x: ValueModel,
    values: Seq<ValueModel>,
    range: Option<(ValueModel, ValueModel)>,
)
    requires
        least_so_far(f, x, values, values.len() as int),
        range_of(values, range),
        homogeneous(values),
    ensures
        f == crate::column::lesser(x, lower_end(range)),
{
    match range {
        Some((lo, hi)) => {
            let at = choose|i: int| 0 <= i < values.len() && values[i] == lo;
            assert(values[at] == lo);
            assert(!model_lt(values[at], f));
            lemma_lt_total_or_apart(lo, f);
            lemma_lt_total_or_apart(lo, x);
            lemma_lt_total_or_apart(f, x);
            if f != x {
                let j = choose|j: int| 0 <= j < values.len() && #[trigger] values[j] == f;
                assert(!model_lt(values[j], lo));
                assert(!(f is Null));
                assert(comparable(values[j], values[at]));
            }
            if model_lt(lo, f) && model_lt(f, x) {
                lemma_lt_transitive(lo, f, x);
            }
        },
        None => {
            if f != x {
                let j = choose|j: int| 0 <= j < values.len() && #[trigger] values[j] == f;
                assert(values[j] is Null);
            }
        },
    }
}

/// The greatest of a value and all values of a column of one kind is the
/// greater of that value and the upper end of the column's range.
pub proof fn lemma_greatest_is_upper_end(
    f: ValueModel,
    x: ValueModel,
    values: Seq<ValueModel>,
    range: Option<(ValueModel, ValueModel)>,
)
    requires
        greatest_so_far(f, x, values, values.len() as int),
        range_of(values, range),
        homogeneous(values),
    ensures
        f == crate::column::greater(x, upper_end(range)),
{
    match range {
        Some((lo, hi)) => {
            let at = choose|i: int| 0 <= i < values.len() && values[i] == hi;
            assert(values[at] == hi);
            assert(!model_lt(f, values[at]));
            lemma_lt_total_or_apart(hi, f);
            lemma_lt_total_or_apart(hi, x);
            lemma_lt_total_or_apart(f, x);
            if f != x {
                let j = choose|j: int| 0 <= j < values.len() && #[trigger] values[j] == f;
                assert(!model_lt(hi, values[j]));
                assert(!(f is Null));
                assert(comparable(values[j], values[at]));
            }
            if model_lt(x, f) && model_lt(f, hi) {
                lemma_lt_transitive(x, f, hi);
            }
        },
        None => {
            if f != x {
                let j = choose|j: int| 0 <= j < values.len() && #[trigger] values[j] == f;
                assert(values[j] is Null);
            }
        },
    }
}

/// Whether the ranges that the row groups hold for column `c` have ends of
/// one kind.
pub open spec fn ranges_agree(row_groups: Seq<RowGroupModel>, c: int) -> bool {
    forall|g: int, h: int|
        0 <= g < row_groups.len() && 0 <= h < row_groups.len() ==> ends_comparable(
            (#[trigger] row_groups[g]).columns[c].range,
            (#[trigger] row_groups[h]).columns[c].range,
        )
}

/// The ends of the range that a rollup holds for a column are ends of the
/// ranges of row groups.
pub proof fn lemma_rollup_ends(
    names: Seq<Seq<char>>,
    kinds: Seq<ColumnKind>,
    row_groups: Seq<RowGroupModel>,
    c: int,
)
    requires
        0 <= c < names.len(),
    ensures
        rollup(names, kinds, row_groups).ranges.len() == names.len(),
        match rollup(names, kinds, row_groups).ranges[c] {
            Some((lo, hi)) => {
                &&& exists|g: int|
                    0 <= g < row_groups.len() && (#[trigger] row_groups[g]).columns[c].range is Some
                        && (row_groups[g].columns[c].range->0).0 == lo
                &&& exists|g: int|
                    0 <= g < row_groups.len() && (#[trigger] row_groups[g]).columns[c].range is Some
                        && (row_groups[g].columns[c].range->0).1 == hi
            },
            None => true,
        },
    decreases row_groups.len(),
{
    if row_groups.len() > 0 {
        let rest = row_groups.drop_last();
        let last = row_groups.last();
        lemma_rollup_ends(names, kinds, rest, c);
        let before = rollup(names, kinds, rest).ranges[c];
        let now = rollup(names, kinds, row_groups).ranges[c];
        assert(now == widen_range(before, last.columns[c].range));
        if now is Some {
            let (lo, hi) = now->0;
            if before is Some && (before->0).0 == lo {
                let g = choose|g: int|
                    0 <= g < rest.len() && (#[trigger] rest[g]).columns[c].range is Some
                        && (rest[g].columns[c].range->0).0 == lo;
                assert(row_groups[g] == rest[g]);
            } else {
                assert((row_groups[row_groups.len() - 1].columns[c].range->0).0 == lo);
            }
            if before is Some && (before->0).1 == hi {
                let g = choose|g: int|
                    0 <= g < rest.len() && (#[trigger] rest[g]).columns[c].range is Some
                        && (rest[g].columns[c].range->0).1 == hi;
                assert(row_groups[g] == rest[g]);
            } else {
                assert((row_groups[row_groups.len() - 1].columns[c].range->0).1 == hi);
            }
        }
    }
}

/// The row groups with those at `i` and `i + 1` in each other's place.
pub open spec fn swapped(row_groups: Seq<RowGroupModel>, i: int) -> Seq<RowGroupModel> {
    row_groups.update(i, row_groups[i + 1]).update(i + 1, row_groups[i])
}

/// The metadata of a table does not depend on the order in which two
/// neighbouring row groups were added, and so on no order of insertion,
/// provided that for every column the ranges of the row groups have ends of
/// one kind.
pub proof fn lemma_rollup_order(
    names: Seq<Seq<char>>,
    kinds: Seq<ColumnKind>,
    row_groups: Seq<RowGroupModel>,
    i: int,
)
    requires
        0 <= i < row_groups.len() - 1,
        kinds.len() == names.len(),
        forall|g: int|
            0 <= g < row_groups.len() ==> (#[trigger] row_groups[g]).columns.len() == names.len(),
        forall|c: int| 0 <= c < names.len() ==> ranges_agree(row_groups, c),
    ensures
        rollup(names, kinds, swapped(row_groups, i)) == rollup(names, kinds, row_groups),
    decreases row_groups.len(),
{
    let other = swapped(row_groups, i);
    if i == row_groups.len() - 2 {
        let prefix = row_groups.take(i);
        let a = row_groups[i];
        let b = row_groups[i + 1];
        assert(row_groups.drop_last() =~= prefix.push(a));
        assert(row_groups.drop_last().drop_last() =~= prefix);
        assert(other.drop_last() =~= prefix.push(b));
        assert(other.drop_last().drop_last() =~= prefix);
        assert(other.last() == a);
        assert(row_groups.last() == b);
        let meta = rollup(names, kinds, prefix);
        lemma_rollup_grows(names, kinds, prefix, 0);
        assert forall|c: int| 0 <= c < meta.ranges.len() implies ends_comparable(
            #[trigger] meta.ranges[c],
            a.columns[c].range,
        ) && ends_comparable(meta.ranges[c], b.columns[c].range) && ends_comparable(
            a.columns[c].range,
            b.columns[c].range,
        ) by {
            lemma_rollup_ends(names, kinds, prefix, c);
            assert(ranges_agree(row_groups, c));
            assert(ends_comparable(row_groups[i].columns[c].range, row_groups[i + 1].columns[c].range));
            if meta.ranges[c] is Some {
                let (lo, hi) = meta.ranges[c]->0;
                let g = choose|g: int|
                    0 <= g < prefix.len() && (#[trigger] prefix[g]).columns[c].range is Some
                        && (prefix[g].columns[c].range->0).0 == lo;
                let h = choose|h: int|
                    0 <= h < prefix.len() && (#[trigger] prefix[h]).columns[c].range is Some
                        && (prefix[h].columns[c].range->0).1 == hi;
                assert(prefix[g] == row_groups[g]);
                assert(prefix[h] == row_groups[h]);
                assert(ends_comparable(row_groups[g].columns[c].range, row_groups[i].columns[c].range));
                assert(ends_comparable(row_groups[h].columns[c].range, row_groups[i].columns[c].range));
                assert(ends_comparable(
                    row_groups[g].columns[c].range,
                    row_groups[i + 1].columns[c].range,
                ));
                assert(ends_comparable(
                    row_groups[h].columns[c].range,
                    row_groups[i + 1].columns[c].range,
                ));
            }
        }
        lemma_rollup_commutes(meta, a, b);
    } else {
        let rest = row_groups.drop_last();
        assert(other.drop_last() =~= swapped(rest, i));
        assert(other.last() == row_groups.last());
        assert forall|c: int| 0 <= c < names.len() implies ranges_agree(rest, c) by {
            assert(ranges_agree(row_groups, c));
            assert forall|g: int, h: int| 0 <= g < rest.len() && 0 <= h < rest.len() implies ends_comparable(
                (#[trigger] rest[g]).columns[c].range,
                (#[trigger] rest[h]).columns[c].range,
            ) by {
                assert(rest[g] == row_groups[g]);
                assert(rest[h] == row_groups[h]);
                assert(ends_comparable(row_groups[g].columns[c].range, row_groups[h].columns[c].range));
            }
        }
        assert forall|g: int| 0 <= g < rest.len() implies (#[trigger] rest[g]).columns.len()
            == names.len() by {
            assert(rest[g] == row_groups[g]);
        }
        lemma_rollup_order(names, kinds, rest, i);
    }
}

/// A count carried on over the first `n` rows of a column grows by the
/// number of those rows whose value is not null.
pub proof fn lemma_count_of_rows(m: RowGroupModel, x: int, c: int, n: int)
    requires
        0 <= c < m.columns.len(),
        0 <= n <= m.columns[c].values.len(),
        0 <= x <= u64::MAX,
    ensures
        accumulated_from(m, AggregateModel::Count(x), c, first_rows(n)) == AggregateModel::Count(
            capped_count(x + present_among(m.columns[c].values, n)),
        ),
    decreases n,
{
    if n > 0 {
        lemma_count_of_rows(m, x, c, n - 1);
        assert(first_rows(n).drop_last() =~= first_rows(n - 1));
        assert(first_rows(n).last() == n - 1);
    }
}

} // verus!
