//! Row groups: immutable horizontal slices of a table, stored column-wise.

use vstd::prelude::*;
use vstd::string::StringExecFns;
use crate::column::{
    homogeneous, initial, present_among, range_could_satisfy, range_of, range_view, rendered,
    rendered_aggregate, satisfies, step, value_views, AggregateModel, AggregateResult,
    AggregateType, Column, ColumnModel, Operator, Scalar, Value, ValueModel,
};
use crate::error::Error;
use crate::text::{ascending, insert_sorted, lists_name, push_char, str_eq};

verus! {

/// The name of the column that holds the timestamps of a row group.
pub const TIME_COLUMN_NAME: &'static str = "time";

/// The number of bytes accounted for each stored value.
pub const VALUE_BYTES: u64 = 8;

/// A comparison of a named column against a value: the column's name, then
/// the operator and its operand. A list of predicates is a conjunction.
pub type Predicate = (String, (Operator, Value));

/// The role of a column within a table.
#[derive(Clone, Copy, Debug, PartialEq, Eq, Structural)]
pub enum ColumnKind {
    Tag,
    Field,
    Time,
}

/// A column together with its role.
#[derive(Clone, Debug)]
pub enum ColumnType {
    Tag(Column),
    Field(Column),
    Time(Column),
}

impl ColumnType {
    /// The role of the column.
    pub open spec fn kind_spec(&self) -> ColumnKind {
        match self {
            ColumnType::Tag(_) => ColumnKind::Tag,
            ColumnType::Field(_) => ColumnKind::Field,
            ColumnType::Time(_) => ColumnKind::Time,
        }
    }

    /// The column itself.
    pub open spec fn column_spec(&self) -> Column {
        match self {
            ColumnType::Tag(c) => *c,
            ColumnType::Field(c) => *c,
            ColumnType::Time(c) => *c,
        }
    }

    /// The role of the column.
    pub fn kind(&self) -> (k: ColumnKind)
        ensures
            k == self.kind_spec(),
    {
        match self {
            ColumnType::Tag(_) => ColumnKind::Tag,
            ColumnType::Field(_) => ColumnKind::Field,
            ColumnType::Time(_) => ColumnKind::Time,
        }
    }

    /// The column itself.
    pub fn column(&self) -> (c: &Column)
        ensures
            *c == self.column_spec(),
    {
        match self {
            ColumnType::Tag(c) => c,
            ColumnType::Field(c) => c,
            ColumnType::Time(c) => c,
        }
    }
}

/// What a row group denotes.
pub struct RowGroupModel {
    /// The number of rows.
    pub rows: nat,
    /// The name of each column.
    pub names: Seq<Seq<char>>,
    /// The role of each column.
    pub kinds: Seq<ColumnKind>,
    /// The contents of each column.
    pub columns: Seq<ColumnModel>,
    /// The position of the time column.
    pub time: int,
    /// The accounted size in bytes.
    pub size: nat,
    /// The least and the greatest timestamp.
    pub time_range: (int, int),
}

/// Whether column `c` is named `name`.
pub open spec fn is_column(names: Seq<Seq<char>>, name: Seq<char>, c: int) -> bool {
    0 <= c < names.len() && names[c] == name
}

/// Whether some column is named `name`.
pub open spec fn has_column(names: Seq<Seq<char>>, name: Seq<char>) -> bool {
    exists|c: int| is_column(names, name, c)
}

/// The position of the column named `name`, where there is one.
pub open spec fn column_of(names: Seq<Seq<char>>, name: Seq<char>) -> int {
    choose|c: int| is_column(names, name, c)
}

/// Whether no name occurs twice.
pub open spec fn distinct(names: Seq<Seq<char>>) -> bool {
    forall|i: int, j: int| 0 <= i < j < names.len() ==> names[i] != names[j]
}

/// Among distinct names a name belongs to one column only.
pub proof fn lemma_column_unique(names: Seq<Seq<char>>, name: Seq<char>, c: int)
    requires
        distinct(names),
        is_column(names, name, c),
    ensures
        has_column(names, name),
        column_of(names, name) == c,
{
    let d = column_of(names, name);
    assert(is_column(names, name, d));
    if d < c {
        assert(names[d] != names[c]);
    } else if c < d {
        assert(names[c] != names[d]);
    }
}

/// The invariant of a row group: one name, one role and one column per
/// position; distinct names; every column as long as the row group and
/// carrying its true range; exactly one time column, named `time`, holding
/// signed integers only; and the size and time range that follow from these.
pub open spec fn model_wf(m: RowGroupModel) -> bool {
    &&& m.names.len() == m.columns.len()
    &&& m.kinds.len() == m.columns.len()
    &&& m.rows <= u32::MAX
    &&& distinct(m.names)
    &&& forall|c: int|
        0 <= c < m.columns.len() ==> (#[trigger] m.columns[c]).values.len() == m.rows && range_of(
            m.columns[c].values,
            m.columns[c].range,
        ) && (m.columns[c].uniform ==> homogeneous(m.columns[c].values)) && m.columns[c].present
            == present_among(m.columns[c].values, m.columns[c].values.len() as int)
    &&& 0 <= m.time < m.columns.len()
    &&& m.names[m.time] == TIME_COLUMN_NAME@
    &&& forall|c: int| 0 <= c < m.kinds.len() ==> ((#[trigger] m.kinds[c]) == ColumnKind::Time <==> c == m.time)
    &&& forall|r: int| 0 <= r < m.rows ==> (#[trigger] m.columns[m.time].values[r]) is I64
    &&& m.columns[m.time].range == Some(
        (ValueModel::I64(m.time_range.0), ValueModel::I64(m.time_range.1)),
    )
    &&& m.size == VALUE_BYTES * m.rows * m.columns.len()
    &&& m.size <= u64::MAX
}

/// Whether row `row` meets the predicate `p`: the named column exists and its
/// value in that row meets the comparison.
pub open spec fn predicate_holds(m: RowGroupModel, row: int, p: Predicate) -> bool {
    has_column(m.names, p.0@) && satisfies(
        m.columns[column_of(m.names, p.0@)].values[row],
        p.1.0,
        p.1.1@,
    )
}

/// Whether row `row` meets every predicate of the list.
pub open spec fn row_matches(m: RowGroupModel, row: int, predicates: Seq<Predicate>) -> bool {
    forall|k: int| 0 <= k < predicates.len() ==> predicate_holds(m, row, #[trigger] predicates[k])
}

/// The rows below `n` that meet every predicate, in ascending order.
pub open spec fn selected_rows(m: RowGroupModel, predicates: Seq<Predicate>, n: int) -> Seq<int>
    decreases n,
{
    if n <= 0 {
        Seq::empty()
    } else {
        let before = selected_rows(m, predicates, n - 1);
        if row_matches(m, n - 1, predicates) {
            before.push(n - 1)
        } else {
            before
        }
    }
}

/// The values of a column at the given rows, in the order of the rows.
pub open spec fn gather(values: Seq<ValueModel>, rows: Seq<int>) -> Seq<ValueModel> {
    Seq::new(rows.len(), |i: int| values[rows[i]])
}

/// Whether the row group's range for the column named by `p` leaves room for
/// a row that meets `p`. A predicate on a column that the row group lacks
/// cannot be met.
pub open spec fn could_satisfy(m: RowGroupModel, p: Predicate) -> bool {
    has_column(m.names, p.0@) && range_could_satisfy(
        m.columns[column_of(m.names, p.0@)].range,
        p.1.0,
        p.1.1@,
    )
}

/// Whether `at` gives, for each wanted name, the position of its column.
pub open spec fn resolved(m: RowGroupModel, wanted: Seq<Seq<char>>, at: Seq<usize>) -> bool {
    &&& at.len() == wanted.len()
    &&& forall|j: int|
        0 <= j < wanted.len() ==> has_column(m.names, #[trigger] wanted[j]) && at[j] == column_of(
            m.names,
            wanted[j],
        ) && at[j] < m.columns.len()
}

/// Whether the row group's ranges leave room for a row that meets every
/// predicate of the list.
pub open spec fn passes(m: RowGroupModel, predicates: Seq<Predicate>) -> bool {
    forall|k: int| 0 <= k < predicates.len() ==> could_satisfy(m, #[trigger] predicates[k])
}

/// Whether `res` is the selection of `columns` from the rows of `m` that meet
/// every predicate: one result column for each requested column, under its
/// name, holding that column's values at the selected rows in row order.
pub open spec fn is_filter_result(
    res: ReadFilterResult,
    m: RowGroupModel,
    columns: Seq<Seq<char>>,
    predicates: Seq<Predicate>,
) -> bool {
    let wanted = requested(m.names, columns);
    let rows = selected_rows(m, predicates, m.rows as int);
    &&& res.columns@.len() == wanted.len()
    &&& forall|j: int|
        0 <= j < wanted.len() ==> column_is(
            #[trigger] res.columns@[j],
            wanted[j],
            gather(m.columns[column_of(m.names, wanted[j])].values, rows),
        )
}

/// Whether every name of the list names a column.
pub open spec fn all_columns_exist(names: Seq<Seq<char>>, wanted: Seq<Seq<char>>) -> bool {
    forall|j: int| 0 <= j < wanted.len() ==> has_column(names, #[trigger] wanted[j])
}

/// The column names of a list of predicates.
pub open spec fn predicate_columns(predicates: Seq<Predicate>) -> Seq<Seq<char>> {
    Seq::new(predicates.len(), |k: int| predicates[k].0@)
}

/// The texts of a list of string slices.
pub open spec fn str_views(items: Seq<&str>) -> Seq<Seq<char>> {
    Seq::new(items.len(), |j: int| items[j]@)
}

/// The columns that a selection yields: the listed ones, or every column of
/// the row group when the list is empty.
pub open spec fn requested(names: Seq<Seq<char>>, columns: Seq<Seq<char>>) -> Seq<Seq<char>> {
    if columns.len() == 0 {
        names
    } else {
        columns
    }
}

/// Whether a result column carries the given name and values.
pub open spec fn column_is(entry: (String, Vec<Value>), name: Seq<char>, values: Seq<ValueModel>) -> bool {
    entry.0@ == name && value_views(entry.1@) == values
}

/// The selected values of one row group: for each requested column its name
/// and its values at the selected rows.
#[derive(Clone, Debug)]
pub struct ReadFilterResult {
    pub columns: Vec<(String, Vec<Value>)>,
}

impl ReadFilterResult {
    /// Whether the result holds no rows.
    pub fn is_empty(&self) -> (r: bool)
        ensures
            r == (self.columns@.len() == 0 || self.columns@[0].1@.len() == 0),
    {
        self.columns.len() == 0 || self.columns[0].1.len() == 0
    }

    /// The text of the cell in row `i` of column `j`; empty where the column
    /// has no such row.
    pub open spec fn cell_text(&self, i: int, j: int) -> Seq<char> {
        if 0 <= i < self.columns@[j].1@.len() {
            rendered(self.columns@[j].1@[i])
        } else {
            Seq::empty()
        }
    }

    /// The text of the first `j` cells of row `i`, a comma after each cell
    /// but the last of the row.
    pub open spec fn row_text(&self, i: int, j: int) -> Seq<char>
        decreases j,
    {
        if j <= 0 {
            Seq::empty()
        } else {
            let cell = self.row_text(i, j - 1) + self.cell_text(i, j - 1);
            if j < self.columns@.len() {
                cell.push(',')
            } else {
                cell
            }
        }
    }

    /// The text of the first `i` rows, each ended by a line feed.
    pub open spec fn rows_text(&self, i: int) -> Seq<char>
        decreases i,
    {
        if i <= 0 {
            Seq::empty()
        } else {
            (self.rows_text(i - 1) + self.row_text(i - 1, self.columns@.len() as int)).push('\n')
        }
    }

    /// The number of rows that are written out: the length of the first
    /// column.
    pub open spec fn row_count(&self) -> int {
        if self.columns@.len() == 0 {
            0
        } else {
            self.columns@[0].1@.len() as int
        }
    }

    /// Writes the rows out, one line per row, the cells separated by commas.
    pub fn display(&self) -> (s: String)
        ensures
            s@ == self.rows_text(self.row_count()),
    {
        let mut out = String::new();
        if self.columns.len() == 0 {
            return out;
        }
        let rows = self.columns[0].1.len();
        let mut i: usize = 0;
        while i < rows
            invariant
                i <= rows,
                rows == self.row_count(),
                self.columns@.len() > 0,
                out@ == self.rows_text(i as int),
            decreases rows - i,
        {
            let ghost start = out@;
            let mut j: usize = 0;
            while j < self.columns.len()
                invariant
                    j <= self.columns.len(),
                    out@ == start + self.row_text(i as int, j as int),
                decreases self.columns.len() - j,
            {
                let ghost before = out@;
                if i < self.columns[j].1.len() {
                    let cell = self.columns[j].1[i].render();
                    out.append(cell.as_str());
                }
                assert(out@ == before + self.cell_text(i as int, j as int));
                if j + 1 < self.columns.len() {
                    push_char(&mut out, ',');
                }
                j += 1;
                assert(out@ =~= start + self.row_text(i as int, j as int));
            }
            push_char(&mut out, '\n');
            i += 1;
        }
        out
    }
}

/// An immutable horizontal slice of a table's rows, stored column-wise.
#[derive(Debug)]
pub struct RowGroup {
    rows: u32,
    columns: Vec<(String, ColumnType)>,
    time: usize,
    time_range: (i64, i64),
}

impl View for RowGroup {
    type V = RowGroupModel;

    closed spec fn view(&self) -> RowGroupModel {
        model_of(
            self.rows,
            self.columns@,
            self.time as int,
            (self.time_range.0 as int, self.time_range.1 as int),
        )
    }
}

/// The model of the row group that `rows` rows of the given named columns
/// form, with the time column at `time` spanning `time_range`.
pub open spec fn model_of(
    rows: u32,
    columns: Seq<(String, ColumnType)>,
    time: int,
    time_range: (int, int),
) -> RowGroupModel {
    RowGroupModel {
        rows: rows as nat,
        names: Seq::new(columns.len(), |c: int| columns[c].0@),
        kinds: Seq::new(columns.len(), |c: int| columns[c].1.kind_spec()),
        columns: Seq::new(columns.len(), |c: int| columns[c].1.column_spec()@),
        time,
        size: (VALUE_BYTES * rows * columns.len()) as nat,
        time_range,
    }
}

impl RowGroup {
    /// The invariant of a row group.
    pub open spec fn wf(&self) -> bool {
        model_wf(self@)
    }

    /// Lays `rows` rows of the given named columns out as a row group.
    ///
    /// The columns are accepted when they can form a well-formed row group:
    /// distinct names, `rows` values in each column, exactly one time column,
    /// which is named `time` and holds signed integers only, and a size that
    /// fits in 64 bits. Anything else is refused.
    pub fn new(rows: u32, columns: Vec<(String, ColumnType)>) -> (r: Option<RowGroup>)
        requires
            forall|c: int| 0 <= c < columns@.len() ==> (#[trigger] columns@[c]).1.column_spec().wf(),
        ensures
            match r {
                Some(rg) => exists|time: int, time_range: (int, int)|
                    rg@ == model_of(rows, columns@, time, time_range) && rg.wf(),
                None => forall|time: int, time_range: (int, int)|
                    !model_wf(#[trigger] model_of(rows, columns@, time, time_range)),
            },
    {
        let n = columns.len();
        // Find the time column and check every column's length.
        let mut time: Option<usize> = None;
        let mut c: usize = 0;
        while c < n
            invariant
                c <= n,
                n == columns@.len(),
                forall|d: int|
                    0 <= d < c ==> (#[trigger] columns@[d]).1.column_spec()@.values.len() == rows,
                match time {
                    Some(t) => t < c && columns@[t as int].1.kind_spec() == ColumnKind::Time
                        && forall|d: int|
                        0 <= d < c && d != t ==> (#[trigger] columns@[d]).1.kind_spec()
                            != ColumnKind::Time,
                    None => forall|d: int|
                        0 <= d < c ==> (#[trigger] columns@[d]).1.kind_spec() != ColumnKind::Time,
                },
            decreases n - c,
        {
            if columns[c].1.column().num_rows() != rows as usize {
                proof {
                    assert forall|time: int, time_range: (int, int)|
                        !model_wf(#[trigger] model_of(rows, columns@, time, time_range)) by {
                        let m = model_of(rows, columns@, time, time_range);
                        assert(m.columns[c as int].values.len() != rows);
                    }
                }
                return None;
            }
            match columns[c].1.kind() {
                ColumnKind::Time => {
                    if time.is_some() {
                        proof {
                            let t = time->0 as int;
                            assert forall|time: int, time_range: (int, int)|
                                !model_wf(#[trigger] model_of(rows, columns@, time, time_range)) by {
                                let m = model_of(rows, columns@, time, time_range);
                                assert(m.kinds[t] == ColumnKind::Time);
                                assert(m.kinds[c as int] == ColumnKind::Time);
                            }
                        }
                        return None;
                    }
                    time = Some(c);
                },
                _ => {},
            }
            c += 1;
        }
        let t = match time {
            Some(t) => t,
            None => {
                proof {
                    assert forall|time: int, time_range: (int, int)|
                        !model_wf(#[trigger] model_of(rows, columns@, time, time_range)) by {
                        let m = model_of(rows, columns@, time, time_range);
                        if 0 <= time < n {
                            assert(m.kinds[time] != ColumnKind::Time);
                        }
                    }
                }
                return None;
            },
        };
        proof {
            assert forall|time: int, time_range: (int, int)|
                time != t implies !model_wf(#[trigger] model_of(rows, columns@, time, time_range)) by {
                let m = model_of(rows, columns@, time, time_range);
                assert(m.kinds[t as int] == ColumnKind::Time);
            }
        }
        if !str_eq(columns[t].0.as_str(), TIME_COLUMN_NAME) {
            proof {
                assert forall|time: int, time_range: (int, int)|
                    !model_wf(#[trigger] model_of(rows, columns@, time, time_range)) by {
                    let m = model_of(rows, columns@, time, time_range);
                    if time == t {
                        assert(m.names[t as int] == columns@[t as int].0@);
                    }
                }
            }
            return None;
        }
        // Every timestamp is a signed integer.
        let time_column = columns[t].1.column();
        let mut r: usize = 0;
        while r < time_column.num_rows()
            invariant
                r <= time_column@.values.len(),
                t < columns@.len(),
                time_column@ == columns@[t as int].1.column_spec()@,
                forall|time: int, time_range: (int, int)|
                    time != t ==> !model_wf(#[trigger] model_of(rows, columns@, time, time_range)),
                forall|q: int| 0 <= q < r ==> (#[trigger] time_column@.values[q]) is I64,
            decreases time_column@.values.len() - r,
        {
            match time_column.value(r) {
                Value::Scalar(Scalar::I64(_)) => {},
                _ => {
                    proof {
                        assert forall|time: int, time_range: (int, int)|
                            !model_wf(#[trigger] model_of(rows, columns@, time, time_range)) by {
                            let m = model_of(rows, columns@, time, time_range);
                            if time == t {
                                assert(m.columns[t as int] == time_column@);
                                assert(!(m.columns[m.time].values[r as int] is I64));
                            }
                        }
                    }
                    return None;
                },
            }
            r += 1;
        }
        let time_range = match time_column.range() {
            Some((Value::Scalar(Scalar::I64(lo)), Value::Scalar(Scalar::I64(hi)))) => (*lo, *hi),
            _ => {
                proof {
                    assert forall|time: int, time_range: (int, int)|
                        !model_wf(#[trigger] model_of(rows, columns@, time, time_range)) by {
                        let m = model_of(rows, columns@, time, time_range);
                        if time == t {
                            assert(m.columns[t as int] == time_column@);
                        }
                    }
                }
                return None;
            },
        };
        // Names must be distinct.
        let mut i: usize = 0;
        while i < n
            invariant
                i <= n,
                n == columns@.len(),
                forall|a: int, b: int| 0 <= a < b < i ==> columns@[a].0@ != columns@[b].0@,
            decreases n - i,
        {
            let mut j: usize = 0;
            while j < i
                invariant
                    j <= i,
                    i < n,
                    n == columns@.len(),
                    forall|a: int| 0 <= a < j ==> columns@[a].0@ != columns@[i as int].0@,
                decreases i - j,
            {
                if columns[j].0 == columns[i].0 {
                    proof {
                        assert forall|time: int, time_range: (int, int)|
                            !model_wf(#[trigger] model_of(rows, columns@, time, time_range)) by {
                            let m = model_of(rows, columns@, time, time_range);
                            assert(m.names[j as int] == m.names[i as int]);
                        }
                    }
                    return None;
                }
                j += 1;
            }
            i += 1;
        }
        // The size must fit.
        let per_column: u64 = VALUE_BYTES * (rows as u64);
        match per_column.checked_mul(n as u64) {
            Some(_) => {},
            None => {
                proof {
                    assert(VALUE_BYTES * rows * n == per_column * n) by (nonlinear_arith)
                        requires
                            per_column == VALUE_BYTES * rows,
                    ;
                    assert forall|time: int, time_range: (int, int)|
                        !model_wf(#[trigger] model_of(rows, columns@, time, time_range)) by {
                        let m = model_of(rows, columns@, time, time_range);
                        assert(m.size > u64::MAX);
                    }
                }
                return None;
            },
        }
        assert(VALUE_BYTES * rows * n == per_column * n) by (nonlinear_arith)
            requires
                per_column == VALUE_BYTES * rows,
        ;
        let ghost given = columns@;
        let rg = RowGroup { rows, columns, time: t, time_range };
        proof {
            let m = model_of(rows, given, t as int, (time_range.0 as int, time_range.1 as int));
            assert(rg@ == m);
            assert(m.columns[t as int] == time_column@);
            assert(model_wf(m));
        }
        Some(rg)
    }

    /// The number of rows.
    pub fn rows(&self) -> (n: u32)
        ensures
            n == self@.rows,
    {
        self.rows
    }

    /// The accounted size in bytes: eight for every stored value.
    pub fn size(&self) -> (n: u64)
        requires
            self.wf(),
        ensures
            n == self@.size,
    {
        let per_column: u64 = VALUE_BYTES * (self.rows as u64);
        assert(VALUE_BYTES * self.rows * self.columns@.len() == per_column * self.columns@.len())
            by (nonlinear_arith)
            requires
                per_column == VALUE_BYTES * self.rows,
        ;
        per_column * (self.columns.len() as u64)
    }

    /// The number of columns.
    pub fn columns(&self) -> (n: usize)
        ensures
            n == self@.columns.len(),
    {
        self.columns.len()
    }

    /// The least and the greatest timestamp of the row group.
    pub fn time_range(&self) -> (r: (i64, i64))
        ensures
            r.0 == self@.time_range.0,
            r.1 == self@.time_range.1,
    {
        self.time_range
    }

    /// The name of column `c`.
    pub fn column_name(&self, c: usize) -> (name: &String)
        requires
            c < self@.names.len(),
        ensures
            name@ == self@.names[c as int],
    {
        &self.columns[c].0
    }

    /// The role of column `c`.
    pub fn column_kind(&self, c: usize) -> (k: ColumnKind)
        requires
            self.wf(),
            c < self@.columns.len(),
        ensures
            k == self@.kinds[c as int],
    {
        self.columns[c].1.kind()
    }

    /// Column `c`.
    pub fn column(&self, c: usize) -> (col: &Column)
        requires
            self.wf(),
            c < self@.columns.len(),
        ensures
            col@ == self@.columns[c as int],
            col.wf(),
    {
        assert(self@.columns[c as int] == self.columns@[c as int].1.column_spec()@);
        self.columns[c].1.column()
    }

    /// The position of the column named `name`, if there is one.
    pub fn find_column(&self, name: &str) -> (r: Option<usize>)
        requires
            self.wf(),
        ensures
            match r {
                Some(c) => is_column(self@.names, name@, c as int) && c == column_of(
                    self@.names,
                    name@,
                ) && has_column(self@.names, name@),
                None => !has_column(self@.names, name@),
            },
    {
        let mut c: usize = 0;
        while c < self.columns.len()
            invariant
                self.wf(),
                c <= self.columns.len(),
                forall|d: int| 0 <= d < c ==> !is_column(self@.names, name@, d),
            decreases self.columns.len() - c,
        {
            if str_eq(self.columns[c].0.as_str(), name) {
                proof {
                    lemma_column_unique(self@.names, name@, c as int);
                }
                return Some(c);
            }
            c += 1;
        }
        None
    }

    /// The range of each column, by name, in column order; a column whose
    /// values are all null has none.
    pub fn column_ranges(&self) -> (r: Vec<(String, Option<(Value, Value)>)>)
        requires
            self.wf(),
        ensures
            r@.len() == self@.columns.len(),
            forall|c: int|
                0 <= c < r@.len() ==> (#[trigger] r@[c]).0@ == self@.names[c] && range_view(r@[c].1)
                    == self@.columns[c].range,
    {
        let mut out: Vec<(String, Option<(Value, Value)>)> = Vec::new();
        let mut c: usize = 0;
        while c < self.columns.len()
            invariant
                self.wf(),
                c <= self.columns.len(),
                out@.len() == c,
                forall|d: int|
                    0 <= d < c ==> (#[trigger] out@[d]).0@ == self@.names[d] && range_view(out@[d].1)
                        == self@.columns[d].range,
            decreases self.columns.len() - c,
        {
            let range = match self.columns[c].1.column().range() {
                Some((lo, hi)) => Some((lo.duplicate(), hi.duplicate())),
                None => None,
            };
            out.push((self.columns[c].0.clone(), range));
            c += 1;
        }
        out
    }

    /// Whether the range of the named column leaves room for a row that
    /// meets the comparison.
    pub fn column_could_satisfy_predicate(&self, column_name: &str, op: Operator, value: &Value) -> (r:
        bool)
        requires
            self.wf(),
        ensures
            r == (has_column(self@.names, column_name@) && range_could_satisfy(
                self@.columns[column_of(self@.names, column_name@)].range,
                op,
                value@,
            )),
    {
        match self.find_column(column_name) {
            Some(c) => self.columns[c].1.column().could_satisfy(op, value),
            None => false,
        }
    }

    /// Whether the row group's ranges leave room for a row that meets every
    /// predicate.
    pub fn could_satisfy_all(&self, predicates: &[Predicate]) -> (r: bool)
        requires
            self.wf(),
        ensures
            r == passes(self@, predicates@),
    {
        let mut k: usize = 0;
        while k < predicates.len()
            invariant
                self.wf(),
                k <= predicates.len(),
                forall|j: int| 0 <= j < k ==> could_satisfy(self@, #[trigger] predicates@[j]),
            decreases predicates.len() - k,
        {
            let p = &predicates[k];
            if !self.column_could_satisfy_predicate(p.0.as_str(), p.1.0, &p.1.1) {
                assert(!could_satisfy(self@, predicates@[k as int]));
                return false;
            }
            k += 1;
        }
        true
    }

    /// The position of each name's column; nothing when some name has no
    /// column.
    pub fn resolve(&self, wanted: &[&str]) -> (r: Option<Vec<usize>>)
        requires
            self.wf(),
        ensures
            match r {
                Some(at) => resolved(self@, str_views(wanted@), at@),
                None => !all_columns_exist(self@.names, str_views(wanted@)),
            },
    {
        let mut at: Vec<usize> = Vec::new();
        let mut j: usize = 0;
        while j < wanted.len()
            invariant
                self.wf(),
                j <= wanted.len(),
                at@.len() == j,
                forall|i: int| 0 <= i < j ==> has_column(self@.names, wanted@[i]@),
                forall|i: int|
                    0 <= i < j ==> (#[trigger] at@[i]) == column_of(self@.names, wanted@[i]@)
                        && at@[i] < self@.columns.len(),
            decreases wanted.len() - j,
        {
            match self.find_column(wanted[j]) {
                Some(c) => at.push(c),
                None => {
                    assert(str_views(wanted@)[j as int] == wanted@[j as int]@);
                    return None;
                },
            }
            j += 1;
        }
        assert forall|i: int| 0 <= i < str_views(wanted@).len() implies has_column(
            self@.names,
            #[trigger] str_views(wanted@)[i],
        ) && at@[i] == column_of(self@.names, str_views(wanted@)[i]) && at@[i]
            < self@.columns.len() by {
            assert(str_views(wanted@)[i] == wanted@[i]@);
        }
        Some(at)
    }

    /// The position of each predicate's column; nothing when some predicate
    /// names a column that the row group lacks.
    pub fn resolve_predicates(&self, predicates: &[Predicate]) -> (r: Option<Vec<usize>>)
        requires
            self.wf(),
        ensures
            match r {
                Some(at) => resolved(self@, predicate_columns(predicates@), at@),
                None => !all_columns_exist(self@.names, predicate_columns(predicates@)),
            },
    {
        let mut at: Vec<usize> = Vec::new();
        let mut k: usize = 0;
        while k < predicates.len()
            invariant
                self.wf(),
                k <= predicates.len(),
                at@.len() == k,
                forall|i: int| 0 <= i < k ==> has_column(self@.names, predicates@[i].0@),
                forall|i: int|
                    0 <= i < k ==> (#[trigger] at@[i]) == column_of(self@.names, predicates@[i].0@)
                        && at@[i] < self@.columns.len(),
            decreases predicates.len() - k,
        {
            match self.find_column(predicates[k].0.as_str()) {
                Some(c) => at.push(c),
                None => {
                    assert(predicate_columns(predicates@)[k as int] == predicates@[k as int].0@);
                    return None;
                },
            }
            k += 1;
        }
        assert forall|i: int| 0 <= i < predicate_columns(predicates@).len() implies has_column(
            self@.names,
            #[trigger] predicate_columns(predicates@)[i],
        ) && at@[i] == column_of(self@.names, predicate_columns(predicates@)[i]) && at@[i]
            < self@.columns.len() by {
            assert(predicate_columns(predicates@)[i] == predicates@[i].0@);
        }
        Some(at)
    }

    /// Whether row `row` meets every predicate, given the position of each
    /// predicate's column.
    fn row_meets(&self, row: usize, predicates: &[Predicate], at: &Vec<usize>) -> (r: bool)
        requires
            self.wf(),
            row < self@.rows,
            resolved(self@, predicate_columns(predicates@), at@),
        ensures
            r == row_matches(self@, row as int, predicates@),
    {
        let mut k: usize = 0;
        while k < predicates.len()
            invariant
                self.wf(),
                row < self@.rows,
                k <= predicates.len(),
                resolved(self@, predicate_columns(predicates@), at@),
                forall|j: int|
                    0 <= j < k ==> predicate_holds(self@, row as int, #[trigger] predicates@[j]),
            decreases predicates.len() - k,
        {
            let p = &predicates[k];
            assert(predicate_columns(predicates@)[k as int] == p.0@);
            let column = self.column(at[k]);
            if !column.value(row).satisfies(p.1.0, &p.1.1) {
                assert(!predicate_holds(self@, row as int, predicates@[k as int]));
                return false;
            }
            k += 1;
        }
        true
    }

    /// The rows that meet every predicate, in ascending order.
    fn matching_rows(&self, predicates: &[Predicate], at: &Vec<usize>) -> (rows: Vec<usize>)
        requires
            self.wf(),
            resolved(self@, predicate_columns(predicates@), at@),
        ensures
            rows@.len() == selected_rows(self@, predicates@, self@.rows as int).len(),
            forall|i: int|
                0 <= i < rows@.len() ==> (#[trigger] rows@[i]) as int == selected_rows(
                    self@,
                    predicates@,
                    self@.rows as int,
                )[i] && rows@[i] < self@.rows,
    {
        let mut rows: Vec<usize> = Vec::new();
        let mut r: usize = 0;
        while r < self.rows as usize
            invariant
                self.wf(),
                r <= self@.rows,
                resolved(self@, predicate_columns(predicates@), at@),
                rows@.len() == selected_rows(self@, predicates@, r as int).len(),
                forall|i: int|
                    0 <= i < rows@.len() ==> (#[trigger] rows@[i]) as int == selected_rows(
                        self@,
                        predicates@,
                        r as int,
                    )[i] && rows@[i] < self@.rows,
            decreases self@.rows - r,
        {
            if self.row_meets(r, predicates, at) {
                rows.push(r);
            }
            r += 1;
        }
        rows
    }

    /// The values of column `c` at the given rows.
    fn gather_column(&self, c: usize, rows: &Vec<usize>) -> (values: Vec<Value>)
        requires
            self.wf(),
            c < self@.columns.len(),
            forall|i: int| 0 <= i < rows@.len() ==> (#[trigger] rows@[i]) < self@.rows,
        ensures
            values@.len() == rows@.len(),
            forall|i: int|
                0 <= i < rows@.len() ==> (#[trigger] values@[i])@ == self@.columns[c as int].values[rows@[i] as int],
    {
        let column = self.column(c);
        let mut values: Vec<Value> = Vec::new();
        let mut i: usize = 0;
        while i < rows.len()
            invariant
                self.wf(),
                i <= rows.len(),
                column@ == self@.columns[c as int],
                column@.values.len() == self@.rows,
                forall|i: int| 0 <= i < rows@.len() ==> (#[trigger] rows@[i]) < self@.rows,
                values@.len() == i,
                forall|j: int|
                    0 <= j < i ==> (#[trigger] values@[j])@ == column@.values[rows@[j] as int],
            decreases rows.len() - i,
        {
            values.push(column.value(rows[i]).duplicate());
            i += 1;
        }
        values
    }

    /// The values of the requested columns in the rows that meet every
    /// predicate, in row order. An empty list of columns asks for all of
    /// them. Fails when a requested column or the column of a predicate does
    /// not exist.
    pub fn read_filter(&self, columns: &[&str], predicates: &[Predicate]) -> (r: Result<
        ReadFilterResult,
        Error,
    >)
        requires
            self.wf(),
        ensures
            match r {
                Ok(res) => {
                    &&& all_columns_exist(self@.names, str_views(columns@))
                    &&& all_columns_exist(self@.names, predicate_columns(predicates@))
                    &&& is_filter_result(res, self@, str_views(columns@), predicates@)
                },
                Err(e) => e is ColumnNotFound && !(all_columns_exist(
                    self@.names,
                    str_views(columns@),
                ) && all_columns_exist(self@.names, predicate_columns(predicates@))),
            },
    {
        let at = match self.resolve_predicates(predicates) {
            Some(at) => at,
            None => {
                return Err(Error::ColumnNotFound);
            },
        };
        let wanted_at = match self.resolve(columns) {
            Some(wanted_at) => wanted_at,
            None => {
                return Err(Error::ColumnNotFound);
            },
        };
        let rows = self.matching_rows(predicates, &at);
        let ghost wanted = requested(self@.names, str_views(columns@));
        let ghost sel = selected_rows(self@, predicates@, self@.rows as int);
        let mut out: Vec<(String, Vec<Value>)> = Vec::new();
        if columns.len() == 0 {
            let mut c: usize = 0;
            while c < self.columns.len()
                invariant
                    self.wf(),
                    c <= self.columns.len(),
                    wanted == self@.names,
                    sel == selected_rows(self@, predicates@, self@.rows as int),
                    rows@.len() == sel.len(),
                    forall|i: int|
                        0 <= i < rows@.len() ==> (#[trigger] rows@[i]) as int == sel[i] && rows@[i]
                            < self@.rows,
                    out@.len() == c,
                    forall|j: int|
                        0 <= j < c ==> column_is(
                            #[trigger] out@[j],
                            wanted[j],
                            gather(self@.columns[column_of(self@.names, wanted[j])].values, sel),
                        ),
                decreases self.columns.len() - c,
            {
                let values = self.gather_column(c, &rows);
                proof {
                    lemma_column_unique(self@.names, self@.names[c as int], c as int);
                    assert(value_views(values@) =~= gather(self@.columns[c as int].values, sel));
                }
                out.push((self.columns[c].0.clone(), values));
                c += 1;
            }
        } else {
            let mut j: usize = 0;
            while j < columns.len()
                invariant
                    self.wf(),
                    j <= columns.len(),
                    wanted == str_views(columns@),
                    resolved(self@, str_views(columns@), wanted_at@),
                    sel == selected_rows(self@, predicates@, self@.rows as int),
                    rows@.len() == sel.len(),
                    forall|i: int|
                        0 <= i < rows@.len() ==> (#[trigger] rows@[i]) as int == sel[i] && rows@[i]
                            < self@.rows,
                    out@.len() == j,
                    forall|i: int|
                        0 <= i < j ==> column_is(
                            #[trigger] out@[i],
                            wanted[i],
                            gather(self@.columns[column_of(self@.names, wanted[i])].values, sel),
                        ),
                decreases columns.len() - j,
            {
                assert(wanted[j as int] == columns@[j as int]@);
                let c = wanted_at[j];
                let values = self.gather_column(c, &rows);
                proof {
                    assert(value_views(values@) =~= gather(self@.columns[c as int].values, sel));
                }
                out.push((columns[j].to_owned(), values));
                j += 1;
            }
        }
        Ok(ReadFilterResult { columns: out })
    }
}

/// The window that a timestamp falls in: windows are `width` wide and the
/// first begins at `from`. Timestamps before `from`, and all timestamps when
/// the width is not positive, are put in the first window.
pub open spec fn bucket(time: int, from: int, width: int) -> int {
    if time >= from && width > 0 {
        (time - from) / width
    } else {
        0
    }
}

/// The group key of row `row`: the values of the group columns, followed by
/// the window of the row's timestamp when the rows are windowed by time.
pub open spec fn key_at(
    m: RowGroupModel,
    group_at: Seq<usize>,
    window: Option<(int, int)>,
    row: int,
) -> Seq<ValueModel> {
    let base = Seq::new(group_at.len(), |j: int| m.columns[group_at[j] as int].values[row]);
    match window {
        Some((from, width)) => base.push(ValueModel::U64(bucket(time_at(m, row), from, width))),
        None => base,
    }
}

/// The window of a list of window parameters.
pub open spec fn window_view(window: Option<(i64, i64)>) -> Option<(int, int)> {
    match window {
        Some((from, width)) => Some((from as int, width as int)),
        None => None,
    }
}

/// The timestamp of row `row`.
pub open spec fn time_at(m: RowGroupModel, row: int) -> int {
    m.columns[m.time].values[row]->I64_0
}

/// The group keys among the selected rows below `n`, each once, in the order
/// in which they first occur.
pub open spec fn group_keys(
    m: RowGroupModel,
    predicates: Seq<Predicate>,
    group_at: Seq<usize>,
    window: Option<(int, int)>,
    n: int,
) -> Seq<Seq<ValueModel>>
    decreases n,
{
    if n <= 0 {
        Seq::empty()
    } else {
        let before = group_keys(m, predicates, group_at, window, n - 1);
        let key = key_at(m, group_at, window, n - 1);
        if row_matches(m, n - 1, predicates) && !before.contains(key) {
            before.push(key)
        } else {
            before
        }
    }
}

/// The selected rows below `n` whose group key is `key`, in ascending order.
pub open spec fn group_rows(
    m: RowGroupModel,
    predicates: Seq<Predicate>,
    group_at: Seq<usize>,
    window: Option<(int, int)>,
    key: Seq<ValueModel>,
    n: int,
) -> Seq<int>
    decreases n,
{
    if n <= 0 {
        Seq::empty()
    } else {
        let before = group_rows(m, predicates, group_at, window, key, n - 1);
        if row_matches(m, n - 1, predicates) && key_at(m, group_at, window, n - 1) == key {
            before.push(n - 1)
        } else {
            before
        }
    }
}

/// The aggregate of kind `kind` over the values of column `c` in the given
/// rows, taken in the order of the rows.
pub open spec fn accumulated(m: RowGroupModel, kind: AggregateType, c: int, rows: Seq<int>) -> AggregateModel
    decreases rows.len(),
{
    if rows.len() == 0 {
        initial(kind)
    } else {
        step(
            accumulated(m, kind, c, rows.drop_last()),
            time_at(m, rows.last()),
            m.columns[c].values[rows.last()],
        )
    }
}

/// The aggregate `start` carried on over the values of column `c` in the given
/// rows, taken in the order of the rows.
pub open spec fn accumulated_from(
    m: RowGroupModel,
    start: AggregateModel,
    c: int,
    rows: Seq<int>,
) -> AggregateModel
    decreases rows.len(),
{
    if rows.len() == 0 {
        start
    } else {
        step(
            accumulated_from(m, start, c, rows.drop_last()),
            time_at(m, rows.last()),
            m.columns[c].values[rows.last()],
        )
    }
}

/// Whether column `c` holds a value that is not null in some row that meets
/// every predicate.
pub open spec fn column_has_value(m: RowGroupModel, predicates: Seq<Predicate>, c: int) -> bool {
    exists|r: int|
        0 <= r < m.rows && row_matches(m, r, predicates) && !(
        #[trigger] m.columns[c].values[r] is Null)
}

/// Whether column `c` holds the text `v` in some row that meets every
/// predicate.
pub open spec fn column_has_text(
    m: RowGroupModel,
    predicates: Seq<Predicate>,
    c: int,
    v: Seq<char>,
) -> bool {
    exists|r: int|
        0 <= r < m.rows && row_matches(m, r, predicates) && #[trigger] m.columns[c].values[r]
            == ValueModel::Text(vstd::utf8::encode_utf8(v))
}

/// The column names of a list of aggregates.
pub open spec fn aggregate_columns(aggregates: Seq<(String, AggregateType)>) -> Seq<Seq<char>> {
    Seq::new(aggregates.len(), |a: int| aggregates[a].0@)
}

/// The grouped aggregates of one row group: the key of each group and, in
/// step with the keys, the aggregates of each group.
#[derive(Clone, Debug)]
pub struct ReadGroupResult {
    pub keys: Vec<Vec<Value>>,
    pub aggregates: Vec<Vec<AggregateResult>>,
}

impl ReadGroupResult {
    /// The text of the first `j` parts of the key of group `g`, a comma
    /// after each.
    pub open spec fn key_text(&self, g: int, j: int) -> Seq<char>
        decreases j,
    {
        if j <= 0 {
            Seq::empty()
        } else {
            (self.key_text(g, j - 1) + rendered(self.keys@[g]@[j - 1])).push(',')
        }
    }

    /// The text of the first `a` aggregates of group `g`, a comma after each
    /// but the last of the group.
    pub open spec fn aggregates_text(&self, g: int, a: int) -> Seq<char>
        decreases a,
    {
        if a <= 0 {
            Seq::empty()
        } else {
            let text = self.aggregates_text(g, a - 1) + rendered_aggregate(
                self.aggregates@[g]@[a - 1],
            );
            if a < self.aggregates@[g]@.len() {
                text.push(',')
            } else {
                text
            }
        }
    }

    /// The text of the first `g` groups: for each group a line with its key
    /// and its aggregates. A group without aggregates in the result is
    /// written with its key alone.
    pub open spec fn groups_text(&self, g: int) -> Seq<char>
        decreases g,
    {
        if g <= 0 {
            Seq::empty()
        } else {
            let line = self.key_text(g - 1, self.keys@[g - 1]@.len() as int) + (if g - 1
                < self.aggregates@.len() {
                self.aggregates_text(g - 1, self.aggregates@[g - 1]@.len() as int)
            } else {
                Seq::empty()
            });
            (self.groups_text(g - 1) + line).push('\n')
        }
    }

    /// Writes the groups out, one line per group: the parts of the key, each
    /// followed by a comma, then the aggregates separated by commas.
    pub fn display(&self) -> (s: String)
        ensures
            s@ == self.groups_text(self.keys@.len() as int),
    {
        let mut out = String::new();
        let mut g: usize = 0;
        while g < self.keys.len()
            invariant
                g <= self.keys.len(),
                out@ == self.groups_text(g as int),
            decreases self.keys.len() - g,
        {
            let ghost start = out@;
            let key = &self.keys[g];
            let mut j: usize = 0;
            while j < key.len()
                invariant
                    g < self.keys.len(),
                    key == &self.keys@[g as int],
                    j <= key.len(),
                    out@ == start + self.key_text(g as int, j as int),
                decreases key.len() - j,
            {
                let cell = key[j].render();
                out.append(cell.as_str());
                push_char(&mut out, ',');
                j += 1;
                assert(out@ =~= start + self.key_text(g as int, j as int));
            }
            let ghost keyed = out@;
            if g < self.aggregates.len() {
                let row = &self.aggregates[g];
                let mut a: usize = 0;
                while a < row.len()
                    invariant
                        g < self.aggregates.len(),
                        row == &self.aggregates@[g as int],
                        a <= row.len(),
                        out@ == keyed + self.aggregates_text(g as int, a as int),
                    decreases row.len() - a,
                {
                    let cell = row[a].render();
                    out.append(cell.as_str());
                    if a + 1 < row.len() {
                        push_char(&mut out, ',');
                    }
                    a += 1;
                    assert(out@ =~= keyed + self.aggregates_text(g as int, a as int));
                }
            }
            push_char(&mut out, '\n');
            g += 1;
            assert(out@ =~= self.groups_text(g as int));
        }
        out
    }
}

/// Whether `aggregates` holds, for each requested aggregate, its value over
/// the given rows.
pub open spec fn aggregates_are(
    aggregates: Seq<AggregateResult>,
    m: RowGroupModel,
    wanted: Seq<(String, AggregateType)>,
    at: Seq<usize>,
    rows: Seq<int>,
) -> bool {
    &&& aggregates.len() == wanted.len()
    &&& forall|a: int|
        0 <= a < wanted.len() ==> (#[trigger] aggregates[a])@ == accumulated(
            m,
            wanted[a].1,
            at[a] as int,
            rows,
        )
}

/// Whether the first `n` rows have been grouped into `keys` and
/// `aggregates`: the keys are the group keys of the selected rows in the
/// order of their first occurrence, and each group carries the requested
/// aggregates over its rows.
pub open spec fn grouped(
    keys: Seq<Vec<Value>>,
    aggregates: Seq<Vec<AggregateResult>>,
    m: RowGroupModel,
    predicates: Seq<Predicate>,
    group_at: Seq<usize>,
    window: Option<(int, int)>,
    wanted: Seq<(String, AggregateType)>,
    at: Seq<usize>,
    n: int,
) -> bool {
    let expected = group_keys(m, predicates, group_at, window, n);
    &&& keys.len() == expected.len()
    &&& aggregates.len() == expected.len()
    &&& forall|g: int| 0 <= g < expected.len() ==> value_views((#[trigger] keys[g])@) == expected[g]
    &&& forall|g: int|
        0 <= g < expected.len() ==> aggregates_are(
            (#[trigger] aggregates[g])@,
            m,
            wanted,
            at,
            group_rows(m, predicates, group_at, window, expected[g], n),
        )
}

/// Whether `res` is the grouping of the rows of `m` that meet every
/// predicate by the values of `group_columns`, with the requested
/// aggregates for each group.
pub open spec fn is_group_result(
    res: ReadGroupResult,
    m: RowGroupModel,
    predicates: Seq<Predicate>,
    group_columns: Seq<Seq<char>>,
    window: Option<(int, int)>,
    wanted: Seq<(String, AggregateType)>,
) -> bool {
    exists|group_at: Seq<usize>, at: Seq<usize>|
        {
            &&& resolved(m, group_columns, group_at)
            &&& resolved(m, aggregate_columns(wanted), at)
            &&& #[trigger] grouped(
                res.keys@,
                res.aggregates@,
                m,
                predicates,
                group_at,
                window,
                wanted,
                at,
                m.rows as int,
            )
        }
}

impl RowGroup {
    /// The position of each aggregate's column; nothing when some aggregate
    /// names a column that the row group lacks.
    pub fn resolve_aggregates(&self, aggregates: &[(String, AggregateType)]) -> (r: Option<
        Vec<usize>,
    >)
        requires
            self.wf(),
        ensures
            match r {
                Some(at) => resolved(self@, aggregate_columns(aggregates@), at@),
                None => !all_columns_exist(self@.names, aggregate_columns(aggregates@)),
            },
    {
        let mut at: Vec<usize> = Vec::new();
        let mut a: usize = 0;
        while a < aggregates.len()
            invariant
                self.wf(),
                a <= aggregates.len(),
                at@.len() == a,
                forall|i: int| 0 <= i < a ==> has_column(self@.names, aggregates@[i].0@),
                forall|i: int|
                    0 <= i < a ==> (#[trigger] at@[i]) == column_of(self@.names, aggregates@[i].0@)
                        && at@[i] < self@.columns.len(),
            decreases aggregates.len() - a,
        {
            match self.find_column(aggregates[a].0.as_str()) {
                Some(c) => at.push(c),
                None => {
                    assert(aggregate_columns(aggregates@)[a as int] == aggregates@[a as int].0@);
                    return None;
                },
            }
            a += 1;
        }
        assert forall|i: int| 0 <= i < aggregate_columns(aggregates@).len() implies has_column(
            self@.names,
            #[trigger] aggregate_columns(aggregates@)[i],
        ) && at@[i] == column_of(self@.names, aggregate_columns(aggregates@)[i]) && at@[i]
            < self@.columns.len() by {
            assert(aggregate_columns(aggregates@)[i] == aggregates@[i].0@);
        }
        Some(at)
    }

    /// The timestamp of row `row`.
    fn timestamp(&self, row: usize) -> (t: i64)
        requires
            self.wf(),
            row < self@.rows,
        ensures
            t == time_at(self@, row as int),
    {
        let column = self.column(self.time);
        assert(column@.values[row as int] is I64);
        match column.value(row) {
            Value::Scalar(Scalar::I64(t)) => *t,
            _ => 0,
        }
    }

    /// The values of the group columns in row `row`.
    fn key_of(&self, group_at: &Vec<usize>, window: Option<(i64, i64)>, row: usize) -> (key: Vec<
        Value,
    >)
        requires
            self.wf(),
            row < self@.rows,
            forall|j: int| 0 <= j < group_at@.len() ==> (#[trigger] group_at@[j]) < self@.columns.len(),
        ensures
            value_views(key@) == key_at(self@, group_at@, window_view(window), row as int),
    {
        let mut key: Vec<Value> = Vec::new();
        let mut j: usize = 0;
        while j < group_at.len()
            invariant
                self.wf(),
                row < self@.rows,
                j <= group_at.len(),
                forall|j: int|
                    0 <= j < group_at@.len() ==> (#[trigger] group_at@[j]) < self@.columns.len(),
                key@.len() == j,
                forall|i: int|
                    0 <= i < j ==> (#[trigger] key@[i])@ == self@.columns[group_at@[i] as int].values[row as int],
            decreases group_at.len() - j,
        {
            key.push(self.column(group_at[j]).value(row).duplicate());
            j += 1;
        }
        match window {
            Some((from, width)) => {
                let time = self.timestamp(row);
                key.push(Value::Scalar(Scalar::U64(window_index(time, from, width))));
            },
            None => {},
        }
        assert(value_views(key@) =~= key_at(self@, group_at@, window_view(window), row as int));
        key
    }

    /// Groups the rows that meet every predicate by the values of
    /// `group_columns` and computes the requested aggregates for each group.
    /// The groups come in the order in which their keys first occur. Fails
    /// when a predicate, a group column or an aggregate names a column that
    /// the row group lacks.
    pub fn read_group(
        &self,
        predicates: &[Predicate],
        group_columns: &[&str],
        aggregates: &[(String, AggregateType)],
    ) -> (r: Result<ReadGroupResult, Error>)
        requires
            self.wf(),
        ensures
            match r {
                Ok(res) => {
                    &&& all_columns_exist(self@.names, predicate_columns(predicates@))
                    &&& all_columns_exist(self@.names, str_views(group_columns@))
                    &&& all_columns_exist(self@.names, aggregate_columns(aggregates@))
                    &&& is_group_result(
                        res,
                        self@,
                        predicates@,
                        str_views(group_columns@),
                        None,
                        aggregates@,
                    )
                },
                Err(e) => e is ColumnNotFound && !(all_columns_exist(
                    self@.names,
                    predicate_columns(predicates@),
                ) && all_columns_exist(self@.names, str_views(group_columns@)) && all_columns_exist(
                    self@.names,
                    aggregate_columns(aggregates@),
                )),
            },
    {
        self.read_group_window(predicates, group_columns, aggregates, None)
    }

    /// As `read_group`, with the rows grouped by the window of their
    /// timestamp as well when `window` gives the start of the first window
    /// and the width of the windows: the number of the window is the last
    /// part of each group key.
    pub fn read_group_window(
        &self,
        predicates: &[Predicate],
        group_columns: &[&str],
        aggregates: &[(String, AggregateType)],
        window: Option<(i64, i64)>,
    ) -> (r: Result<ReadGroupResult, Error>)
        requires
            self.wf(),
        ensures
            match r {
                Ok(res) => {
                    &&& all_columns_exist(self@.names, predicate_columns(predicates@))
                    &&& all_columns_exist(self@.names, str_views(group_columns@))
                    &&& all_columns_exist(self@.names, aggregate_columns(aggregates@))
                    &&& is_group_result(
                        res,
                        self@,
                        predicates@,
                        str_views(group_columns@),
                        window_view(window),
                        aggregates@,
                    )
                },
                Err(e) => e is ColumnNotFound && !(all_columns_exist(
                    self@.names,
                    predicate_columns(predicates@),
                ) && all_columns_exist(self@.names, str_views(group_columns@)) && all_columns_exist(
                    self@.names,
                    aggregate_columns(aggregates@),
                )),
            },
    {
        let pred_at = match self.resolve_predicates(predicates) {
            Some(at) => at,
            None => {
                return Err(Error::ColumnNotFound);
            },
        };
        let group_at = match self.resolve(group_columns) {
            Some(at) => at,
            None => {
                return Err(Error::ColumnNotFound);
            },
        };
        let at = match self.resolve_aggregates(aggregates) {
            Some(at) => at,
            None => {
                return Err(Error::ColumnNotFound);
            },
        };
        let ghost m = self@;
        let ghost w = window_view(window);
        let mut keys: Vec<Vec<Value>> = Vec::new();
        let mut results: Vec<Vec<AggregateResult>> = Vec::new();
        let mut row: usize = 0;
        while row < self.rows as usize
            invariant
                self.wf(),
                m == self@,
                w == window_view(window),
                row <= m.rows,
                resolved(m, predicate_columns(predicates@), pred_at@),
                resolved(m, str_views(group_columns@), group_at@),
                resolved(m, aggregate_columns(aggregates@), at@),
                grouped(keys@, results@, m, predicates@, group_at@, w, aggregates@, at@, row as int),
            decreases m.rows - row,
        {
            let ghost before_keys = group_keys(m, predicates@, group_at@, w, row as int);
            let ghost old_keys = keys@;
            let ghost old_results = results@;
            if self.row_meets(row, predicates, &pred_at) {
                assert forall|j: int| 0 <= j < group_at@.len() implies (#[trigger] group_at@[j])
                    < m.columns.len() by {
                    assert(has_column(m.names, str_views(group_columns@)[j]));
                }
                let key = self.key_of(&group_at, window, row);
                let ghost k = key_at(m, group_at@, w, row as int);
                let time = self.timestamp(row);
                let found = find_key(&keys, &key);
                match found {
                    Some(g) => {
                        assert(before_keys[g as int] == k);
                        assert(before_keys.contains(k));
                        let updated = self.accumulate_row(&results[g], aggregates, &at, row, time, Ghost(
                            group_rows(m, predicates@, group_at@, w, k, row as int),
                        ));
                        results.set(g, updated);
                        proof {
                            let now = group_keys(m, predicates@, group_at@, w, row + 1);
                            assert(now == before_keys);
                            assert forall|h: int| 0 <= h < now.len() implies aggregates_are(
                                (#[trigger] results@[h])@,
                                m,
                                aggregates@,
                                at@,
                                group_rows(m, predicates@, group_at@, w, now[h], row + 1),
                            ) by {
                                if h != g {
                                    assert(results@[h] == old_results[h]);
                                    assert(value_views(old_keys[h]@) == now[h]);
                                    lemma_group_keys_distinct(
                                        m,
                                        predicates@,
                                        group_at@,
                                        w,
                                        row as int,
                                    );
                                    assert(now[h] != now[g as int]);
                                }
                            }
                        }
                    },
                    None => {
                        assert(!before_keys.contains(k)) by {
                            if before_keys.contains(k) {
                                let h = choose|h: int| 0 <= h < before_keys.len() && before_keys[h] == k;
                                assert(value_views(old_keys[h]@) == k);
                            }
                        }
                        let fresh = self.fresh_aggregates(aggregates);
                        proof {
                            lemma_group_rows_absent(m, predicates@, group_at@, w, k, row as int);
                        }
                        let updated = self.accumulate_row(&fresh, aggregates, &at, row, time, Ghost(
                            group_rows(m, predicates@, group_at@, w, k, row as int),
                        ));
                        keys.push(key);
                        results.push(updated);
                        proof {
                            let now = group_keys(m, predicates@, group_at@, w, row + 1);
                            assert(now == before_keys.push(k));
                            assert forall|h: int| 0 <= h < now.len() implies aggregates_are(
                                (#[trigger] results@[h])@,
                                m,
                                aggregates@,
                                at@,
                                group_rows(m, predicates@, group_at@, w, now[h], row + 1),
                            ) by {
                                if h < before_keys.len() {
                                    assert(results@[h] == old_results[h]);
                                    assert(now[h] == before_keys[h]);
                                    assert(before_keys.contains(now[h]));
                                }
                            }
                            assert forall|h: int| 0 <= h < now.len() implies value_views(
                                (#[trigger] keys@[h])@,
                            ) == now[h] by {
                                if h < before_keys.len() {
                                    assert(keys@[h] == old_keys[h]);
                                }
                            }
                        }
                    },
                }
            } else {
                proof {
                    let now = group_keys(m, predicates@, group_at@, w, row + 1);
                    assert(now == before_keys);
                }
            }
            row += 1;
        }
        let res = ReadGroupResult { keys, aggregates: results };
        proof {
            assert(grouped(
                res.keys@,
                res.aggregates@,
                m,
                predicates@,
                group_at@,
                w,
                aggregates@,
                at@,
                m.rows as int,
            ));
        }
        Ok(res)
    }

    /// Carries the aggregates in `current` on over the rows that meet every
    /// predicate, in row order: aggregate `a` takes in the values of the
    /// column that the request `a` names. Fails when a predicate or an
    /// aggregate names a column that the row group lacks.
    pub fn aggregate_into(
        &self,
        predicates: &[Predicate],
        aggregates: &[(String, AggregateType)],
        current: Vec<AggregateResult>,
    ) -> (r: Result<Vec<AggregateResult>, Error>)
        requires
            self.wf(),
            current@.len() == aggregates@.len(),
        ensures
            match r {
                Ok(res) => {
                    &&& all_columns_exist(self@.names, predicate_columns(predicates@))
                    &&& all_columns_exist(self@.names, aggregate_columns(aggregates@))
                    &&& res@.len() == aggregates@.len()
                    &&& forall|a: int|
                        0 <= a < aggregates@.len() ==> (#[trigger] res@[a])@ == accumulated_from(
                            self@,
                            current@[a]@,
                            column_of(self@.names, aggregates@[a].0@),
                            selected_rows(self@, predicates@, self@.rows as int),
                        )
                },
                Err(e) => e is ColumnNotFound && !(all_columns_exist(
                    self@.names,
                    predicate_columns(predicates@),
                ) && all_columns_exist(self@.names, aggregate_columns(aggregates@))),
            },
    {
        let pred_at = match self.resolve_predicates(predicates) {
            Some(at) => at,
            None => {
                return Err(Error::ColumnNotFound);
            },
        };
        let at = match self.resolve_aggregates(aggregates) {
            Some(at) => at,
            None => {
                return Err(Error::ColumnNotFound);
            },
        };
        let rows = self.matching_rows(predicates, &pred_at);
        let ghost m = self@;
        let ghost sel = selected_rows(m, predicates@, m.rows as int);
        let ghost start = current@;
        let mut acc = current;
        let mut i: usize = 0;
        assert(sel.take(0) =~= Seq::<int>::empty());
        while i < rows.len()
            invariant
                self.wf(),
                m == self@,
                sel == selected_rows(m, predicates@, m.rows as int),
                i <= rows.len(),
                rows@.len() == sel.len(),
                forall|k: int|
                    0 <= k < rows@.len() ==> (#[trigger] rows@[k]) as int == sel[k] && rows@[k]
                        < m.rows,
                resolved(m, aggregate_columns(aggregates@), at@),
                start.len() == aggregates@.len(),
                acc@.len() == aggregates@.len(),
                forall|a: int|
                    0 <= a < aggregates@.len() ==> (#[trigger] acc@[a])@ == accumulated_from(
                        m,
                        start[a]@,
                        at@[a] as int,
                        sel.take(i as int),
                    ),
            decreases rows.len() - i,
        {
            let row = rows[i];
            let time = self.timestamp(row);
            let ghost seen = sel.take(i as int);
            let ghost next = sel.take(i + 1);
            assert(next.drop_last() =~= seen);
            assert(next.last() == row);
            let mut updated: Vec<AggregateResult> = Vec::new();
            let mut a: usize = 0;
            while a < aggregates.len()
                invariant
                    self.wf(),
                    m == self@,
                    row < m.rows,
                    time == time_at(m, row as int),
                    next.len() > 0,
                    next.drop_last() == seen,
                    next.last() == row,
                    resolved(m, aggregate_columns(aggregates@), at@),
                    start.len() == aggregates@.len(),
                    acc@.len() == aggregates@.len(),
                    forall|a: int|
                        0 <= a < aggregates@.len() ==> (#[trigger] acc@[a])@ == accumulated_from(
                            m,
                            start[a]@,
                            at@[a] as int,
                            seen,
                        ),
                    a <= aggregates.len(),
                    updated@.len() == a,
                    forall|b: int|
                        0 <= b < a ==> (#[trigger] updated@[b])@ == accumulated_from(
                            m,
                            start[b]@,
                            at@[b] as int,
                            next,
                        ),
                decreases aggregates.len() - a,
            {
                assert(has_column(m.names, aggregate_columns(aggregates@)[a as int]));
                let value = self.column(at[a]).value(row);
                updated.push(acc[a].accumulate(time, value));
                a += 1;
            }
            acc = updated;
            i += 1;
        }
        proof {
            assert(sel.take(rows@.len() as int) =~= sel);
            assert forall|a: int| 0 <= a < aggregates@.len() implies at@[a] as int == column_of(
                m.names,
                aggregates@[a].0@,
            ) by {
                assert(aggregate_columns(aggregates@)[a] == aggregates@[a].0@);
            }
        }
        Ok(acc)
    }

    /// Whether column `c` holds a value that is not null in some row that
    /// meets every predicate. Fails when a predicate names a column that the
    /// row group lacks.
    pub fn has_value(&self, predicates: &[Predicate], c: usize) -> (r: Result<bool, Error>)
        requires
            self.wf(),
            c < self@.columns.len(),
        ensures
            match r {
                Ok(found) => all_columns_exist(self@.names, predicate_columns(predicates@)) && found
                    == column_has_value(self@, predicates@, c as int),
                Err(e) => e is ColumnNotFound && !all_columns_exist(
                    self@.names,
                    predicate_columns(predicates@),
                ),
            },
    {
        let at = match self.resolve_predicates(predicates) {
            Some(at) => at,
            None => {
                return Err(Error::ColumnNotFound);
            },
        };
        let column = self.column(c);
        let mut row: usize = 0;
        while row < self.rows as usize
            invariant
                self.wf(),
                row <= self@.rows,
                column@ == self@.columns[c as int],
                column@.values.len() == self@.rows,
                resolved(self@, predicate_columns(predicates@), at@),
                forall|q: int|
                    0 <= q < row ==> !(row_matches(self@, q, predicates@) && !(
                    #[trigger] self@.columns[c as int].values[q] is Null)),
            decreases self@.rows - row,
        {
            if !column.value(row).is_null() && self.row_meets(row, predicates, &at) {
                return Ok(true);
            }
            row += 1;
        }
        Ok(false)
    }

    /// Puts into the ascending list `out` every text that column `c` holds in
    /// a row that meets every predicate. Fails, leaving the list as it was,
    /// when a predicate names a column that the row group lacks.
    pub fn collect_texts(&self, predicates: &[Predicate], c: usize, out: &mut Vec<String>) -> (r:
        Result<(), Error>)
        requires
            self.wf(),
            c < self@.columns.len(),
            ascending(old(out)@),
        ensures
            ascending(final(out)@),
            match r {
                Ok(_) => all_columns_exist(self@.names, predicate_columns(predicates@))
                    && forall|v: Seq<char>|
                    #[trigger] lists_name(final(out)@, v) <==> lists_name(old(out)@, v)
                        || column_has_text(self@, predicates@, c as int, v),
                Err(e) => e is ColumnNotFound && !all_columns_exist(
                    self@.names,
                    predicate_columns(predicates@),
                ) && final(out)@ == old(out)@,
            },
    {
        let at = match self.resolve_predicates(predicates) {
            Some(at) => at,
            None => {
                return Err(Error::ColumnNotFound);
            },
        };
        let ghost m = self@;
        let ghost start = out@;
        let column = self.column(c);
        let mut row: usize = 0;
        while row < self.rows as usize
            invariant
                self.wf(),
                m == self@,
                row <= m.rows,
                column@ == m.columns[c as int],
                column@.values.len() == m.rows,
                resolved(m, predicate_columns(predicates@), at@),
                ascending(out@),
                forall|v: Seq<char>|
                    #[trigger] lists_name(out@, v) <==> lists_name(start, v) || exists|q: int|
                        0 <= q < row && row_matches(m, q, predicates@)
                            && #[trigger] m.columns[c as int].values[q] == ValueModel::Text(
                            vstd::utf8::encode_utf8(v),
                        ),
            decreases m.rows - row,
        {
            let ghost before = out@;
            let mut added = false;
            let ghost text = Seq::<char>::empty();
            if self.row_meets(row, predicates, &at) {
                match column.value(row) {
                    Value::String(s) => {
                        insert_sorted(out, s.as_str());
                        proof {
                            text = s@;
                        }
                        added = true;
                    },
                    _ => {},
                }
            }
            proof {
                assert forall|v: Seq<char>| #[trigger]
                    lists_name(out@, v) <==> lists_name(start, v) || exists|q: int|
                        0 <= q < row + 1 && row_matches(m, q, predicates@)
                            && #[trigger] m.columns[c as int].values[q] == ValueModel::Text(
                            vstd::utf8::encode_utf8(v),
                        ) by {
                    let here = row_matches(m, row as int, predicates@) && m.columns[c as int].values[row as int]
                        == ValueModel::Text(vstd::utf8::encode_utf8(v));
                    if here {
                        assert(added);
                        vstd::utf8::encode_utf8_decode_utf8(v);
                        vstd::utf8::encode_utf8_decode_utf8(text);
                        assert(text == v);
                    }
                    if added && v == text {
                        assert(here);
                    }
                    if exists|q: int|
                        0 <= q < row + 1 && row_matches(m, q, predicates@)
                            && #[trigger] m.columns[c as int].values[q] == ValueModel::Text(
                            vstd::utf8::encode_utf8(v),
                        ) {
                        let q = choose|q: int|
                            0 <= q < row + 1 && row_matches(m, q, predicates@)
                                && #[trigger] m.columns[c as int].values[q] == ValueModel::Text(
                                vstd::utf8::encode_utf8(v),
                            );
                        if q < row {
                            assert(lists_name(before, v));
                        }
                    }
                    if lists_name(before, v) && !lists_name(start, v) {
                        let q = choose|q: int|
                            0 <= q < row && row_matches(m, q, predicates@)
                                && #[trigger] m.columns[c as int].values[q] == ValueModel::Text(
                                vstd::utf8::encode_utf8(v),
                            );
                        assert(0 <= q < row + 1);
                    }
                }
            }
            row += 1;
        }
        Ok(())
    }

    /// The requested aggregates over no rows.
    fn fresh_aggregates(&self, aggregates: &[(String, AggregateType)]) -> (r: Vec<AggregateResult>)
        ensures
            r@.len() == aggregates@.len(),
            forall|a: int| 0 <= a < r@.len() ==> (#[trigger] r@[a])@ == initial(aggregates@[a].1),
    {
        let mut r: Vec<AggregateResult> = Vec::new();
        let mut a: usize = 0;
        while a < aggregates.len()
            invariant
                a <= aggregates.len(),
                r@.len() == a,
                forall|i: int| 0 <= i < a ==> (#[trigger] r@[i])@ == initial(aggregates@[i].1),
            decreases aggregates.len() - a,
        {
            r.push(AggregateResult::new(aggregates[a].1));
            a += 1;
        }
        r
    }

    /// The aggregates of a group after row `row` has joined it.
    fn accumulate_row(
        &self,
        current: &Vec<AggregateResult>,
        aggregates: &[(String, AggregateType)],
        at: &Vec<usize>,
        row: usize,
        time: i64,
        Ghost(rows): Ghost<Seq<int>>,
    ) -> (r: Vec<AggregateResult>)
        requires
            self.wf(),
            row < self@.rows,
            time == time_at(self@, row as int),
            resolved(self@, aggregate_columns(aggregates@), at@),
            current@.len() == aggregates@.len(),
            forall|a: int|
                0 <= a < aggregates@.len() ==> (#[trigger] current@[a])@ == accumulated(
                    self@,
                    aggregates@[a].1,
                    at@[a] as int,
                    rows,
                ),
        ensures
            aggregates_are(r@, self@, aggregates@, at@, rows.push(row as int)),
    {
        let mut r: Vec<AggregateResult> = Vec::new();
        let mut a: usize = 0;
        while a < aggregates.len()
            invariant
                self.wf(),
                row < self@.rows,
                time == time_at(self@, row as int),
                resolved(self@, aggregate_columns(aggregates@), at@),
                current@.len() == aggregates@.len(),
                forall|a: int|
                    0 <= a < aggregates@.len() ==> (#[trigger] current@[a])@ == accumulated(
                        self@,
                        aggregates@[a].1,
                        at@[a] as int,
                        rows,
                    ),
                a <= aggregates.len(),
                r@.len() == a,
                forall|i: int|
                    0 <= i < a ==> (#[trigger] r@[i])@ == accumulated(
                        self@,
                        aggregates@[i].1,
                        at@[i] as int,
                        rows.push(row as int),
                    ),
            decreases aggregates.len() - a,
        {
            assert(has_column(self@.names, aggregate_columns(aggregates@)[a as int]));
            let value = self.column(at[a]).value(row);
            proof {
                assert(rows.push(row as int).drop_last() =~= rows);
                assert(rows.push(row as int).last() == row);
            }
            r.push(current[a].accumulate(time, value));
            a += 1;
        }
        r
    }
}

/// The predicates that restrict the time column to `[from, to)`.
pub fn time_range_predicate(from: i64, to: i64) -> (r: Vec<Predicate>)
    ensures
        r@.len() == 2,
        r@[0].0@ == TIME_COLUMN_NAME@,
        r@[0].1.0 == Operator::GTE,
        r@[0].1.1@ == ValueModel::I64(from as int),
        r@[1].0@ == TIME_COLUMN_NAME@,
        r@[1].1.0 == Operator::LT,
        r@[1].1.1@ == ValueModel::I64(to as int),
{
    let mut r: Vec<Predicate> = Vec::new();
    r.push((TIME_COLUMN_NAME.to_owned(), (Operator::GTE, Value::Scalar(Scalar::I64(from)))));
    r.push((TIME_COLUMN_NAME.to_owned(), (Operator::LT, Value::Scalar(Scalar::I64(to)))));
    r
}

/// A copy of a predicate.
pub fn duplicate_predicate(p: &Predicate) -> (r: Predicate)
    ensures
        r.0@ == p.0@,
        r.1.0 == p.1.0,
        r.1.1@ == p.1.1@,
{
    (p.0.clone(), (p.1.0, p.1.1.duplicate()))
}

/// Whether `combined` is `predicates` behind the two predicates that
/// restrict the time column to `[from, to)`.
pub open spec fn time_bounded(
    combined: Seq<Predicate>,
    from: int,
    to: int,
    predicates: Seq<Predicate>,
) -> bool {
    &&& combined.len() == predicates.len() + 2
    &&& combined[0].0@ == TIME_COLUMN_NAME@
    &&& combined[0].1.0 == Operator::GTE
    &&& combined[0].1.1@ == ValueModel::I64(from)
    &&& combined[1].0@ == TIME_COLUMN_NAME@
    &&& combined[1].1.0 == Operator::LT
    &&& combined[1].1.1@ == ValueModel::I64(to)
    &&& forall|k: int|
        0 <= k < predicates.len() ==> (#[trigger] combined[k + 2]).0@ == predicates[k].0@
            && combined[k + 2].1.0 == predicates[k].1.0 && combined[k + 2].1.1@
            == predicates[k].1.1@
}

/// The predicates behind the two that restrict the time column to
/// `[from, to)`.
pub fn within_time_range(from: i64, to: i64, predicates: &[Predicate]) -> (r: Vec<Predicate>)
    ensures
        time_bounded(r@, from as int, to as int, predicates@),
{
    let mut r = time_range_predicate(from, to);
    let mut k: usize = 0;
    while k < predicates.len()
        invariant
            k <= predicates.len(),
            r@.len() == k + 2,
            r@[0].0@ == TIME_COLUMN_NAME@,
            r@[0].1.0 == Operator::GTE,
            r@[0].1.1@ == ValueModel::I64(from as int),
            r@[1].0@ == TIME_COLUMN_NAME@,
            r@[1].1.0 == Operator::LT,
            r@[1].1.1@ == ValueModel::I64(to as int),
            forall|j: int|
                0 <= j < k ==> (#[trigger] r@[j + 2]).0@ == predicates@[j].0@ && r@[j + 2].1.0
                    == predicates@[j].1.0 && r@[j + 2].1.1@ == predicates@[j].1.1@,
        decreases predicates.len() - k,
    {
        r.push(duplicate_predicate(&predicates[k]));
        k += 1;
    }
    r
}

/// The number of the window that a timestamp falls in.
pub fn window_index(time: i64, from: i64, width: i64) -> (r: u64)
    ensures
        r == bucket(time as int, from as int, width as int),
{
    if time >= from && width > 0 {
        let span: u64 = if from >= 0 {
            (time - from) as u64
        } else if time < 0 {
            (time - from) as u64
        } else {
            (time as u64) + ((-(from + 1)) as u64) + 1
        };
        let r = span / (width as u64);
        assert(r == (time - from) / (width as int)) by (nonlinear_arith)
            requires
                span == time - from,
                width > 0,
                r == span as int / width as int,
        ;
        r
    } else {
        0
    }
}

/// A row group that holds a row meeting every predicate passes the range
/// test of every predicate.
pub proof fn lemma_match_passes(m: RowGroupModel, predicates: Seq<Predicate>, row: int)
    requires
        model_wf(m),
        0 <= row < m.rows,
        row_matches(m, row, predicates),
    ensures
        passes(m, predicates),
{
    assert forall|k: int| 0 <= k < predicates.len() implies could_satisfy(
        m,
        #[trigger] predicates[k],
    ) by {
        let p = predicates[k];
        assert(predicate_holds(m, row, p));
        let c = column_of(m.names, p.0@);
        assert(is_column(m.names, p.0@, c));
        assert(m.columns[c].values.len() == m.rows);
        crate::column::lemma_range_is_conservative(
            m.columns[c].values,
            m.columns[c].range,
            p.1.0,
            p.1.1@,
            row,
        );
    }
}

/// The position of the key among `keys`, if it is there.
fn find_key(keys: &Vec<Vec<Value>>, key: &Vec<Value>) -> (r: Option<usize>)
    ensures
        match r {
            Some(g) => g < keys@.len() && value_views(keys@[g as int]@) == value_views(key@),
            None => forall|g: int|
                0 <= g < keys@.len() ==> value_views((#[trigger] keys@[g])@) != value_views(key@),
        },
{
    let mut g: usize = 0;
    while g < keys.len()
        invariant
            g <= keys.len(),
            forall|h: int| 0 <= h < g ==> value_views((#[trigger] keys@[h])@) != value_views(key@),
        decreases keys.len() - g,
    {
        if same_values(&keys[g], key) {
            return Some(g);
        }
        g += 1;
    }
    None
}

/// Whether two lists hold the same values.
pub fn same_values(a: &Vec<Value>, b: &Vec<Value>) -> (r: bool)
    ensures
        r == (value_views(a@) == value_views(b@)),
{
    if a.len() != b.len() {
        assert(value_views(a@).len() != value_views(b@).len());
        return false;
    }
    let mut i: usize = 0;
    while i < a.len()
        invariant
            i <= a.len(),
            a@.len() == b@.len(),
            forall|j: int| 0 <= j < i ==> a@[j]@ == b@[j]@,
        decreases a.len() - i,
    {
        if !a[i].same(&b[i]) {
            assert(value_views(a@)[i as int] != value_views(b@)[i as int]);
            return false;
        }
        i += 1;
    }
    assert(value_views(a@) =~= value_views(b@));
    true
}

/// No group key occurs twice.
pub proof fn lemma_group_keys_distinct(
    m: RowGroupModel,
    predicates: Seq<Predicate>,
    group_at: Seq<usize>,
    window: Option<(int, int)>,
    n: int,
)
    ensures
        forall|g: int, h: int|
            0 <= g < h < group_keys(m, predicates, group_at, window, n).len() ==> group_keys(
                m,
                predicates,
                group_at,
                window,
                n,
            )[g] != group_keys(m, predicates, group_at, window, n)[h],
    decreases n,
{
    if n > 0 {
        lemma_group_keys_distinct(m, predicates, group_at, window, n - 1);
        let before = group_keys(m, predicates, group_at, window, n - 1);
        let now = group_keys(m, predicates, group_at, window, n);
        assert forall|g: int, h: int| 0 <= g < h < now.len() implies now[g] != now[h] by {
            if h < before.len() {
                assert(now[g] == before[g]);
                assert(now[h] == before[h]);
            } else {
                assert(now[g] == before[g]);
                assert(before.contains(before[g]));
            }
        }
    }
}

/// A key that is not among the group keys of the first `n` rows has no rows
/// among them.
pub proof fn lemma_group_rows_absent(
    m: RowGroupModel,
    predicates: Seq<Predicate>,
    group_at: Seq<usize>,
    window: Option<(int, int)>,
    key: Seq<ValueModel>,
    n: int,
)
    requires
        !group_keys(m, predicates, group_at, window, n).contains(key),
    ensures
        group_rows(m, predicates, group_at, window, key, n).len() == 0,
    decreases n,
{
    if n > 0 {
        let before = group_keys(m, predicates, group_at, window, n - 1);
        let now = group_keys(m, predicates, group_at, window, n);
        assert(!before.contains(key)) by {
            if before.contains(key) {
                let h = choose|h: int| 0 <= h < before.len() && before[h] == key;
                assert(now[h] == key);
            }
        }
        lemma_group_rows_absent(m, predicates, group_at, window, key, n - 1);
        if row_matches(m, n - 1, predicates) && key_at(m, group_at, window, n - 1) == key {
            assert(now == before.push(key));
            assert(now[before.len() as int] == key);
        }
    }
}

} // verus!
