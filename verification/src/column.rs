//! Values, predicates over them, and columns: densely packed sequences of
//! values with a cached range of their non-null entries.

use vstd::prelude::*;
use vstd::slice::slice_to_vec;
use vstd::string::StringExecFns;
use crate::text::{
    bytes_eq, bytes_lt, decimal, hex_char, hex_digit, i64_to_text, lemma_lex_transitive,
    lemma_lex_trichotomy, lex_lt, push_char, signed_decimal, u64_to_text,
};

verus! {

/// Column kind marker for tag columns in batch metadata.
pub const TAG_COLUMN_TYPE: &'static str = "tag";

/// Column kind marker for field columns in batch metadata.
pub const FIELD_COLUMN_TYPE: &'static str = "field";

/// Column kind marker for the time column in batch metadata.
pub const TIME_COLUMN_TYPE: &'static str = "time";

/// The comparison of a predicate.
#[derive(Clone, Copy, Debug, PartialEq, Eq, Structural)]
pub enum Operator {
    Equal,
    NotEqual,
    GT,
    GTE,
    LT,
    LTE,
}

/// The aggregates that can be asked of a column.
#[derive(Clone, Copy, Debug, PartialEq, Eq, Structural)]
pub enum AggregateType {
    Count,
    First,
    Last,
    Min,
    Max,
    Sum,
}

/// A numeric value or the absence of one. A 64-bit float is held as an
/// unsigned key that orders as the floats do; the library compares such keys
/// and never does floating-point arithmetic.
#[derive(Clone, Copy, Debug, PartialEq, Eq)]
pub enum Scalar {
    Null,
    I64(i64),
    U64(u64),
    F64(u64),
}

/// A value as stored in a column, used as a predicate operand, or reported
/// by an aggregate.
#[derive(Clone, Debug, PartialEq, Eq)]
pub enum Value {
    Null,
    String(String),
    ByteArray(Vec<u8>),
    Boolean(bool),
    Scalar(Scalar),
}

/// What a value denotes. Text is taken as its UTF-8 bytes, by which strings
/// are ordered and told apart.
pub enum ValueModel {
    Null,
    Text(Seq<u8>),
    Bytes(Seq<u8>),
    Bool(bool),
    I64(int),
    U64(int),
    F64(int),
}

impl View for Scalar {
    type V = ValueModel;

    open spec fn view(&self) -> ValueModel {
        match self {
            Scalar::Null => ValueModel::Null,
            Scalar::I64(v) => ValueModel::I64(*v as int),
            Scalar::U64(v) => ValueModel::U64(*v as int),
            Scalar::F64(v) => ValueModel::F64(*v as int),
        }
    }
}

impl View for Value {
    type V = ValueModel;

    open spec fn view(&self) -> ValueModel {
        match self {
            Value::Null => ValueModel::Null,
            Value::String(s) => ValueModel::Text(vstd::utf8::encode_utf8(s@)),
            Value::ByteArray(b) => ValueModel::Bytes(b@),
            Value::Boolean(b) => ValueModel::Bool(*b),
            Value::Scalar(s) => s@,
        }
    }
}

/// Whether two values are of the same kind and neither is null; only such
/// values are ordered against each other.
pub open spec fn comparable(a: ValueModel, b: ValueModel) -> bool {
    match (a, b) {
        (ValueModel::Text(_), ValueModel::Text(_)) => true,
        (ValueModel::Bytes(_), ValueModel::Bytes(_)) => true,
        (ValueModel::Bool(_), ValueModel::Bool(_)) => true,
        (ValueModel::I64(_), ValueModel::I64(_)) => true,
        (ValueModel::U64(_), ValueModel::U64(_)) => true,
        (ValueModel::F64(_), ValueModel::F64(_)) => true,
        _ => false,
    }
}

/// The strict order on values of one kind: text and bytes lexicographically,
/// `false` before `true`, numbers by magnitude. Values of different kinds,
/// and nulls, are not ordered.
pub open spec fn model_lt(a: ValueModel, b: ValueModel) -> bool {
    match (a, b) {
        (ValueModel::Text(x), ValueModel::Text(y)) => lex_lt(x, y),
        (ValueModel::Bytes(x), ValueModel::Bytes(y)) => lex_lt(x, y),
        (ValueModel::Bool(x), ValueModel::Bool(y)) => !x && y,
        (ValueModel::I64(x), ValueModel::I64(y)) => x < y,
        (ValueModel::U64(x), ValueModel::U64(y)) => x < y,
        (ValueModel::F64(x), ValueModel::F64(y)) => x < y,
        _ => false,
    }
}

/// Whether the value `v` of a row meets the comparison `op` against
/// `operand`. A null, or a value of another kind than the operand, meets no
/// comparison.
pub open spec fn satisfies(v: ValueModel, op: Operator, operand: ValueModel) -> bool {
    comparable(v, operand) && match op {
        Operator::Equal => v == operand,
        Operator::NotEqual => v != operand,
        Operator::GT => model_lt(operand, v),
        Operator::GTE => !model_lt(v, operand),
        Operator::LT => model_lt(v, operand),
        Operator::LTE => !model_lt(operand, v),
    }
}

/// The order on values is transitive.
pub proof fn lemma_lt_transitive(a: ValueModel, b: ValueModel, c: ValueModel)
    requires
        model_lt(a, b),
        model_lt(b, c),
    ensures
        model_lt(a, c),
{
    match (a, b, c) {
        (ValueModel::Text(x), ValueModel::Text(y), ValueModel::Text(z)) => {
            lemma_lex_transitive(x, y, z, 0);
        },
        (ValueModel::Bytes(x), ValueModel::Bytes(y), ValueModel::Bytes(z)) => {
            lemma_lex_transitive(x, y, z, 0);
        },
        _ => {},
    }
}

/// Two comparable values are ordered one way or the other, or are equal, and
/// never two of these at once.
pub proof fn lemma_lt_total(a: ValueModel, b: ValueModel)
    requires
        comparable(a, b),
    ensures
        model_lt(a, b) || model_lt(b, a) || a == b,
        !(model_lt(a, b) && model_lt(b, a)),
        a == b ==> !model_lt(a, b),
{
    match (a, b) {
        (ValueModel::Text(x), ValueModel::Text(y)) => {
            lemma_lex_trichotomy(x, y, 0);
        },
        (ValueModel::Bytes(x), ValueModel::Bytes(y)) => {
            lemma_lex_trichotomy(x, y, 0);
        },
        _ => {},
    }
}

/// No value is ordered before itself.
pub proof fn lemma_lt_irreflexive(a: ValueModel)
    ensures
        !model_lt(a, a),
{
    if comparable(a, a) {
        lemma_lt_total(a, a);
    }
}

/// Two upper-case hexadecimal digits for each of the first `n` bytes.
pub open spec fn hex_text(bytes: Seq<u8>, n: int) -> Seq<char>
    decreases n,
{
    if n <= 0 {
        Seq::empty()
    } else {
        hex_text(bytes, n - 1).push(hex_digit(bytes[n - 1] / 16)).push(hex_digit(bytes[n - 1] % 16))
    }
}

/// How a value is written out: text as it is, integers in decimal, a float
/// key as `#` and the key in decimal, booleans as `true` and `false`, bytes
/// in hexadecimal, and an absent value as `NULL`.
pub open spec fn rendered(v: Value) -> Seq<char> {
    match v {
        Value::Null => seq!['N', 'U', 'L', 'L'],
        Value::String(s) => s@,
        Value::ByteArray(b) => hex_text(b@, b@.len() as int),
        Value::Boolean(b) => if b {
            seq!['t', 'r', 'u', 'e']
        } else {
            seq!['f', 'a', 'l', 's', 'e']
        },
        Value::Scalar(Scalar::Null) => seq!['N', 'U', 'L', 'L'],
        Value::Scalar(Scalar::I64(x)) => signed_decimal(x as int),
        Value::Scalar(Scalar::U64(x)) => decimal(x as nat),
        Value::Scalar(Scalar::F64(x)) => seq!['#'] + decimal(x as nat),
    }
}

impl Scalar {
    /// Whether this is the absent value.
    pub fn is_null(&self) -> (r: bool)
        ensures
            r == (self@ is Null),
    {
        match self {
            Scalar::Null => true,
            _ => false,
        }
    }
}

impl Value {
    /// Whether this is an absent value.
    pub fn is_null(&self) -> (r: bool)
        ensures
            r == (self@ is Null),
    {
        match self {
            Value::Null => true,
            Value::Scalar(s) => s.is_null(),
            _ => false,
        }
    }

    /// A copy of this value.
    pub fn duplicate(&self) -> (r: Value)
        ensures
            r@ == self@,
    {
        match self {
            Value::Null => Value::Null,
            Value::String(s) => Value::String(s.clone()),
            Value::ByteArray(b) => Value::ByteArray(slice_to_vec(b.as_slice())),
            Value::Boolean(b) => Value::Boolean(*b),
            Value::Scalar(s) => Value::Scalar(*s),
        }
    }

    /// Writes the value out as text.
    pub fn render(&self) -> (r: String)
        ensures
            r@ == rendered(*self),
    {
        proof {
            reveal_strlit("NULL");
            reveal_strlit("true");
            reveal_strlit("false");
            reveal_strlit("#");
        }
        match self {
            Value::Null => {
                let r = "NULL".to_owned();
                assert(r@ =~= seq!['N', 'U', 'L', 'L']);
                r
            },
            Value::String(s) => s.clone(),
            Value::ByteArray(b) => {
                let mut out = String::new();
                let mut i: usize = 0;
                while i < b.len()
                    invariant
                        i <= b.len(),
                        out@ == hex_text(b@, i as int),
                    decreases b.len() - i,
                {
                    push_char(&mut out, hex_char(b[i] / 16));
                    push_char(&mut out, hex_char(b[i] % 16));
                    i += 1;
                }
                out
            },
            Value::Boolean(b) => if *b {
                let r = "true".to_owned();
                assert(r@ =~= seq!['t', 'r', 'u', 'e']);
                r
            } else {
                let r = "false".to_owned();
                assert(r@ =~= seq!['f', 'a', 'l', 's', 'e']);
                r
            },
            Value::Scalar(Scalar::Null) => {
                let r = "NULL".to_owned();
                assert(r@ =~= seq!['N', 'U', 'L', 'L']);
                r
            },
            Value::Scalar(Scalar::I64(x)) => i64_to_text(*x),
            Value::Scalar(Scalar::U64(x)) => u64_to_text(*x),
            Value::Scalar(Scalar::F64(x)) => {
                let mut r = "#".to_owned();
                assert(r@ =~= seq!['#']);
                let digits = u64_to_text(*x);
                r.append(digits.as_str());
                r
            },
        }
    }

    /// Whether two values denote the same thing.
    pub fn same(&self, other: &Value) -> (r: bool)
        ensures
            r == (self@ == other@),
    {
        match (self, other) {
            (Value::String(a), Value::String(b)) => bytes_eq(
                a.as_str().as_bytes(),
                b.as_str().as_bytes(),
            ),
            (Value::ByteArray(a), Value::ByteArray(b)) => bytes_eq(a.as_slice(), b.as_slice()),
            (Value::Boolean(a), Value::Boolean(b)) => *a == *b,
            (Value::Scalar(a), Value::Scalar(b)) => match (a, b) {
                (Scalar::Null, Scalar::Null) => true,
                (Scalar::I64(x), Scalar::I64(y)) => *x == *y,
                (Scalar::U64(x), Scalar::U64(y)) => *x == *y,
                (Scalar::F64(x), Scalar::F64(y)) => *x == *y,
                _ => false,
            },
            (Value::Null, Value::Null) => true,
            (Value::Null, Value::Scalar(s)) => s.is_null(),
            (Value::Scalar(s), Value::Null) => s.is_null(),
            _ => false,
        }
    }

    /// Whether the two values are of one kind and neither is null.
    pub fn comparable_with(&self, other: &Value) -> (r: bool)
        ensures
            r == comparable(self@, other@),
    {
        match (self, other) {
            (Value::String(_), Value::String(_)) => true,
            (Value::ByteArray(_), Value::ByteArray(_)) => true,
            (Value::Boolean(_), Value::Boolean(_)) => true,
            (Value::Scalar(a), Value::Scalar(b)) => match (a, b) {
                (Scalar::I64(_), Scalar::I64(_)) => true,
                (Scalar::U64(_), Scalar::U64(_)) => true,
                (Scalar::F64(_), Scalar::F64(_)) => true,
                _ => false,
            },
            _ => false,
        }
    }

    /// Whether this value is ordered strictly before `other`.
    pub fn lt(&self, other: &Value) -> (r: bool)
        ensures
            r == model_lt(self@, other@),
    {
        match (self, other) {
            (Value::String(a), Value::String(b)) => bytes_lt(
                a.as_str().as_bytes(),
                b.as_str().as_bytes(),
            ),
            (Value::ByteArray(a), Value::ByteArray(b)) => bytes_lt(a.as_slice(), b.as_slice()),
            (Value::Boolean(a), Value::Boolean(b)) => !*a && *b,
            (Value::Scalar(a), Value::Scalar(b)) => match (a, b) {
                (Scalar::I64(x), Scalar::I64(y)) => *x < *y,
                (Scalar::U64(x), Scalar::U64(y)) => *x < *y,
                (Scalar::F64(x), Scalar::F64(y)) => *x < *y,
                _ => false,
            },
            _ => false,
        }
    }

    /// Whether this value meets the comparison `op` against `operand`.
    pub fn satisfies(&self, op: Operator, operand: &Value) -> (r: bool)
        ensures
            r == satisfies(self@, op, operand@),
    {
        if !self.comparable_with(operand) {
            return false;
        }
        match op {
            Operator::Equal => self.same(operand),
            Operator::NotEqual => !self.same(operand),
            Operator::GT => operand.lt(self),
            Operator::GTE => !self.lt(operand),
            Operator::LT => self.lt(operand),
            Operator::LTE => !operand.lt(self),
        }
    }
}

/// What a column denotes: its values in row order and the cached range of
/// the non-null ones.
pub struct ColumnModel {
    pub values: Seq<ValueModel>,
    pub range: Option<(ValueModel, ValueModel)>,
    /// Whether the column is known to hold values of one kind only.
    pub uniform: bool,
    /// The number of values that are not null.
    pub present: nat,
}

/// The number of values among the first `n` that are not null.
pub open spec fn present_among(values: Seq<ValueModel>, n: int) -> nat
    decreases n,
{
    if n <= 0 {
        0
    } else if values[n - 1] is Null {
        present_among(values, n - 1)
    } else {
        present_among(values, n - 1) + 1
    }
}

/// Whether all values of the sequence that are not null are of one kind.
pub open spec fn homogeneous(values: Seq<ValueModel>) -> bool {
    forall|i: int, j: int|
        0 <= i < values.len() && 0 <= j < values.len() && !(#[trigger] values[i] is Null) && !(
        #[trigger] values[j] is Null) ==> comparable(values[i], values[j])
}

/// The invariant of a column: its cached range is the range of its values,
/// a column that is marked as uniform holds values of one kind only, and the
/// cached number of values that are not null is their number.
pub open spec fn column_wf(m: ColumnModel) -> bool {
    &&& range_of(m.values, m.range)
    &&& m.uniform ==> homogeneous(m.values)
    &&& m.present == present_among(m.values, m.values.len() as int)
}

/// Whether `range` is the range of `values`: absent when every value is
/// null; otherwise both ends occur among the values, no non-null value is
/// below the lower end, and none is above the upper end.
pub open spec fn range_of(values: Seq<ValueModel>, range: Option<(ValueModel, ValueModel)>) -> bool {
    match range {
        None => forall|i: int| 0 <= i < values.len() ==> values[i] is Null,
        Some((lo, hi)) => {
            &&& !(lo is Null)
            &&& !(hi is Null)
            &&& exists|i: int| 0 <= i < values.len() && values[i] == lo
            &&& exists|i: int| 0 <= i < values.len() && values[i] == hi
            &&& forall|i: int|
                0 <= i < values.len() && !(values[i] is Null) ==> !model_lt(values[i], lo)
                    && !model_lt(hi, values[i])
        },
    }
}

/// Whether some value within `range` could meet the comparison `op` against
/// `operand`, judging by the ends of the range alone.
///
/// A column without a range holds no value that meets anything. Equality
/// needs the operand within the range; `>` needs the upper end above the
/// operand and `>=` needs it not below; `<` and `<=` mirror these on the
/// lower end; `!=` is ruled out only when the range is the single value of
/// the operand. Where an end and the operand are of different kinds the ends
/// decide nothing and the answer is yes.
pub open spec fn range_could_satisfy(
    range: Option<(ValueModel, ValueModel)>,
    op: Operator,
    operand: ValueModel,
) -> bool {
    match range {
        None => false,
        Some((lo, hi)) => !(operand is Null) && match op {
            Operator::Equal => !model_lt(operand, lo) && !model_lt(hi, operand),
            Operator::NotEqual => !(lo == hi && lo == operand),
            Operator::GT => !comparable(hi, operand) || model_lt(operand, hi),
            Operator::GTE => !model_lt(hi, operand),
            Operator::LT => !comparable(lo, operand) || model_lt(lo, operand),
            Operator::LTE => !model_lt(operand, lo),
        },
    }
}

/// The view of an optional range.
pub open spec fn range_view(range: Option<(Value, Value)>) -> Option<(ValueModel, ValueModel)> {
    match range {
        Some((lo, hi)) => Some((lo@, hi@)),
        None => None,
    }
}

/// The views of a sequence of values.
pub open spec fn value_views(values: Seq<Value>) -> Seq<ValueModel> {
    values.map_values(|v: Value| v@)
}

/// A densely packed sequence of values with the range of its non-null
/// entries.
#[derive(Clone, Debug)]
pub struct Column {
    values: Vec<Value>,
    range: Option<(Value, Value)>,
    uniform: bool,
    present: usize,
}

impl View for Column {
    type V = ColumnModel;

    closed spec fn view(&self) -> ColumnModel {
        ColumnModel {
            values: value_views(self.values@),
            range: match self.range {
                Some((lo, hi)) => Some((lo@, hi@)),
                None => None,
            },
            uniform: self.uniform,
            present: self.present as nat,
        }
    }
}

impl Column {
    /// The invariant of a column.
    pub open spec fn wf(&self) -> bool {
        column_wf(self@)
    }

    /// The number of values that are not null.
    pub fn present(&self) -> (r: usize)
        ensures
            r == self@.present,
    {
        self.present
    }

    /// Whether the column is known to hold values of one kind only.
    pub fn is_uniform(&self) -> (r: bool)
        ensures
            r == self@.uniform,
    {
        self.uniform
    }

    /// A column of the given values, in order.
    pub fn new(values: Vec<Value>) -> (c: Column)
        ensures
            c.wf(),
            c@.values == value_views(values@),
            c@.uniform == homogeneous(c@.values),
    {
        let ghost vs = value_views(values@);
        let mut range: Option<(Value, Value)> = None;
        let mut uniform = true;
        let mut present: usize = 0;
        let mut i: usize = 0;
        while i < values.len()
            invariant
                i <= values.len(),
                vs == value_views(values@),
                present <= i,
                present == present_among(vs, i as int),
                uniform ==> match range_view(range) {
                    Some((lo, _)) => forall|j: int|
                        0 <= j < i && !(#[trigger] vs[j] is Null) ==> comparable(vs[j], lo),
                    None => true,
                },
                !uniform ==> exists|a: int, b: int|
                    0 <= a < i && 0 <= b < i && !(#[trigger] vs[a] is Null) && !(
                    #[trigger] vs[b] is Null) && !comparable(vs[a], vs[b]),
                range_of(
                    vs.take(i as int),
                    match range {
                        Some((lo, hi)) => Some((lo@, hi@)),
                        None => None,
                    },
                ),
            decreases values.len() - i,
        {
            let v = &values[i];
            let ghost seen = vs.take(i as int);
            let ghost next = vs.take(i + 1);
            assert(next.len() == i + 1);
            assert(next[i as int] == v@);
            assert(forall|j: int| 0 <= j < i ==> next[j] == seen[j]);
            let ghost range_before = range_view(range);
            if !v.is_null() {
                present += 1;
                match &range {
                    Some((lo, _)) => {
                        if !v.comparable_with(lo) {
                            proof {
                                let at = choose|j: int| 0 <= j < seen.len() && seen[j] == lo@;
                                assert(vs[at] == lo@);
                                assert(!(vs[i as int] is Null) && !(vs[at] is Null) && !comparable(
                                    vs[i as int],
                                    vs[at],
                                ));
                            }
                            uniform = false;
                        }
                    },
                    None => {},
                }
                range = match range {
                    None => {
                        proof {
                            lemma_lt_irreflexive(v@);
                        }
                        Some((v.duplicate(), v.duplicate()))
                    },
                    Some((lo, hi)) => {
                        let ghost lo0 = lo@;
                        let ghost hi0 = hi@;
                        let ghost witness_lo = choose|j: int| 0 <= j < seen.len() && seen[j] == lo0;
                        let ghost witness_hi = choose|j: int| 0 <= j < seen.len() && seen[j] == hi0;
                        assert(next[witness_lo] == lo0);
                        assert(next[witness_hi] == hi0);
                        let new_lo = if v.lt(&lo) {
                            proof {
                                lemma_lt_irreflexive(v@);
                                assert forall|j: int|
                                    0 <= j < i && !(next[j] is Null) implies !model_lt(
                                    next[j],
                                    v@,
                                ) by {
                                    if model_lt(next[j], v@) {
                                        lemma_lt_transitive(next[j], v@, lo0);
                                    }
                                }
                            }
                            v.duplicate()
                        } else {
                            lo
                        };
                        let new_hi = if hi.lt(v) {
                            proof {
                                lemma_lt_irreflexive(v@);
                                assert forall|j: int|
                                    0 <= j < i && !(next[j] is Null) implies !model_lt(
                                    v@,
                                    next[j],
                                ) by {
                                    if model_lt(v@, next[j]) {
                                        lemma_lt_transitive(hi0, v@, next[j]);
                                    }
                                }
                            }
                            v.duplicate()
                        } else {
                            hi
                        };
                        Some((new_lo, new_hi))
                    },
                };
            }
            proof {
                if uniform {
                    match range_view(range) {
                        Some((lo, _)) => {
                            assert forall|j: int|
                                0 <= j < i + 1 && !(#[trigger] vs[j] is Null) implies comparable(
                                vs[j],
                                lo,
                            ) by {
                                match range_before {
                                    Some((lo0, _)) => {
                                        if j < i {
                                            assert(comparable(vs[j], lo0));
                                        }
                                        if !(v@ is Null) {
                                            assert(comparable(v@, lo0));
                                        }
                                    },
                                    None => {
                                        if j < i {
                                            assert(seen[j] == vs[j]);
                                        }
                                    },
                                }
                            }
                        },
                        None => {},
                    }
                }
            }
            i += 1;
        }
        assert(vs.take(values.len() as int) =~= vs);
        proof {
            if uniform {
                match range_view(range) {
                    Some((lo, _)) => {
                        assert forall|a: int, b: int|
                            0 <= a < vs.len() && 0 <= b < vs.len() && !(#[trigger] vs[a] is Null)
                                && !(#[trigger] vs[b] is Null) implies comparable(vs[a], vs[b]) by {
                            assert(comparable(vs[a], lo));
                            assert(comparable(vs[b], lo));
                        }
                    },
                    None => {},
                }
            }
        }
        Column { values, range, uniform, present }
    }

    /// A column of signed integers, none of them null.
    pub fn from_i64(values: &[i64]) -> (c: Column)
        ensures
            c.wf(),
            c@.values == Seq::new(values@.len(), |i: int| ValueModel::I64(values@[i] as int)),
    {
        let mut out: Vec<Value> = Vec::new();
        let mut i: usize = 0;
        while i < values.len()
            invariant
                i <= values.len(),
                out@.len() == i,
                forall|j: int| 0 <= j < i ==> out@[j]@ == ValueModel::I64(values@[j] as int),
            decreases values.len() - i,
        {
            out.push(Value::Scalar(Scalar::I64(values[i])));
            i += 1;
        }
        assert(value_views(out@) =~= Seq::new(
            values@.len(),
            |i: int| ValueModel::I64(values@[i] as int),
        ));
        Column::new(out)
    }

    /// A column of unsigned integers, none of them null.
    pub fn from_u64(values: &[u64]) -> (c: Column)
        ensures
            c.wf(),
            c@.values == Seq::new(values@.len(), |i: int| ValueModel::U64(values@[i] as int)),
    {
        let mut out: Vec<Value> = Vec::new();
        let mut i: usize = 0;
        while i < values.len()
            invariant
                i <= values.len(),
                out@.len() == i,
                forall|j: int| 0 <= j < i ==> out@[j]@ == ValueModel::U64(values@[j] as int),
            decreases values.len() - i,
        {
            out.push(Value::Scalar(Scalar::U64(values[i])));
            i += 1;
        }
        assert(value_views(out@) =~= Seq::new(
            values@.len(),
            |i: int| ValueModel::U64(values@[i] as int),
        ));
        Column::new(out)
    }

    /// A column of floats given by their ordered keys, none of them null.
    pub fn from_f64_keys(values: &[u64]) -> (c: Column)
        ensures
            c.wf(),
            c@.values == Seq::new(values@.len(), |i: int| ValueModel::F64(values@[i] as int)),
    {
        let mut out: Vec<Value> = Vec::new();
        let mut i: usize = 0;
        while i < values.len()
            invariant
                i <= values.len(),
                out@.len() == i,
                forall|j: int| 0 <= j < i ==> out@[j]@ == ValueModel::F64(values@[j] as int),
            decreases values.len() - i,
        {
            out.push(Value::Scalar(Scalar::F64(values[i])));
            i += 1;
        }
        assert(value_views(out@) =~= Seq::new(
            values@.len(),
            |i: int| ValueModel::F64(values@[i] as int),
        ));
        Column::new(out)
    }

    /// A column of strings, none of them null.
    pub fn from_strs(values: &[&str]) -> (c: Column)
        ensures
            c.wf(),
            c@.values == Seq::new(
                values@.len(),
                |i: int| ValueModel::Text(vstd::utf8::encode_utf8(values@[i]@)),
            ),
    {
        let mut out: Vec<Value> = Vec::new();
        let mut i: usize = 0;
        while i < values.len()
            invariant
                i <= values.len(),
                out@.len() == i,
                forall|j: int|
                    0 <= j < i ==> out@[j]@ == ValueModel::Text(
                        vstd::utf8::encode_utf8(values@[j]@),
                    ),
            decreases values.len() - i,
        {
            out.push(Value::String(values[i].to_owned()));
            i += 1;
        }
        assert(value_views(out@) =~= Seq::new(
            values@.len(),
            |i: int| ValueModel::Text(vstd::utf8::encode_utf8(values@[i]@)),
        ));
        Column::new(out)
    }

    /// The number of values in the column.
    pub fn num_rows(&self) -> (n: usize)
        ensures
            n == self@.values.len(),
    {
        self.values.len()
    }

    /// The value at row `row`.
    pub fn value(&self, row: usize) -> (v: &Value)
        requires
            row < self@.values.len(),
        ensures
            v@ == self@.values[row as int],
    {
        &self.values[row]
    }

    /// The range of the non-null values, if there is any such value.
    pub fn range(&self) -> (r: Option<(&Value, &Value)>)
        ensures
            match r {
                Some((lo, hi)) => self@.range == Some((lo@, hi@)),
                None => self@.range is None,
            },
    {
        match &self.range {
            Some((lo, hi)) => Some((lo, hi)),
            None => None,
        }
    }

    /// Whether some value of the column could meet the comparison, judging
    /// by the column's range alone.
    pub fn could_satisfy(&self, op: Operator, operand: &Value) -> (r: bool)
        ensures
            r == range_could_satisfy(self@.range, op, operand@),
    {
        match &self.range {
            None => false,
            Some((lo, hi)) => {
                if operand.is_null() {
                    return false;
                }
                match op {
                    Operator::Equal => !operand.lt(lo) && !hi.lt(operand),
                    Operator::NotEqual => !(lo.same(hi) && lo.same(operand)),
                    Operator::GT => !hi.comparable_with(operand) || operand.lt(hi),
                    Operator::GTE => !hi.lt(operand),
                    Operator::LT => !lo.comparable_with(operand) || lo.lt(operand),
                    Operator::LTE => !operand.lt(lo),
                }
            },
        }
    }
}

/// A range test never rules out a comparison that some value of the column
/// meets.
pub proof fn lemma_range_is_conservative(
    values: Seq<ValueModel>,
    range: Option<(ValueModel, ValueModel)>,
    op: Operator,
    operand: ValueModel,
    row: int,
)
    requires
        range_of(values, range),
        0 <= row < values.len(),
        satisfies(values[row], op, operand),
    ensures
        range_could_satisfy(range, op, operand),
{
    let v = values[row];
    let (lo, hi) = range->0;
    if comparable(lo, operand) {
        lemma_lt_total(lo, operand);
        lemma_lt_total(lo, v);
    }
    if comparable(hi, operand) {
        lemma_lt_total(hi, operand);
        lemma_lt_total(hi, v);
    }
    lemma_lt_total(v, operand);
    if model_lt(operand, lo) && model_lt(lo, v) {
        lemma_lt_transitive(operand, lo, v);
    }
    if model_lt(v, hi) && model_lt(hi, operand) {
        lemma_lt_transitive(v, hi, operand);
    }
    if model_lt(operand, v) && model_lt(v, hi) {
        lemma_lt_transitive(operand, v, hi);
    }
    if model_lt(lo, v) && model_lt(v, operand) {
        lemma_lt_transitive(lo, v, operand);
    }
}

/// What an aggregate reports: a count, the value at the earliest or latest
/// timestamp together with that timestamp, an extreme value, or a sum.
#[derive(Clone, Debug, PartialEq, Eq)]
pub enum AggregateResult {
    Count(u64),
    First(Option<(i64, Value)>),
    Last(Option<(i64, Value)>),
    Min(Value),
    Max(Value),
    Sum(Scalar),
}

/// What an aggregate result denotes.
pub enum AggregateModel {
    Count(int),
    First(Option<(int, ValueModel)>),
    Last(Option<(int, ValueModel)>),
    Min(ValueModel),
    Max(ValueModel),
    Sum(ValueModel),
}

impl View for AggregateResult {
    type V = AggregateModel;

    open spec fn view(&self) -> AggregateModel {
        match self {
            AggregateResult::Count(n) => AggregateModel::Count(*n as int),
            AggregateResult::First(None) => AggregateModel::First(None),
            AggregateResult::First(Some((t, v))) => AggregateModel::First(Some((*t as int, v@))),
            AggregateResult::Last(None) => AggregateModel::Last(None),
            AggregateResult::Last(Some((t, v))) => AggregateModel::Last(Some((*t as int, v@))),
            AggregateResult::Min(v) => AggregateModel::Min(v@),
            AggregateResult::Max(v) => AggregateModel::Max(v@),
            AggregateResult::Sum(s) => AggregateModel::Sum(s@),
        }
    }
}

/// A count that stops at the greatest 64-bit value.
pub open spec fn capped_count(n: int) -> int {
    if n > u64::MAX {
        u64::MAX as int
    } else {
        n
    }
}

/// A signed sum that stops at the ends of the 64-bit range.
pub open spec fn clamped(n: int) -> int {
    if n > i64::MAX {
        i64::MAX as int
    } else if n < i64::MIN {
        i64::MIN as int
    } else {
        n
    }
}

/// The sum of two numeric values: absent values add nothing, integers of one
/// kind add up to the ends of their range, and anything else leaves the
/// first value as it is.
pub open spec fn added(a: ValueModel, b: ValueModel) -> ValueModel {
    match (a, b) {
        (ValueModel::Null, ValueModel::I64(_)) => b,
        (ValueModel::Null, ValueModel::U64(_)) => b,
        (ValueModel::I64(x), ValueModel::I64(y)) => ValueModel::I64(clamped(x + y)),
        (ValueModel::U64(x), ValueModel::U64(y)) => ValueModel::U64(capped_count(x + y)),
        _ => a,
    }
}

/// The lesser of two values; an absent value yields to the other, and of two
/// values that are not ordered the first stays.
pub open spec fn lesser(a: ValueModel, b: ValueModel) -> ValueModel {
    if b is Null {
        a
    } else if a is Null || model_lt(b, a) {
        b
    } else {
        a
    }
}

/// The greater of two values; an absent value yields to the other, and of
/// two values that are not ordered the first stays.
pub open spec fn greater(a: ValueModel, b: ValueModel) -> ValueModel {
    if b is Null {
        a
    } else if a is Null || model_lt(a, b) {
        b
    } else {
        a
    }
}

/// The aggregate of no rows.
pub open spec fn initial(kind: AggregateType) -> AggregateModel {
    match kind {
        AggregateType::Count => AggregateModel::Count(0),
        AggregateType::First => AggregateModel::First(None),
        AggregateType::Last => AggregateModel::Last(None),
        AggregateType::Min => AggregateModel::Min(ValueModel::Null),
        AggregateType::Max => AggregateModel::Max(ValueModel::Null),
        AggregateType::Sum => AggregateModel::Sum(ValueModel::Null),
    }
}

/// The aggregate `acc` after one more row with the timestamp `time` and the
/// value `v`. A count counts the non-null values; first and last keep the
/// value at the earliest and the latest timestamp, the earlier row winning a
/// tie; minimum and maximum keep the extreme non-null value; a sum adds the
/// integers.
pub open spec fn step(acc: AggregateModel, time: int, v: ValueModel) -> AggregateModel {
    match acc {
        AggregateModel::Count(n) => AggregateModel::Count(
            if v is Null {
                n
            } else {
                capped_count(n + 1)
            },
        ),
        AggregateModel::First(None) => AggregateModel::First(Some((time, v))),
        AggregateModel::First(Some((t, x))) => AggregateModel::First(
            if time < t {
                Some((time, v))
            } else {
                Some((t, x))
            },
        ),
        AggregateModel::Last(None) => AggregateModel::Last(Some((time, v))),
        AggregateModel::Last(Some((t, x))) => AggregateModel::Last(
            if time > t {
                Some((time, v))
            } else {
                Some((t, x))
            },
        ),
        AggregateModel::Min(x) => AggregateModel::Min(lesser(x, v)),
        AggregateModel::Max(x) => AggregateModel::Max(greater(x, v)),
        AggregateModel::Sum(s) => AggregateModel::Sum(added(s, v)),
    }
}

/// Two aggregates of one kind, over separate sets of rows, combined into the
/// aggregate over both: counts and sums add, minimum and maximum take the
/// extreme, first and last keep the value with the earlier and the later
/// timestamp, the first aggregate winning a tie. Aggregates of different
/// kinds do not combine; the first stays.
pub open spec fn merged(a: AggregateModel, b: AggregateModel) -> AggregateModel {
    match (a, b) {
        (AggregateModel::Count(x), AggregateModel::Count(y)) => AggregateModel::Count(
            capped_count(x + y),
        ),
        (AggregateModel::First(None), AggregateModel::First(y)) => AggregateModel::First(y),
        (AggregateModel::First(Some(x)), AggregateModel::First(Some(y))) => AggregateModel::First(
            if y.0 < x.0 {
                Some(y)
            } else {
                Some(x)
            },
        ),
        (AggregateModel::Last(None), AggregateModel::Last(y)) => AggregateModel::Last(y),
        (AggregateModel::Last(Some(x)), AggregateModel::Last(Some(y))) => AggregateModel::Last(
            if y.0 > x.0 {
                Some(y)
            } else {
                Some(x)
            },
        ),
        (AggregateModel::Min(x), AggregateModel::Min(y)) => AggregateModel::Min(lesser(x, y)),
        (AggregateModel::Max(x), AggregateModel::Max(y)) => AggregateModel::Max(greater(x, y)),
        (AggregateModel::Sum(x), AggregateModel::Sum(y)) => AggregateModel::Sum(added(x, y)),
        _ => a,
    }
}

impl Scalar {
    /// The sum of two numeric values.
    pub fn plus(&self, other: &Scalar) -> (r: Scalar)
        ensures
            r@ == added(self@, other@),
    {
        match (self, other) {
            (Scalar::Null, Scalar::I64(_)) => *other,
            (Scalar::Null, Scalar::U64(_)) => *other,
            (Scalar::I64(x), Scalar::I64(y)) => match x.checked_add(*y) {
                Some(s) => Scalar::I64(s),
                None => if *y > 0 {
                    Scalar::I64(i64::MAX)
                } else {
                    Scalar::I64(i64::MIN)
                },
            },
            (Scalar::U64(x), Scalar::U64(y)) => match x.checked_add(*y) {
                Some(s) => Scalar::U64(s),
                None => Scalar::U64(u64::MAX),
            },
            _ => *self,
        }
    }

    /// The sum of this value and a column value.
    pub fn plus_value(&self, v: &Value) -> (r: Scalar)
        ensures
            r@ == added(self@, v@),
    {
        match v {
            Value::Scalar(s) => self.plus(s),
            _ => *self,
        }
    }
}

impl Value {
    /// The lesser of two values.
    pub fn lesser_of(&self, other: &Value) -> (r: Value)
        ensures
            r@ == lesser(self@, other@),
    {
        if other.is_null() {
            self.duplicate()
        } else if self.is_null() || other.lt(self) {
            other.duplicate()
        } else {
            self.duplicate()
        }
    }

    /// The greater of two values.
    pub fn greater_of(&self, other: &Value) -> (r: Value)
        ensures
            r@ == greater(self@, other@),
    {
        if other.is_null() {
            self.duplicate()
        } else if self.is_null() || self.lt(other) {
            other.duplicate()
        } else {
            self.duplicate()
        }
    }
}

/// Adds two counts, stopping at the greatest 64-bit value.
pub fn add_counts(a: u64, b: u64) -> (r: u64)
    ensures
        r == capped_count(a + b),
{
    match a.checked_add(b) {
        Some(r) => r,
        None => u64::MAX,
    }
}

impl AggregateResult {
    /// The aggregate of no rows.
    pub fn new(kind: AggregateType) -> (r: AggregateResult)
        ensures
            r@ == initial(kind),
    {
        match kind {
            AggregateType::Count => AggregateResult::Count(0),
            AggregateType::First => AggregateResult::First(None),
            AggregateType::Last => AggregateResult::Last(None),
            AggregateType::Min => AggregateResult::Min(Value::Null),
            AggregateType::Max => AggregateResult::Max(Value::Null),
            AggregateType::Sum => AggregateResult::Sum(Scalar::Null),
        }
    }

    /// This aggregate after one more row.
    pub fn accumulate(&self, time: i64, v: &Value) -> (r: AggregateResult)
        ensures
            r@ == step(self@, time as int, v@),
    {
        match self {
            AggregateResult::Count(n) => AggregateResult::Count(
                if v.is_null() {
                    *n
                } else {
                    add_counts(*n, 1)
                },
            ),
            AggregateResult::First(None) => AggregateResult::First(Some((time, v.duplicate()))),
            AggregateResult::First(Some((t, x))) => AggregateResult::First(
                if time < *t {
                    Some((time, v.duplicate()))
                } else {
                    Some((*t, x.duplicate()))
                },
            ),
            AggregateResult::Last(None) => AggregateResult::Last(Some((time, v.duplicate()))),
            AggregateResult::Last(Some((t, x))) => AggregateResult::Last(
                if time > *t {
                    Some((time, v.duplicate()))
                } else {
                    Some((*t, x.duplicate()))
                },
            ),
            AggregateResult::Min(x) => AggregateResult::Min(x.lesser_of(v)),
            AggregateResult::Max(x) => AggregateResult::Max(x.greater_of(v)),
            AggregateResult::Sum(s) => AggregateResult::Sum(s.plus_value(v)),
        }
    }

    /// This aggregate combined with another of the same kind over other
    /// rows.
    pub fn merge(&self, other: &AggregateResult) -> (r: AggregateResult)
        ensures
            r@ == merged(self@, other@),
    {
        match (self, other) {
            (AggregateResult::Count(x), AggregateResult::Count(y)) => AggregateResult::Count(
                add_counts(*x, *y),
            ),
            (AggregateResult::First(None), AggregateResult::First(None)) => AggregateResult::First(
                None,
            ),
            (AggregateResult::First(None), AggregateResult::First(Some((t, y)))) => {
                AggregateResult::First(Some((*t, y.duplicate())))
            },
            (
                AggregateResult::First(Some((s, x))),
                AggregateResult::First(Some((t, y))),
            ) => AggregateResult::First(
                if *t < *s {
                    Some((*t, y.duplicate()))
                } else {
                    Some((*s, x.duplicate()))
                },
            ),
            (AggregateResult::Last(None), AggregateResult::Last(None)) => AggregateResult::Last(
                None,
            ),
            (AggregateResult::Last(None), AggregateResult::Last(Some((t, y)))) => {
                AggregateResult::Last(Some((*t, y.duplicate())))
            },
            (
                AggregateResult::Last(Some((s, x))),
                AggregateResult::Last(Some((t, y))),
            ) => AggregateResult::Last(
                if *t > *s {
                    Some((*t, y.duplicate()))
                } else {
                    Some((*s, x.duplicate()))
                },
            ),
            (AggregateResult::Min(x), AggregateResult::Min(y)) => AggregateResult::Min(
                x.lesser_of(y),
            ),
            (AggregateResult::Max(x), AggregateResult::Max(y)) => AggregateResult::Max(
                x.greater_of(y),
            ),
            (AggregateResult::Sum(x), AggregateResult::Sum(y)) => AggregateResult::Sum(x.plus(y)),
            _ => self.duplicate(),
        }
    }

    /// A copy of this aggregate.
    pub fn duplicate(&self) -> (r: AggregateResult)
        ensures
            r@ == self@,
    {
        match self {
            AggregateResult::Count(n) => AggregateResult::Count(*n),
            AggregateResult::First(None) => AggregateResult::First(None),
            AggregateResult::First(Some((t, x))) => AggregateResult::First(
                Some((*t, x.duplicate())),
            ),
            AggregateResult::Last(None) => AggregateResult::Last(None),
            AggregateResult::Last(Some((t, x))) => AggregateResult::Last(Some((*t, x.duplicate()))),
            AggregateResult::Min(x) => AggregateResult::Min(x.duplicate()),
            AggregateResult::Max(x) => AggregateResult::Max(x.duplicate()),
            AggregateResult::Sum(s) => AggregateResult::Sum(*s),
        }
    }
}

/// The name under which an aggregate is written out.
pub open spec fn aggregate_name(kind: AggregateType) -> Seq<char> {
    match kind {
        AggregateType::Count => seq!['c', 'o', 'u', 'n', 't'],
        AggregateType::First => seq!['f', 'i', 'r', 's', 't'],
        AggregateType::Last => seq!['l', 'a', 's', 't'],
        AggregateType::Min => seq!['m', 'i', 'n'],
        AggregateType::Max => seq!['m', 'a', 'x'],
        AggregateType::Sum => seq!['s', 'u', 'm'],
    }
}

/// How an aggregate result is written out: a count in decimal, any other
/// result as its value, and `NULL` where first or last saw no row.
pub open spec fn rendered_aggregate(a: AggregateResult) -> Seq<char> {
    match a {
        AggregateResult::Count(n) => decimal(n as nat),
        AggregateResult::First(None) => seq!['N', 'U', 'L', 'L'],
        AggregateResult::First(Some((_, v))) => rendered(v),
        AggregateResult::Last(None) => seq!['N', 'U', 'L', 'L'],
        AggregateResult::Last(Some((_, v))) => rendered(v),
        AggregateResult::Min(v) => rendered(v),
        AggregateResult::Max(v) => rendered(v),
        AggregateResult::Sum(s) => rendered(Value::Scalar(s)),
    }
}

impl AggregateType {
    /// The name under which the aggregate is written out.
    pub fn name(&self) -> (r: String)
        ensures
            r@ == aggregate_name(*self),
    {
        proof {
            reveal_strlit("count");
            reveal_strlit("first");
            reveal_strlit("last");
            reveal_strlit("min");
            reveal_strlit("max");
            reveal_strlit("sum");
        }
        match self {
            AggregateType::Count => {
                let r = "count".to_owned();
                assert(r@ =~= seq!['c', 'o', 'u', 'n', 't']);
                r
            },
            AggregateType::First => {
                let r = "first".to_owned();
                assert(r@ =~= seq!['f', 'i', 'r', 's', 't']);
                r
            },
            AggregateType::Last => {
                let r = "last".to_owned();
                assert(r@ =~= seq!['l', 'a', 's', 't']);
                r
            },
            AggregateType::Min => {
                let r = "min".to_owned();
                assert(r@ =~= seq!['m', 'i', 'n']);
                r
            },
            AggregateType::Max => {
                let r = "max".to_owned();
                assert(r@ =~= seq!['m', 'a', 'x']);
                r
            },
            AggregateType::Sum => {
                let r = "sum".to_owned();
                assert(r@ =~= seq!['s', 'u', 'm']);
                r
            },
        }
    }
}

impl AggregateResult {
    /// Writes the result out as text.
    pub fn render(&self) -> (r: String)
        ensures
            r@ == rendered_aggregate(*self),
    {
        match self {
            AggregateResult::Count(n) => u64_to_text(*n),
            AggregateResult::First(None) => Value::Null.render(),
            AggregateResult::First(Some((_, v))) => v.render(),
            AggregateResult::Last(None) => Value::Null.render(),
            AggregateResult::Last(Some((_, v))) => v.render(),
            AggregateResult::Min(v) => v.render(),
            AggregateResult::Max(v) => v.render(),
            AggregateResult::Sum(s) => Value::Scalar(*s).render(),
        }
    }
}

} // verus!
