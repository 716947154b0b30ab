use vstd::prelude::*;
use crate::dtype::{views, DataType, Value};
use crate::errors::RelationErrors;
use crate::ieee::{double_less, double_of_int, is_nan, less, nan, widen};
use crate::interface::{Aggregation, ColumnStoreRelation};

verus! {

/// The numeric values among the first `n` of a column, each as the bit
/// pattern of a double, in row order: a double as it is, an integer as the
/// double that equals it. Texts are left out.
pub open spec fn numbers(col: Seq<Value>, n: nat) -> Seq<u64>
    decreases n,
{
    if n == 0 {
        Seq::<u64>::empty()
    } else {
        match col[n - 1] {
            Value::Integer(i) => numbers(col, (n - 1) as nat).push(double_of_int(i as int)),
            Value::Float(b) => numbers(col, (n - 1) as nat).push(b),
            Value::Text(_) => numbers(col, (n - 1) as nat),
        }
    }
}

/// The lesser of two doubles in the order of all doubles. What stands for
/// no number gives way to the other.
pub open spec fn lesser(a: u64, b: u64) -> u64 {
    if is_nan(a) {
        b
    } else if is_nan(b) {
        a
    } else if double_less(b, a) {
        b
    } else {
        a
    }
}

/// The greater of two doubles in the order of all doubles. What stands for
/// no number gives way to the other.
pub open spec fn greater(a: u64, b: u64) -> u64 {
    if is_nan(a) {
        b
    } else if is_nan(b) {
        a
    } else if double_less(a, b) {
        b
    } else {
        a
    }
}

/// The least of the first `n` of some doubles, of which there is one at
/// least.
pub open spec fn least(xs: Seq<u64>, n: nat) -> u64
    decreases n,
{
    if n <= 1 {
        xs[0]
    } else {
        lesser(least(xs, (n - 1) as nat), xs[n - 1])
    }
}

/// The greatest of the first `n` of some doubles, of which there is one at
/// least.
pub open spec fn greatest(xs: Seq<u64>, n: nat) -> u64
    decreases n,
{
    if n <= 1 {
        xs[0]
    } else {
        greater(greatest(xs, (n - 1) as nat), xs[n - 1])
    }
}

/// The least of some numbers is one of them, and none of them comes before
/// it.
pub proof fn lemma_least(xs: Seq<u64>, n: nat)
    requires
        1 <= n <= xs.len(),
        forall|i: int| 0 <= i < n ==> !is_nan(#[trigger] xs[i]),
    ensures
        !is_nan(least(xs, n)),
        exists|i: int| 0 <= i < n && #[trigger] xs[i] == least(xs, n),
        forall|i: int| 0 <= i < n ==> !double_less(#[trigger] xs[i], least(xs, n)),
    decreases n,
{
    if n > 1 {
        lemma_least(xs, (n - 1) as nat);
        let before = least(xs, (n - 1) as nat);
        let i = choose|i: int| 0 <= i < n - 1 && #[trigger] xs[i] == before;
        if least(xs, n) == before {
            assert(xs[i] == least(xs, n));
        } else {
            assert(xs[n - 1] == least(xs, n));
        }
    } else {
        assert(xs[0] == least(xs, n));
    }
}

/// The greatest of some numbers is one of them, and it comes before none of
/// them.
pub proof fn lemma_greatest(xs: Seq<u64>, n: nat)
    requires
        1 <= n <= xs.len(),
        forall|i: int| 0 <= i < n ==> !is_nan(#[trigger] xs[i]),
    ensures
        !is_nan(greatest(xs, n)),
        exists|i: int| 0 <= i < n && #[trigger] xs[i] == greatest(xs, n),
        forall|i: int| 0 <= i < n ==> !double_less(greatest(xs, n), #[trigger] xs[i]),
    decreases n,
{
    if n > 1 {
        lemma_greatest(xs, (n - 1) as nat);
        let before = greatest(xs, (n - 1) as nat);
        let i = choose|i: int| 0 <= i < n - 1 && #[trigger] xs[i] == before;
        if greatest(xs, n) == before {
            assert(xs[i] == greatest(xs, n));
        } else {
            assert(xs[n - 1] == greatest(xs, n));
        }
    } else {
        assert(xs[0] == greatest(xs, n));
    }
}

/// Whether `total` is what adding up the first `n` doubles with `plus` can
/// give, starting from zero and taking them in their order.
pub open spec fn sums_to<A: Fn(u64, u64) -> u64>(plus: A, xs: Seq<u64>, n: nat, total: u64) -> bool
    decreases n,
{
    if n == 0 {
        total == 0
    } else {
        exists|before: u64|
            sums_to(plus, xs, (n - 1) as nat, before) && #[trigger] call_ensures(
                plus,
                (before, xs[n - 1]),
                total,
            )
    }
}

/// A number of rows as a 32-bit integer: the number itself where it fits,
/// which it does up to 2147483647 rows, else its low 32 bits.
pub open spec fn count_of(n: nat) -> i32 {
    (n as usize) as i32
}

/// The numeric values of a column as doubles.
pub fn numeric_entries(col: &Vec<DataType>) -> (r: Vec<u64>)
    ensures
        r@ == numbers(views(col@), col@.len()),
{
    let ghost cv = views(col@);
    let mut out: Vec<u64> = Vec::new();
    let mut i: usize = 0;
    while i < col.len()
        invariant
            i <= col.len(),
            cv == views(col@),
            out@ == numbers(cv, i as nat),
        decreases col.len() - i,
    {
        assert(cv[i as int] == col@[i as int]@);
        match &col[i] {
            DataType::Int(v) => {
                out.push(widen(*v));
            },
            DataType::Float(b) => {
                out.push(*b);
            },
            DataType::String(_) => {},
        }
        i += 1;
    }
    out
}

/// The least of some doubles.
fn least_of(xs: &Vec<u64>) -> (r: u64)
    requires
        xs@.len() > 0,
    ensures
        r == least(xs@, xs@.len()),
{
    let mut best = xs[0];
    let mut i: usize = 1;
    while i < xs.len()
        invariant
            1 <= i <= xs.len(),
            best == least(xs@, i as nat),
        decreases xs.len() - i,
    {
        let x = xs[i];
        if nan(best) {
            best = x;
        } else if !nan(x) && less(x, best) {
            best = x;
        }
        i += 1;
    }
    best
}

/// The greatest of some doubles.
fn greatest_of(xs: &Vec<u64>) -> (r: u64)
    requires
        xs@.len() > 0,
    ensures
        r == greatest(xs@, xs@.len()),
{
    let mut best = xs[0];
    let mut i: usize = 1;
    while i < xs.len()
        invariant
            1 <= i <= xs.len(),
            best == greatest(xs@, i as nat),
        decreases xs.len() - i,
    {
        let x = xs[i];
        if nan(best) {
            best = x;
        } else if !nan(x) && less(best, x) {
            best = x;
        }
        i += 1;
    }
    best
}

/// What `plus` makes of some doubles from zero on, in their order.
fn sum_of<A: Fn(u64, u64) -> u64>(xs: &Vec<u64>, plus: &A) -> (r: u64)
    requires
        forall|x: u64, y: u64| call_requires(*plus, (x, y)),
    ensures
        sums_to(*plus, xs@, xs@.len(), r),
{
    let mut total: u64 = 0;
    let mut i: usize = 0;
    while i < xs.len()
        invariant
            i <= xs.len(),
            forall|x: u64, y: u64| call_requires(*plus, (x, y)),
            sums_to(*plus, xs@, i as nat, total),
        decreases xs.len() - i,
    {
        let ghost before = total;
        total = plus(total, xs[i]);
        proof {
            assert(sums_to(*plus, xs@, i as nat, before));
            assert(call_ensures(*plus, (before, xs@[(i + 1) - 1]), total));
            assert(sums_to(*plus, xs@, (i + 1) as nat, total));
        }
        i += 1;
    }
    total
}

/// What reducing column `column` of the relation `rel` gives.
pub open spec fn aggregates<A: Fn(u64, u64) -> u64, D: Fn(u64, usize) -> u64>(
    plus: A,
    divide: D,
    rel: ColumnStoreRelation,
    column: Seq<char>,
    aggregation: Aggregation,
    r: Result<DataType, RelationErrors>,
) -> bool {
    match r {
        Ok(v) => rel.columns@.contains_key(column) && ({
            let col = rel@.columns[column];
            let xs = numbers(col, col.len());
            match aggregation {
                Aggregation::Count => v@ == Value::Integer(count_of(col.len())),
                Aggregation::Sum => xs.len() > 0 && exists|total: u64|
                    #[trigger] sums_to(plus, xs, xs.len(), total) && v@ == Value::Float(total),
                Aggregation::Min => xs.len() > 0 && v@ == Value::Float(least(xs, xs.len())),
                Aggregation::Max => xs.len() > 0 && v@ == Value::Float(greatest(xs, xs.len())),
                Aggregation::Average => xs.len() > 0 && exists|total: u64, mean: u64|
                    #[trigger] sums_to(plus, xs, xs.len(), total) && #[trigger] call_ensures(
                        divide,
                        (total, xs.len() as usize),
                        mean,
                    ) && v@ == Value::Float(mean),
            }
        }),
        Err(RelationErrors::ColumnNotFound(s)) => !rel.columns@.contains_key(column)
            && s@ == column,
        Err(RelationErrors::AggregationError(s)) => s@
            == "Aggregation over a column without numeric values"@ && rel.columns@.contains_key(column)
            && !(aggregation is Count) && numbers(
            rel@.columns[column],
            rel@.columns[column].len(),
        ).len() == 0,
        Err(_) => false,
    }
}

impl ColumnStoreRelation {
    /// Reduces column `column_name` to one value. `Count` gives the number
    /// of rows as a 32-bit integer. The others go over the numeric values of the
    /// column, each integer widened to the double that equals it, and give a
    /// double: `Sum` what `plus` makes of them from zero on, in row order;
    /// `Min` and `Max` the least and the greatest, a NaN giving way to any
    /// other; `Average` what `divide` makes of the sum and their number.
    /// `plus` adds two doubles and `divide` divides a double by a count,
    /// doubles being given and taken as bit patterns. Fails with
    /// `ColumnNotFound` exactly where the column is not stored, and with
    /// `AggregationError` exactly where it is stored, the reduction is not
    /// `Count`, and the column has no numeric value.
    pub fn aggr<A: Fn(u64, u64) -> u64, D: Fn(u64, usize) -> u64>(
        &self,
        column_name: &str,
        aggregation: Aggregation,
        plus: A,
        divide: D,
    ) -> (r: Result<DataType, RelationErrors>)
        requires
            forall|x: u64, y: u64| call_requires(plus, (x, y)),
            forall|x: u64, n: usize| call_requires(divide, (x, n)),
        ensures
            aggregates(plus, divide, *self, column_name@, aggregation, r),
    {
        let col = match self.columns.get(column_name) {
            Some(col) => col,
            None => {
                return Err(RelationErrors::ColumnNotFound(column_name.to_string()));
            },
        };
        assert(self@.columns[column_name@] == views(col@));
        assert(views(col@).len() == col@.len());
        if let Aggregation::Count = aggregation {
            let n = col.len();
            let count = #[verifier::truncate] (n as i32);
            assert(count == count_of(self@.columns[column_name@].len()));
            return Ok(DataType::Int(count));
        }
        let xs = numeric_entries(col);
        if xs.len() == 0 {
            return Err(
                RelationErrors::AggregationError(
                    "Aggregation over a column without numeric values".to_string(),
                ),
            );
        }
        proof {
            assert(xs@ == numbers(self@.columns[column_name@], self@.columns[column_name@].len()));
        }
        match aggregation {
            Aggregation::Count => {
                let n = col.len();
                let count = #[verifier::truncate] (n as i32);
                assert(count == count_of(self@.columns[column_name@].len()));
                Ok(DataType::Int(count))
            },
            Aggregation::Sum => {
                let total = sum_of(&xs, &plus);
                assert(sums_to(plus, xs@, xs@.len(), total));
                Ok(DataType::Float(total))
            },
            Aggregation::Min => Ok(DataType::Float(least_of(&xs))),
            Aggregation::Max => Ok(DataType::Float(greatest_of(&xs))),
            Aggregation::Average => {
                let total = sum_of(&xs, &plus);
                let count = xs.len();
                let mean = divide(total, count);
                assert(sums_to(plus, xs@, xs@.len(), total));
                assert(count == xs@.len() as usize);
                assert(call_ensures(divide, (total, xs@.len() as usize), mean));
                Ok(DataType::Float(mean))
            },
        }
    }
}

} // verus!
