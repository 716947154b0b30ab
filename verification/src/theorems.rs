use vstd::prelude::*;
use vstd::multiset::group_multiset_axioms;
use vstd::seq_lib::{lemma_multiset_commutative, to_multiset_build};
use crate::dtype::{
    lemma_value_less_asymmetric, lemma_value_less_total, lemma_value_less_transitive, reads_as,
    value_less, value_text, views, DataType, Value,
};
use crate::index::{
    chosen, chosen_by, chosen_mask, index_of_column, index_select_of, lemma_positions_agree, listed,
    looked_up, looks_up, rows_with, told, told_of,
};
use crate::interface::{ColumnStoreRelation, Table};
use crate::join::{
    answered, ascends, column_pairs, hash_joins, hash_pairs, hit, joined, left_part, merge_asks,
    merge_joins, merge_pairs, nested_joins, nested_pairs, right_part, row_pairs, run_end, run_pairs,
    without,
};
use crate::relation::{
    agrees, delete_of, deletes, kept_columns, lemma_positions, marked, moved_index, moved_rows, pick,
    positions, rank, select_of, selects, wanted,
};
use crate::sort::{is_permutation, rows_of, sorted_to, stable_order};
use crate::text::{
    digit_char, digit_value, digits_of, digits_value, int_text, is_space, lemma_lead, lemma_trail,
    parse_i32, trimmed,
};

verus! {

/// Whether every stored column has `n` rows.
pub open spec fn has_rows(cols: Map<Seq<char>, Seq<Value>>, n: nat) -> bool {
    forall|c: Seq<char>| cols.contains_key(c) ==> (#[trigger] cols[c]).len() == n
}

/// Whether what `f` answers depends on nothing but the value it is asked
/// about.
pub open spec fn decides<F: Fn(&DataType) -> bool>(f: F) -> bool {
    forall|a: &DataType, b: &DataType, x: bool, y: bool|
        a@ == b@ && #[trigger] call_ensures(f, (a,), x) && #[trigger] call_ensures(f, (b,), y) ==> x
            == y
}

/// The rows `0 .. n`, in order.
pub open spec fn all_rows(n: nat) -> Seq<int> {
    Seq::new(n, |i: int| i)
}

/// The wanted rows below a bound are among the wanted rows below a larger
/// bound, and a mask marks no row beyond its end.
pub proof fn lemma_positions_grow(a: nat, b: nat, mask: Seq<bool>)
    requires
        a <= b,
    ensures
        positions(a, mask, true).len() <= positions(b, mask, true).len(),
        positions(b, mask, true).len() <= marked(mask) || b <= mask.len(),
        b >= mask.len() ==> positions(b, mask, true).len() == marked(mask),
    decreases b,
{
    if a < b {
        lemma_positions_grow(a, (b - 1) as nat, mask);
    }
    if b > mask.len() {
        lemma_positions_grow(mask.len(), (b - 1) as nat, mask);
    }
}

/// However many rows a column has, a mask marks at most `marked(mask)` of
/// them.
pub proof fn lemma_positions_bound(n: nat, mask: Seq<bool>)
    ensures
        positions(n, mask, true).len() <= marked(mask),
{
    if n <= mask.len() {
        lemma_positions_grow(n, mask.len(), mask);
    } else {
        lemma_positions_grow(mask.len(), n, mask);
    }
}

/// A mask that marks each of the first `n` rows wants exactly those rows.
pub proof fn lemma_positions_all(n: nat, mask: Seq<bool>)
    requires
        n <= mask.len(),
        forall|i: int| 0 <= i < n ==> mask[i],
    ensures
        positions(n, mask, true) == all_rows(n),
    decreases n,
{
    if n > 0 {
        lemma_positions_all((n - 1) as nat, mask);
        assert(positions(n, mask, true) =~= all_rows(n));
    } else {
        assert(positions(n, mask, true) =~= all_rows(n));
    }
}

/// Every row of a moved index entry is below the number of marked rows.
pub proof fn lemma_moved_rows_bound(rows: Seq<usize>, mask: Seq<bool>)
    ensures
        forall|k: int|
            0 <= k < moved_rows(rows, mask).len() ==> (#[trigger] moved_rows(rows, mask)[k]) < marked(
                mask,
            ),
    decreases rows.len(),
{
    if rows.len() > 0 {
        lemma_moved_rows_bound(rows.drop_last(), mask);
        let r = rows.last() as int;
        let before = moved_rows(rows.drop_last(), mask);
        let now = moved_rows(rows, mask);
        if wanted(mask, true, r) {
            lemma_positions_grow((r + 1) as nat, mask.len(), mask);
            lemma_positions(r as nat, mask, true);
            assert(positions((r + 1) as nat, mask, true).len() == rank(mask, r) + 1);
            assert(rank(mask, r) < marked(mask));
            assert(0 <= rank(mask, r) <= r);
            assert(now == before.push(rank(mask, r) as usize));
        } else {
            assert(now == before);
        }
        assert forall|k: int| 0 <= k < now.len() implies (#[trigger] now[k]) < marked(mask) by {
            if k < before.len() {
                assert(now[k] == before[k]);
            }
        }
    }
}

/// Under a mask that marks every row, an index entry whose rows are all
/// below the end of the mask stays as it is.
pub proof fn lemma_moved_rows_all(rows: Seq<usize>, mask: Seq<bool>)
    requires
        forall|i: int| 0 <= i < mask.len() ==> mask[i],
        forall|k: int| 0 <= k < rows.len() ==> (#[trigger] rows[k]) < mask.len(),
    ensures
        moved_rows(rows, mask) == rows,
    decreases rows.len(),
{
    if rows.len() > 0 {
        lemma_moved_rows_all(rows.drop_last(), mask);
        let r = rows.last();
        lemma_positions_all(r as nat, mask);
        assert(rank(mask, r as int) == r);
        assert(moved_rows(rows, mask) =~= rows);
    } else {
        assert(moved_rows(rows, mask) =~= rows);
    }
}

/// Selecting twice is selecting once. Where a predicate whose answer depends
/// on the value alone selects `once` from `before`, and then selects `twice`
/// from `once` by the same column, `twice` is the relation `once`: every row
/// that the first selection kept satisfies the predicate, so the second keeps
/// them all.
pub proof fn lemma_select_twice<F: Fn(&DataType) -> bool>(
    predicate: F,
    before: ColumnStoreRelation,
    once: ColumnStoreRelation,
    twice: ColumnStoreRelation,
    column: Seq<char>,
)
    requires
        decides(predicate),
        selects(predicate, before, column, Ok(once)),
        selects(predicate, once, column, Ok(twice)),
    ensures
        twice@ == once@,
{
    let first = choose|answers: Seq<bool>|
        #[trigger] agrees(predicate, before.columns@[column]@, answers) && once@ == select_of(
            before@,
            answers,
        );
    let second = choose|answers: Seq<bool>|
        #[trigger] agrees(predicate, once.columns@[column]@, answers) && twice@ == select_of(
            once@,
            answers,
        );
    assert(before@.columns.contains_key(column));
    assert(once@.columns.contains_key(column));
    assert(once.columns@.contains_key(column));
    let col0 = before.columns@[column]@;
    let col1 = once.columns@[column]@;
    let at = positions(col0.len(), first, true);
    lemma_positions(col0.len(), first, true);
    assert(views(col1) == once@.columns[column]);
    assert(views(col0) == before@.columns[column]);
    assert(views(col1) == pick(views(col0), at));
    assert(second.len() == marked(first));
    assert forall|j: int| 0 <= j < second.len() implies second[j] by {
        let p = at[j];
        assert(wanted(first, true, p));
        assert(call_ensures(predicate, (&col0[p],), first[p]));
        assert(call_ensures(predicate, (&col1[j],), second[j]));
        assert(views(col1)[j] == views(col0)[p]);
        assert(col1[j]@ == col0[p]@);
    }
    assert forall|c: Seq<char>| once@.columns.contains_key(c) implies #[trigger] twice@.columns[c]
        == once@.columns[c] by {
        let held = once@.columns[c];
        lemma_positions_bound(before@.columns[c].len(), first);
        lemma_positions_all(held.len(), second);
        assert(pick(held, all_rows(held.len())) =~= held);
    }
    assert(twice@.columns =~= once@.columns);
    assert forall|x: Seq<char>| once@.indices.contains_key(x) implies #[trigger] twice@.indices[x]
        == once@.indices[x] by {
        let ix0 = before@.indices[x];
        let ix1 = once@.indices[x];
        assert(ix1 == moved_index(ix0, first));
        assert forall|k: Seq<char>| ix1.contains_key(k) implies moved_rows(#[trigger] ix1[k], second)
            == ix1[k] by {
            lemma_moved_rows_bound(ix0[k], first);
            lemma_moved_rows_all(ix1[k], second);
        }
        assert(moved_index(ix1, second) =~= ix1);
    }
    assert(twice@.indices =~= once@.indices);
}

/// A selection and a deletion keep whole rows. In a relation whose columns
/// all have `n` rows, every column of the result holds its values at one and
/// the same list of rows, so row `k` of the result is, in every column, what
/// row `positions(n, mask, flag)[k]` was.
pub proof fn lemma_rows_kept_together(t: Table, mask: Seq<bool>, n: nat)
    requires
        has_rows(t.columns, n),
    ensures
        select_of(t, mask).columns == rows_of(t, positions(n, mask, true)).columns,
        delete_of(t, mask) == rows_of(t, positions(n, mask, false)),
        forall|c: Seq<char>, k: int|
            t.columns.contains_key(c) && 0 <= k < positions(n, mask, true).len()
                ==> #[trigger] select_of(t, mask).columns[c][k] == t.columns[c][positions(
                n,
                mask,
                true,
            )[k]],
        forall|c: Seq<char>, k: int|
            t.columns.contains_key(c) && 0 <= k < positions(n, mask, false).len()
                ==> #[trigger] delete_of(t, mask).columns[c][k] == t.columns[c][positions(
                n,
                mask,
                false,
            )[k]],
{
    assert(kept_columns(t.columns, mask, true) =~= rows_of(t, positions(n, mask, true)).columns);
    assert(kept_columns(t.columns, mask, false) =~= rows_of(t, positions(n, mask, false)).columns);
}

/// A reordering moves whole rows: row `k` of the result is, in every column,
/// what row `p[k]` was.
pub proof fn lemma_rows_moved_together(t: Table, p: Seq<int>)
    ensures
        forall|c: Seq<char>, k: int|
            t.columns.contains_key(c) && 0 <= k < p.len() ==> #[trigger] rows_of(t, p).columns[c][k]
                == t.columns[c][p[k]],
{
}

/// Whether `after` holds the rows `src` of `before`, row `k` of every column
/// of `after` being what row `src[k]` of that column was, and whether each of
/// these is one of the first `n` rows.
pub open spec fn holds_rows(before: Table, after: Table, src: Seq<int>, n: nat) -> bool {
    &&& after.columns == rows_of(before, src).columns
    &&& forall|k: int| 0 <= k < src.len() ==> 0 <= #[trigger] src[k] < n
}

/// A selection keeps whole rows. In a relation whose columns all have `n`
/// rows, what `select` gives holds, in every column, the values of one and
/// the same list of rows.
pub proof fn lemma_select_keeps_rows_whole<F: Fn(&DataType) -> bool>(
    predicate: F,
    before: ColumnStoreRelation,
    after: ColumnStoreRelation,
    column: Seq<char>,
    n: nat,
)
    requires
        has_rows(before@.columns, n),
        selects(predicate, before, column, Ok(after)),
    ensures
        exists|src: Seq<int>| #[trigger] holds_rows(before@, after@, src, n),
{
    let answers = choose|answers: Seq<bool>|
        #[trigger] agrees(predicate, before.columns@[column]@, answers) && after@ == select_of(
            before@,
            answers,
        );
    lemma_rows_kept_together(before@, answers, n);
    lemma_positions(n, answers, true);
    assert(holds_rows(before@, after@, positions(n, answers, true), n));
}

/// A deletion keeps whole rows. In a relation whose columns all have `n`
/// rows, what `delete_tuple` leaves holds, in every column, the values of one
/// and the same list of rows.
pub proof fn lemma_delete_keeps_rows_whole<F: Fn(&DataType) -> bool>(
    predicate: F,
    before: ColumnStoreRelation,
    after: ColumnStoreRelation,
    column: Seq<char>,
    count: usize,
    n: nat,
)
    requires
        has_rows(before@.columns, n),
        deletes(predicate, before, after, column, Ok(count)),
    ensures
        exists|src: Seq<int>| #[trigger] holds_rows(before@, after@, src, n),
{
    let answers = choose|answers: Seq<bool>|
        #[trigger] agrees(predicate, before.columns@[column]@, answers) && after@ == delete_of(
            before@,
            answers,
        ) && count == marked(answers);
    lemma_rows_kept_together(before@, answers, n);
    lemma_positions(n, answers, false);
    assert(holds_rows(before@, after@, positions(n, answers, false), n));
}

/// A sort keeps whole rows. What `sort` leaves holds, in every column, the
/// values of one and the same list of rows, and that list holds each row of
/// the column sorted by once.
pub proof fn lemma_sort_keeps_rows_whole(
    before: ColumnStoreRelation,
    after: ColumnStoreRelation,
    column: Seq<char>,
    descending: bool,
)
    requires
        sorted_to(before, after, column, descending, Ok(())),
    ensures
        exists|src: Seq<int>|
            #[trigger] holds_rows(before@, after@, src, before@.columns[column].len())
                && is_permutation(src, before@.columns[column].len()),
{
    let keys = before@.columns[column];
    let p = stable_order(keys, keys.len(), descending);
    assert(holds_rows(before@, after@, p, keys.len()));
}

/// How often the pair `x` occurs in `s`.
pub open spec fn times(s: Seq<(int, int)>, x: (int, int)) -> nat {
    s.to_multiset().count(x)
}

/// Nothing occurs in the empty sequence, and a pair occurs in a sequence
/// with one pair more as often as before, and once more where it is that
/// pair.
pub proof fn lemma_times_push(s: Seq<(int, int)>, y: (int, int), x: (int, int))
    ensures
        times(Seq::<(int, int)>::empty(), x) == 0,
        times(s.push(y), x) == times(s, x) + (if x == y {
            1nat
        } else {
            0nat
        }),
{
    broadcast use group_multiset_axioms;

    to_multiset_build(s, y);
    vstd::seq_lib::to_multiset_contains(Seq::<(int, int)>::empty(), x);
}

/// A pair occurs in two sequences put together as often as in both.
pub proof fn lemma_times_add(a: Seq<(int, int)>, b: Seq<(int, int)>, x: (int, int))
    ensures
        times(a + b, x) == times(a, x) + times(b, x),
{
    broadcast use group_multiset_axioms;

    lemma_multiset_commutative(a, b);
}

/// Whether `x` is a pair of a left row from `from` on and a right row that
/// hold the same value.
pub open spec fn is_match(l: Seq<Value>, r: Seq<Value>, from: int, x: (int, int)) -> bool {
    from <= x.0 < l.len() && 0 <= x.1 < r.len() && l[x.0] == r[x.1]
}

/// One where the condition holds, else zero.
pub open spec fn one_if(b: bool) -> nat {
    if b {
        1
    } else {
        0
    }
}

/// Whether the predicate was told to hold of exactly the pairs of rows with
/// equal values.
pub open spec fn tells_equality(l: Seq<Value>, r: Seq<Value>, answers: Map<(int, int), bool>) -> bool {
    forall|a: int, b: int|
        0 <= a < l.len() && 0 <= b < r.len() ==> #[trigger] hit(answers, a, b) == (l[a] == r[b])
}

/// Whether the predicate was told to hold of every pair of rows with equal
/// values.
pub open spec fn holds_of_equals(l: Seq<Value>, r: Seq<Value>, answers: Map<(int, int), bool>) -> bool {
    forall|a: int, b: int|
        0 <= a < l.len() && 0 <= b < r.len() && l[a] == r[b] ==> #[trigger] hit(answers, a, b)
}

/// Whether, of the pairs of rows `asked`, the predicate was told to hold of
/// exactly those with equal values.
pub open spec fn equal_where_asked(
    l: Seq<Value>,
    r: Seq<Value>,
    answers: Map<(int, int), bool>,
    asked: Seq<(int, int)>,
) -> bool {
    forall|k: int|
        0 <= k < asked.len() ==> hit(answers, (#[trigger] asked[k]).0, asked[k].1) == (l[asked[k].0]
            == r[asked[k].1])
}

/// Whether a predicate on two values holds of exactly the pairs of equal
/// values.
pub open spec fn is_equality<F: Fn(&DataType, &DataType) -> bool>(f: F) -> bool {
    forall|a: &DataType, b: &DataType, x: bool| #[trigger] call_ensures(f, (a, b), x) ==> x == (a@ == b@)
}

/// What a join holds for one matched pair of rows: in each column of the
/// join what the left row gives to it and then what the right row gives.
pub open spec fn joined_row(l: Table, r: Table, s_col: Seq<char>, pair: (int, int)) -> Map<
    Seq<char>,
    Seq<Value>,
> {
    Map::new(
        |k: Seq<char>| (l.display + without(r.display, s_col)).contains(k),
        |k: Seq<char>| left_part(l.columns, k, pair.0) + right_part(r.columns, s_col, k, pair.1),
    )
}

/// What a join holds for each of its matched pairs, in their order.
pub open spec fn joined_rows(l: Table, r: Table, s_col: Seq<char>, pairs: Seq<(int, int)>) -> Seq<
    Map<Seq<char>, Seq<Value>>,
>
    decreases pairs.len(),
{
    if pairs.len() == 0 {
        Seq::<Map<Seq<char>, Seq<Value>>>::empty()
    } else {
        joined_rows(l, r, s_col, pairs.drop_last()).push(joined_row(l, r, s_col, pairs.last()))
    }
}

/// A pair occurs once among the matched pairs of its left row where the
/// predicate holds of it, and else not.
proof fn lemma_row_pairs_times(answers: Map<(int, int), bool>, i: int, m: nat, x: (int, int))
    ensures
        times(row_pairs(answers, i, m), x) == one_if(x.0 == i && 0 <= x.1 < m && hit(answers, i, x.1)),
    decreases m,
{
    if m == 0 {
        lemma_times_push(Seq::empty(), x, x);
    } else {
        lemma_row_pairs_times(answers, i, (m - 1) as nat, x);
        lemma_times_push(row_pairs(answers, i, (m - 1) as nat), (i, m - 1), x);
    }
}

/// A pair occurs once in a nested-loop join where the predicate holds of
/// it, and else not.
proof fn lemma_nested_pairs_times(answers: Map<(int, int), bool>, n: nat, m: nat, x: (int, int))
    ensures
        times(nested_pairs(answers, n, m), x) == one_if(
            0 <= x.0 < n && 0 <= x.1 < m && hit(answers, x.0, x.1),
        ),
    decreases n,
{
    if n == 0 {
        lemma_times_push(Seq::empty(), x, x);
    } else {
        lemma_nested_pairs_times(answers, (n - 1) as nat, m, x);
        lemma_row_pairs_times(answers, n - 1, m, x);
        lemma_times_add(nested_pairs(answers, (n - 1) as nat, m), row_pairs(answers, n - 1, m), x);
    }
}

/// A pair occurs once among the matched pairs of its right row where its
/// values are equal and the predicate holds of it, and else not.
proof fn lemma_column_pairs_times(
    l: Seq<Value>,
    v: Value,
    answers: Map<(int, int), bool>,
    j: int,
    n: nat,
    x: (int, int),
)
    ensures
        times(column_pairs(l, v, answers, j, n), x) == one_if(
            x.1 == j && 0 <= x.0 < n && l[x.0] == v && hit(answers, x.0, j),
        ),
    decreases n,
{
    if n == 0 {
        lemma_times_push(Seq::empty(), x, x);
    } else {
        lemma_column_pairs_times(l, v, answers, j, (n - 1) as nat, x);
        lemma_times_push(column_pairs(l, v, answers, j, (n - 1) as nat), (n - 1, j), x);
    }
}

/// A pair occurs once in a hash join where its values are equal and the
/// predicate holds of it, and else not.
proof fn lemma_hash_pairs_times(
    l: Seq<Value>,
    r: Seq<Value>,
    answers: Map<(int, int), bool>,
    m: nat,
    x: (int, int),
)
    ensures
        times(hash_pairs(l, r, answers, m), x) == one_if(
            0 <= x.1 < m && 0 <= x.0 < l.len() && l[x.0] == r[x.1] && hit(answers, x.0, x.1),
        ),
    decreases m,
{
    if m == 0 {
        lemma_times_push(Seq::empty(), x, x);
    } else {
        lemma_hash_pairs_times(l, r, answers, (m - 1) as nat, x);
        lemma_column_pairs_times(l, r[m - 1], answers, m - 1, l.len(), x);
        lemma_times_add(
            hash_pairs(l, r, answers, (m - 1) as nat),
            column_pairs(l, r[m - 1], answers, m - 1, l.len()),
            x,
        );
    }
}

/// A pair occurs once in a run where it is one of its pairs, and else not.
proof fn lemma_run_pairs_times(i: int, j: int, count: nat, x: (int, int))
    ensures
        times(run_pairs(i, j, count as int), x) == one_if(x.0 == i && j <= x.1 < j + count),
    decreases count,
{
    if count == 0 {
        lemma_times_push(Seq::empty(), x, x);
        assert(run_pairs(i, j, 0) =~= Seq::<(int, int)>::empty());
    } else {
        lemma_run_pairs_times(i, j, (count - 1) as nat, x);
        assert(run_pairs(i, j, count as int) =~= run_pairs(i, j, count - 1).push((i, j + count - 1)));
        lemma_times_push(run_pairs(i, j, count - 1), (i, j + count - 1), x);
    }
}

/// In an ascending column no value is less than an earlier one.
proof fn lemma_ascends_throughout(col: Seq<Value>, a: int, b: int)
    requires
        ascends(col),
        0 <= a <= b < col.len(),
    ensures
        !value_less(col[b], col[a]),
    decreases b - a,
{
    if a < b {
        lemma_ascends_throughout(col, a, b - 1);
        assert(!value_less(col[b], col[b - 1]));
        lemma_value_less_total(col[a], col[b - 1]);
        lemma_value_less_total(col[b - 1], col[b]);
        if value_less(col[b], col[a]) {
            if col[a] == col[b - 1] {
            } else if col[b - 1] == col[b] {
            } else {
                lemma_value_less_transitive(col[a], col[b - 1], col[b]);
                lemma_value_less_asymmetric(col[a], col[b]);
            }
        }
    } else {
        if value_less(col[b], col[a]) {
            lemma_value_less_asymmetric(col[b], col[a]);
        }
    }
}

/// A value less than one that is not greater than a third is less than the
/// third.
proof fn lemma_less_then_not_greater(x: Value, y: Value, z: Value)
    requires
        value_less(x, y),
        !value_less(z, y),
    ensures
        value_less(x, z),
        x != z,
{
    lemma_value_less_total(y, z);
    if y != z {
        lemma_value_less_transitive(x, y, z);
    }
    lemma_value_less_asymmetric(x, z);
}

/// The run of a row ends behind it, holds one value throughout and stops at
/// the first other value.
proof fn lemma_run(r: Seq<Value>, j: int, k: int)
    requires
        0 <= j <= k <= r.len(),
        j < r.len(),
    ensures
        k <= run_end(r, j, k) <= r.len(),
        forall|t: int| k <= t < run_end(r, j, k) ==> r[t] == r[j],
        run_end(r, j, k) == r.len() || r[run_end(r, j, k)] != r[j],
        k == j ==> run_end(r, j, k) > j,
    decreases r.len() - k,
{
    if k < r.len() && r[k] == r[j] {
        lemma_run(r, j, k + 1);
    }
}

/// From cursors before which no right value can match a left value that is
/// still to come, a merge join with equality as its predicate matches each
/// pair of equal values once.
proof fn lemma_merge_pairs_times(
    l: Seq<Value>,
    r: Seq<Value>,
    answers: Map<(int, int), bool>,
    i: int,
    j: int,
    x: (int, int),
)
    requires
        ascends(l),
        ascends(r),
        equal_where_asked(l, r, answers, merge_asks(l, r, answers, i, j)),
        0 <= i <= l.len(),
        0 <= j <= r.len(),
        i < l.len() ==> forall|b: int| 0 <= b < j ==> value_less(#[trigger] r[b], l[i]),
    ensures
        times(merge_pairs(l, r, answers, i, j), x) == one_if(is_match(l, r, i, x)),
    decreases l.len() - i + r.len() - j,
{
    let n = l.len() as int;
    let m = r.len() as int;
    let asked = merge_asks(l, r, answers, i, j);
    if i < n && j < m {
        assert(asked[0] == (i, j));
        let next = if hit(answers, i, j) || value_less(l[i], r[j]) {
            merge_asks(l, r, answers, i + 1, j)
        } else {
            merge_asks(l, r, answers, i, j + 1)
        };
        assert(asked =~= seq![(i, j)] + next);
        assert forall|k: int| 0 <= k < next.len() implies hit(answers, (#[trigger] next[k]).0, next[k].1)
            == (l[next[k].0] == r[next[k].1]) by {
            assert(asked[k + 1] == next[k]);
        }
    }
    if i >= n {
        lemma_times_push(Seq::empty(), x, x);
    } else if j >= m {
        lemma_times_push(Seq::empty(), x, x);
        if is_match(l, r, i, x) {
            lemma_ascends_throughout(l, i, x.0);
            assert(value_less(r[x.1], l[i]));
            lemma_value_less_total(l[i], l[x.0]);
            lemma_less_then_not_greater(r[x.1], l[i], l[x.0]);
        }
    } else {
        assert(hit(answers, i, j) == (l[i] == r[j]));
        lemma_value_less_total(l[i], r[j]);
        if i + 1 < n {
            assert(!value_less(l[i + 1], l[i]));
            lemma_value_less_total(l[i], l[i + 1]);
        }
        if hit(answers, i, j) {
            let e = run_end(r, j, j);
            lemma_run(r, j, j);
            assert forall|b: int| 0 <= b < j && i + 1 < n implies value_less(
                #[trigger] r[b],
                l[i + 1],
            ) by {
                lemma_less_then_not_greater(r[b], l[i], l[i + 1]);
            }
            lemma_merge_pairs_times(l, r, answers, i + 1, j, x);
            lemma_run_pairs_times(i, j, (e - j) as nat, x);
            lemma_times_add(run_pairs(i, j, e - j), merge_pairs(l, r, answers, i + 1, j), x);
            if x.0 == i && 0 <= x.1 < m {
                if x.1 < j {
                    lemma_value_less_asymmetric(r[x.1], l[i]);
                } else if x.1 >= e {
                    lemma_ascends_throughout(r, j, e);
                    lemma_value_less_total(r[j], r[e]);
                    lemma_ascends_throughout(r, e, x.1);
                    lemma_value_less_total(r[e], r[x.1]);
                    lemma_less_then_not_greater(r[j], r[e], r[x.1]);
                }
            }
        } else if value_less(l[i], r[j]) {
            assert forall|b: int| 0 <= b < j && i + 1 < n implies value_less(
                #[trigger] r[b],
                l[i + 1],
            ) by {
                lemma_less_then_not_greater(r[b], l[i], l[i + 1]);
            }
            lemma_merge_pairs_times(l, r, answers, i + 1, j, x);
            if x.0 == i && 0 <= x.1 < m {
                if x.1 < j {
                    lemma_value_less_asymmetric(r[x.1], l[i]);
                } else {
                    lemma_ascends_throughout(r, j, x.1);
                    lemma_value_less_total(r[j], r[x.1]);
                    lemma_less_then_not_greater(l[i], r[j], r[x.1]);
                }
            }
        } else {
            assert(value_less(r[j], l[i]));
            lemma_merge_pairs_times(l, r, answers, i, j + 1, x);
        }
    }
}

/// The cells about which a merge join asks are pairs of a left and a right
/// row.
proof fn lemma_merge_asks_within(
    l: Seq<Value>,
    r: Seq<Value>,
    answers: Map<(int, int), bool>,
    i: int,
    j: int,
)
    requires
        0 <= i,
        0 <= j,
    ensures
        forall|k: int|
            0 <= k < merge_asks(l, r, answers, i, j).len() ==> 0 <= (#[trigger] merge_asks(
                l,
                r,
                answers,
                i,
                j,
            )[k]).0 < l.len() && 0 <= merge_asks(l, r, answers, i, j)[k].1 < r.len(),
    decreases l.len() - i + r.len() - j,
{
    if i < l.len() && j < r.len() {
        let asked = merge_asks(l, r, answers, i, j);
        if hit(answers, i, j) || value_less(l[i], r[j]) {
            lemma_merge_asks_within(l, r, answers, i + 1, j);
            let next = merge_asks(l, r, answers, i + 1, j);
            assert forall|k: int| 0 <= k < asked.len() implies 0 <= (#[trigger] asked[k]).0 < l.len()
                && 0 <= asked[k].1 < r.len() by {
                if k > 0 {
                    assert(asked[k] == next[k - 1]);
                }
            }
        } else {
            lemma_merge_asks_within(l, r, answers, i, j + 1);
            let next = merge_asks(l, r, answers, i, j + 1);
            assert forall|k: int| 0 <= k < asked.len() implies 0 <= (#[trigger] asked[k]).0 < l.len()
                && 0 <= asked[k].1 < r.len() by {
                if k > 0 {
                    assert(asked[k] == next[k - 1]);
                }
            }
        }
    }
}

/// The three joins match the same pairs. Where a nested-loop join was told
/// that the predicate holds of exactly the pairs of equal values, a hash join
/// that it holds of each such pair, and a merge join that it holds of exactly
/// those of the pairs it asked about, and both join columns ascend, the three
/// match each pair of rows with equal values once, though not in one order.
pub proof fn lemma_pairs_agree(
    l: Seq<Value>,
    r: Seq<Value>,
    nested: Map<(int, int), bool>,
    hashed: Map<(int, int), bool>,
    merged: Map<(int, int), bool>,
)
    requires
        tells_equality(l, r, nested),
        holds_of_equals(l, r, hashed),
        equal_where_asked(l, r, merged, merge_asks(l, r, merged, 0, 0)),
        ascends(l),
        ascends(r),
    ensures
        nested_pairs(nested, l.len(), r.len()).to_multiset() == hash_pairs(
            l,
            r,
            hashed,
            r.len(),
        ).to_multiset(),
        nested_pairs(nested, l.len(), r.len()).to_multiset() == merge_pairs(
            l,
            r,
            merged,
            0,
            0,
        ).to_multiset(),
        forall|x: (int, int)|
            #[trigger] times(nested_pairs(nested, l.len(), r.len()), x) == one_if(is_match(l, r, 0, x)),
{
    broadcast use group_multiset_axioms;

    let a = nested_pairs(nested, l.len(), r.len());
    let b = hash_pairs(l, r, hashed, r.len());
    let c = merge_pairs(l, r, merged, 0, 0);
    assert forall|x: (int, int)|
        #[trigger] times(a, x) == one_if(is_match(l, r, 0, x)) && times(b, x) == times(a, x) && times(
            c,
            x,
        ) == times(a, x) by {
        lemma_nested_pairs_times(nested, l.len(), r.len(), x);
        lemma_hash_pairs_times(l, r, hashed, r.len(), x);
        lemma_merge_pairs_times(l, r, merged, 0, 0, x);
        if 0 <= x.0 < l.len() && 0 <= x.1 < r.len() {
            assert(hit(nested, x.0, x.1) == (l[x.0] == r[x.1]));
            if l[x.0] == r[x.1] {
                assert(hit(hashed, x.0, x.1));
            }
        }
    }
    assert forall|x: (int, int)| a.to_multiset().count(x) == b.to_multiset().count(x) by {
        assert(times(b, x) == times(a, x));
    }
    assert forall|x: (int, int)| a.to_multiset().count(x) == c.to_multiset().count(x) by {
        assert(times(c, x) == times(a, x));
    }
    assert(a.to_multiset() =~= b.to_multiset());
    assert(a.to_multiset() =~= c.to_multiset());
}

/// Joins that match the same pairs hold the same rows.
pub proof fn lemma_same_pairs_same_rows(
    l: Table,
    r: Table,
    s_col: Seq<char>,
    a: Seq<(int, int)>,
    b: Seq<(int, int)>,
)
    requires
        a.to_multiset() == b.to_multiset(),
    ensures
        joined_rows(l, r, s_col, a).to_multiset() == joined_rows(l, r, s_col, b).to_multiset(),
        joined_rows(l, r, s_col, a).len() == a.len(),
    decreases a.len(),
{
    broadcast use group_multiset_axioms;

    a.to_multiset_ensures();
    b.to_multiset_ensures();
    if a.len() == 0 {
        assert(b.len() == 0);
    } else {
        let x = a.last();
        let rest = a.drop_last();
        assert(a[a.len() - 1] == x);
        assert(a.contains(x));
        assert(b.to_multiset().count(x) > 0);
        assert(b.contains(x));
        let i = choose|i: int| 0 <= i < b.len() && b[i] == x;
        let other = b.remove(i);
        assert(a.remove(a.len() - 1) =~= rest);
        assert(rest.to_multiset() =~= other.to_multiset());
        lemma_same_pairs_same_rows(l, r, s_col, rest, other);
        lemma_joined_rows_insert(l, r, s_col, other, i, x);
        assert(other.insert(i, x) =~= b);
        let rows = joined_rows(l, r, s_col, other);
        to_multiset_build(joined_rows(l, r, s_col, rest), joined_row(l, r, s_col, x));
        vstd::seq_lib::to_multiset_insert(rows, i, joined_row(l, r, s_col, x));
    }
}

/// The rows of a sequence of pairs with one pair more are the rows of the
/// sequence with the row of that pair at its place.
proof fn lemma_joined_rows_insert(
    l: Table,
    r: Table,
    s_col: Seq<char>,
    pairs: Seq<(int, int)>,
    i: int,
    x: (int, int),
)
    requires
        0 <= i <= pairs.len(),
    ensures
        joined_rows(l, r, s_col, pairs.insert(i, x)) == joined_rows(l, r, s_col, pairs).insert(
            i,
            joined_row(l, r, s_col, x),
        ),
        joined_rows(l, r, s_col, pairs).len() == pairs.len(),
    decreases pairs.len(),
{
    let more = pairs.insert(i, x);
    if i == pairs.len() {
        assert(more.drop_last() =~= pairs);
        lemma_joined_rows_len(l, r, s_col, pairs);
        assert(joined_rows(l, r, s_col, more) =~= joined_rows(l, r, s_col, pairs).insert(
            i,
            joined_row(l, r, s_col, x),
        ));
    } else {
        assert(more.drop_last() =~= pairs.drop_last().insert(i, x));
        assert(more.last() == pairs.last());
        lemma_joined_rows_insert(l, r, s_col, pairs.drop_last(), i, x);
        lemma_joined_rows_len(l, r, s_col, pairs);
        assert(joined_rows(l, r, s_col, more) =~= joined_rows(l, r, s_col, pairs).insert(
            i,
            joined_row(l, r, s_col, x),
        ));
    }
}

/// A join holds one row for each matched pair.
proof fn lemma_joined_rows_len(l: Table, r: Table, s_col: Seq<char>, pairs: Seq<(int, int)>)
    ensures
        joined_rows(l, r, s_col, pairs).len() == pairs.len(),
    decreases pairs.len(),
{
    if pairs.len() > 0 {
        lemma_joined_rows_len(l, r, s_col, pairs.drop_last());
    }
}

/// The three joins agree. Where the predicate holds of exactly the pairs of
/// equal values, what `nested_loop_join`, `hash_join` and `merge_join` give
/// of two relations are joins of the same pairs of rows, each pair of rows
/// with equal values once, and hold the same rows, though not in one order.
/// The merge join gives a relation only where both join columns ascend.
pub proof fn lemma_joins_agree<F: Fn(&DataType, &DataType) -> bool>(
    predicate: F,
    left: ColumnStoreRelation,
    right: ColumnStoreRelation,
    r_col: Seq<char>,
    s_col: Seq<char>,
    nested: ColumnStoreRelation,
    hashed: ColumnStoreRelation,
    merged: ColumnStoreRelation,
)
    requires
        is_equality(predicate),
        nested_joins(predicate, left, right, r_col, s_col, Ok(nested)),
        hash_joins(predicate, left, right, r_col, s_col, Ok(hashed)),
        merge_joins(predicate, left, right, r_col, s_col, Ok(merged)),
    ensures
        exists|a: Seq<(int, int)>, b: Seq<(int, int)>, c: Seq<(int, int)>|
            nested@ == #[trigger] joined(left@, right@, s_col, a) && hashed@ == #[trigger] joined(
                left@,
                right@,
                s_col,
                b,
            ) && merged@ == #[trigger] joined(left@, right@, s_col, c) && a.to_multiset()
                == b.to_multiset() && a.to_multiset() == c.to_multiset() && joined_rows(
                left@,
                right@,
                s_col,
                a,
            ).to_multiset() == joined_rows(left@, right@, s_col, b).to_multiset() && joined_rows(
                left@,
                right@,
                s_col,
                a,
            ).to_multiset() == joined_rows(left@, right@, s_col, c).to_multiset() && (forall|
                x: (int, int),
            |
                #[trigger] times(a, x) == one_if(
                    is_match(left@.columns[r_col], right@.columns[s_col], 0, x),
                )),
{
    let lraw = left.columns@[r_col]@;
    let rraw = right.columns@[s_col]@;
    let l = left@.columns[r_col];
    let r = right@.columns[s_col];
    assert(l == views(lraw));
    assert(r == views(rraw));
    let an = choose|answers: Map<(int, int), bool>|
        (forall|i: int, j: int|
            0 <= i < lraw.len() && 0 <= j < rraw.len() ==> #[trigger] answered(
                predicate,
                lraw,
                rraw,
                answers,
                i,
                j,
            )) && nested@ == joined(
            left@,
            right@,
            s_col,
            #[trigger] nested_pairs(answers, lraw.len(), rraw.len()),
        );
    let ah = choose|answers: Map<(int, int), bool>|
        (forall|i: int, j: int|
            0 <= i < lraw.len() && 0 <= j < rraw.len() && lraw[i]@ == rraw[j]@ ==> #[trigger] answered(
                predicate,
                lraw,
                rraw,
                answers,
                i,
                j,
            )) && hashed@ == joined(
            left@,
            right@,
            s_col,
            #[trigger] hash_pairs(l, r, answers, rraw.len()),
        );
    let am = choose|answers: Map<(int, int), bool>|
        (forall|k: int|
            0 <= k < merge_asks(l, r, answers, 0, 0).len() ==> answered(
                predicate,
                lraw,
                rraw,
                answers,
                (#[trigger] merge_asks(l, r, answers, 0, 0)[k]).0,
                merge_asks(l, r, answers, 0, 0)[k].1,
            )) && merged@ == joined(left@, right@, s_col, #[trigger] merge_pairs(l, r, answers, 0, 0));
    assert forall|i: int, j: int| 0 <= i < l.len() && 0 <= j < r.len() implies #[trigger] hit(an, i, j)
        == (l[i] == r[j]) by {
        assert(answered(predicate, lraw, rraw, an, i, j));
        assert(l[i] == lraw[i]@ && r[j] == rraw[j]@);
    }
    assert forall|i: int, j: int|
        0 <= i < l.len() && 0 <= j < r.len() && l[i] == r[j] implies #[trigger] hit(ah, i, j) by {
        assert(l[i] == lraw[i]@ && r[j] == rraw[j]@);
        assert(answered(predicate, lraw, rraw, ah, i, j));
    }
    let asked = merge_asks(l, r, am, 0, 0);
    lemma_merge_asks_within(l, r, am, 0, 0);
    assert forall|k: int| 0 <= k < asked.len() implies hit(am, (#[trigger] asked[k]).0, asked[k].1)
        == (l[asked[k].0] == r[asked[k].1]) by {
        assert(answered(predicate, lraw, rraw, am, asked[k].0, asked[k].1));
        assert(l[asked[k].0] == lraw[asked[k].0]@ && r[asked[k].1] == rraw[asked[k].1]@);
    }
    lemma_pairs_agree(l, r, an, ah, am);
    let a = nested_pairs(an, l.len(), r.len());
    let b = hash_pairs(l, r, ah, r.len());
    let c = merge_pairs(l, r, am, 0, 0);
    lemma_same_pairs_same_rows(left@, right@, s_col, a, b);
    lemma_same_pairs_same_rows(left@, right@, s_col, a, c);
    assert(nested@ == joined(left@, right@, s_col, a));
    assert(hashed@ == joined(left@, right@, s_col, b));
    assert(merged@ == joined(left@, right@, s_col, c));
}

/// The rows listed under a key of the index of a column are the rows whose
/// value has that key as its canonical text.
pub proof fn lemma_rows_with(col: Seq<Value>, key: Seq<char>, n: nat)
    requires
        n <= col.len(),
        n <= usize::MAX,
    ensures
        forall|t: int|
            0 <= t < rows_with(col, key, n).len() ==> (#[trigger] rows_with(col, key, n)[t]) < n
                && value_text(col[rows_with(col, key, n)[t] as int]) == key,
        forall|r: int| 0 <= r < n && value_text(col[r]) == key ==> listed(rows_with(col, key, n), r),
    decreases n,
{
    if n > 0 {
        lemma_rows_with(col, key, (n - 1) as nat);
        let before = rows_with(col, key, (n - 1) as nat);
        let now = rows_with(col, key, n);
        assert forall|t: int| 0 <= t < now.len() implies (#[trigger] now[t]) < n && value_text(
            col[now[t] as int],
        ) == key by {
            if t < before.len() {
                assert(now[t] == before[t]);
            }
        }
        assert forall|r: int| 0 <= r < n && value_text(col[r]) == key implies listed(now, r) by {
            if r < n - 1 {
                assert(listed(before, r));
                let t = choose|t: int| 0 <= t < before.len() && #[trigger] before[t] == r;
                assert(now[t] == r);
            } else {
                assert(now[now.len() - 1] == r);
            }
        }
    }
}

/// A lookup through a fresh index finds the rows that a selection finds.
/// Where the index of `column` is the index of the column as it stands, and
/// the predicate was told to hold of the key of a row exactly where it holds
/// of the row, the relation looked up holds the columns of the relation
/// selected, and the same name, display schema and metadata.
pub proof fn lemma_lookup_is_selection(
    t: Table,
    column: Seq<char>,
    answers: Seq<bool>,
    hits: Map<Seq<char>, bool>,
)
    requires
        t.columns.contains_key(column),
        t.columns[column].len() <= usize::MAX,
        t.indices[column] == index_of_column(t.columns[column]),
        answers.len() == t.columns[column].len(),
        forall|i: int|
            0 <= i < answers.len() ==> hits.contains_key(value_text(#[trigger] t.columns[column][i]))
                && hits[value_text(t.columns[column][i])] == answers[i],
    ensures
        index_select_of(t, column, hits).columns == select_of(t, answers).columns,
        index_select_of(t, column, hits).name == select_of(t, answers).name,
        index_select_of(t, column, hits).display == select_of(t, answers).display,
        index_select_of(t, column, hits).fields == select_of(t, answers).fields,
{
    let col = t.columns[column];
    let ix = t.indices[column];
    let n = col.len();
    let found = looked_up(t.columns, ix, hits);
    let kept = kept_columns(t.columns, answers, true);
    assert forall|c: Seq<char>| t.columns.contains_key(c) implies #[trigger] found[c] == kept[c] by {
        let len = t.columns[c].len();
        let mask = chosen_mask(ix, hits, len);
        assert forall|r: int| 0 <= r < len implies wanted(mask, true, r) == wanted(answers, true, r) by {
            if wanted(answers, true, r) {
                let k = value_text(col[r]);
                lemma_rows_with(col, k, n);
                assert(listed(rows_with(col, k, n), r));
                assert(chosen_by(ix, hits, k, r));
            }
            if chosen(ix, hits, r) {
                let k = choose|k: Seq<char>| #[trigger] chosen_by(ix, hits, k, r);
                lemma_rows_with(col, k, n);
                let u = choose|u: int| 0 <= u < ix[k].len() && #[trigger] ix[k][u] == r;
                assert(rows_with(col, k, n)[u] < n);
                assert(value_text(col[r]) == k);
            }
        }
        lemma_positions_agree(len, mask, answers, true);
    }
    assert(found =~= kept);
}

/// The decimal digits of a number denote the number.
pub proof fn lemma_digits_round_trip(n: nat)
    ensures
        digits_value(digits_of(n)) == Some(n),
        digits_of(n).len() >= 1,
        forall|i: int| 0 <= i < digits_of(n).len() ==> digit_value(#[trigger] digits_of(n)[i]) is Some,
    decreases n,
{
    if n < 10 {
        let d = digits_of(n);
        assert(d.drop_last() =~= Seq::<char>::empty());
        assert(digits_value(d.drop_last()) == Some(0nat));
        assert(digit_value(digit_char(n as int)) == Some(n as int));
    } else {
        lemma_digits_round_trip(n / 10);
        let d = digits_of(n);
        assert(d.drop_last() =~= digits_of(n / 10));
        assert(digit_value(digit_char((n % 10) as int)) == Some((n % 10) as int));
        assert forall|i: int| 0 <= i < d.len() implies digit_value(#[trigger] d[i]) is Some by {
            if i < d.len() - 1 {
                assert(d[i] == digits_of(n / 10)[i]);
            }
        }
    }
}

/// The canonical text of a 32-bit integer denotes that integer, and has no
/// white space at its start or end.
pub proof fn lemma_int_text_round_trip(i: i32)
    ensures
        trimmed(int_text(i as int)) == int_text(i as int),
        parse_i32(int_text(i as int)) == Some(i),
{
    let t = int_text(i as int);
    let n = (if i < 0 {
        -(i as int)
    } else {
        i as int
    }) as nat;
    lemma_digits_round_trip(n);
    let d = digits_of(n);
    assert(digit_value(d[0]) is Some);
    assert(digit_value(d[d.len() - 1]) is Some);
    assert(!is_space(d[0]) && d[0] != '-' && d[0] != '+');
    assert(!is_space(d[d.len() - 1]));
    assert(!is_space('-'));
    if i < 0 {
        assert(t[0] == '-');
        assert(t.drop_first() =~= d);
        assert(t[t.len() - 1] == d[d.len() - 1]);
    } else {
        assert(t == d);
    }
    lemma_lead(t, 0);
    lemma_trail(t, t.len() as int);
    assert(t.subrange(0, t.len() as int) =~= t);
}

/// Whether a value is the only value that its canonical text can be read
/// as.
pub open spec fn reads_back<P: Fn(&str) -> Option<u64>>(parse_float: P, v: Value) -> bool {
    forall|w: Value| #[trigger] reads_as(parse_float, value_text(v), w) ==> w == v
}

/// An integer is the only value that its canonical text can be read as,
/// whatever reads floating-point numbers.
pub proof fn lemma_integer_reads_back<P: Fn(&str) -> Option<u64>>(parse_float: P, i: i32)
    ensures
        reads_back(parse_float, Value::Integer(i)),
{
    lemma_int_text_round_trip(i);
}

/// A text is the only value that it can be read as where it has no white
/// space at its start or end, denotes no 32-bit integer and is not read as
/// a floating-point number.
pub proof fn lemma_text_reads_back<P: Fn(&str) -> Option<u64>>(parse_float: P, s: Seq<char>)
    requires
        trimmed(s) == s,
        parse_i32(s) is None,
        forall|t: &str, f: Option<u64>| t@ == s && #[trigger] call_ensures(parse_float, (t,), f) ==> f is None,
    ensures
        reads_back(parse_float, Value::Text(s)),
{
}

/// A lookup through a fresh index agrees with a selection. Where the answer
/// of the predicate depends on the value alone, every value of the column is
/// the only value that its canonical text can be read as, and the index of
/// the column is the index of the column as it stands, what `index_select`
/// gives holds the columns of what `select` gives, under the same name,
/// display schema and metadata.
pub proof fn lemma_index_select_agrees<F: Fn(&DataType) -> bool, P: Fn(&str) -> Option<u64>>(
    predicate: F,
    parse_float: P,
    rel: ColumnStoreRelation,
    column: Seq<char>,
    selected: ColumnStoreRelation,
    found: ColumnStoreRelation,
)
    requires
        decides(predicate),
        rel.columns@.contains_key(column),
        rel.columns@[column]@.len() <= usize::MAX,
        rel@.indices[column] == index_of_column(rel@.columns[column]),
        forall|i: int|
            0 <= i < rel.columns@[column]@.len() ==> reads_back(
                parse_float,
                (#[trigger] rel.columns@[column]@[i])@,
            ),
        selects(predicate, rel, column, Ok(selected)),
        looks_up(predicate, parse_float, rel, column, Ok(found)),
    ensures
        found@.columns == selected@.columns,
        found@.name == selected@.name,
        found@.display == selected@.display,
        found@.fields == selected@.fields,
{
    let answers = choose|answers: Seq<bool>|
        #[trigger] agrees(predicate, rel.columns@[column]@, answers) && selected@ == select_of(
            rel@,
            answers,
        );
    let hits = choose|hits: Map<Seq<char>, bool>|
        #[trigger] told(predicate, parse_float, rel@.indices[column], hits) && found@
            == index_select_of(rel@, column, hits);
    let raw = rel.columns@[column]@;
    let col = rel@.columns[column];
    let ix = rel@.indices[column];
    assert(col == views(raw));
    assert forall|i: int| 0 <= i < answers.len() implies hits.contains_key(
        value_text(#[trigger] col[i]),
    ) && hits[value_text(col[i])] == answers[i] by {
        let k = value_text(col[i]);
        lemma_rows_with(col, k, col.len());
        assert(listed(rows_with(col, k, col.len()), i));
        assert(ix.contains_key(k));
        assert(told_of(predicate, parse_float, k, hits[k]));
        let d = choose|d: DataType|
            reads_as(parse_float, k, d@) && #[trigger] call_ensures(predicate, (&d,), hits[k]);
        assert(col[i] == raw[i]@);
        assert(reads_back(parse_float, raw[i]@));
        assert(d@ == raw[i]@);
        assert(call_ensures(predicate, (&raw[i],), answers[i]));
    }
    lemma_lookup_is_selection(rel@, column, answers, hits);
}

} // verus!
