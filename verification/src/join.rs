use vstd::prelude::*;
use vstd::string::StringExecFns;
use crate::dtype::{value_hash, value_less, views, DataType, Value};
use crate::errors::RelationErrors;
use crate::interface::{
    column_table, field_table, texts, ColumnStoreRelation, Table,
};
use crate::text::str_eq;
use crate::textmap::TextMap;

verus! {

/// Whether the predicate was told to hold of row `i` on the left and row `j`
/// on the right. A pair that was never asked about counts as not holding.
pub open spec fn hit(answers: Map<(int, int), bool>, i: int, j: int) -> bool {
    answers.contains_key((i, j)) && answers[(i, j)]
}

/// Whether `answers` holds, for row `i` on the left and row `j` on the
/// right, a result that a call of `f` on the two values has.
pub open spec fn answered<F: Fn(&DataType, &DataType) -> bool>(
    f: F,
    l: Seq<DataType>,
    r: Seq<DataType>,
    answers: Map<(int, int), bool>,
    i: int,
    j: int,
) -> bool {
    answers.contains_key((i, j)) && call_ensures(f, (&l[i], &r[j]), answers[(i, j)])
}

/// The names of `names` other than `skip`, in their order.
pub open spec fn without(names: Seq<Seq<char>>, skip: Seq<char>) -> Seq<Seq<char>>
    decreases names.len(),
{
    if names.len() == 0 {
        Seq::<Seq<char>>::empty()
    } else if names.last() == skip {
        without(names.drop_last(), skip)
    } else {
        without(names.drop_last(), skip).push(names.last())
    }
}

/// What the left row `i` gives to column `k` of a joined row.
pub open spec fn left_part(lc: Map<Seq<char>, Seq<Value>>, k: Seq<char>, i: int) -> Seq<Value> {
    if lc.contains_key(k) {
        seq![lc[k][i]]
    } else {
        Seq::<Value>::empty()
    }
}

/// What the right row `j` gives to column `k` of a joined row: nothing to
/// the right join column.
pub open spec fn right_part(
    rc: Map<Seq<char>, Seq<Value>>,
    s_col: Seq<char>,
    k: Seq<char>,
    j: int,
) -> Seq<Value> {
    if k != s_col && rc.contains_key(k) {
        seq![rc[k][j]]
    } else {
        Seq::<Value>::empty()
    }
}

/// Column `k` of the join: for each matched pair of rows, in the order of
/// `pairs`, what the left row gives to it and then what the right row gives.
pub open spec fn join_column(
    lc: Map<Seq<char>, Seq<Value>>,
    rc: Map<Seq<char>, Seq<Value>>,
    s_col: Seq<char>,
    k: Seq<char>,
    pairs: Seq<(int, int)>,
) -> Seq<Value>
    decreases pairs.len(),
{
    if pairs.len() == 0 {
        Seq::<Value>::empty()
    } else {
        join_column(lc, rc, s_col, k, pairs.drop_last()) + left_part(lc, k, pairs.last().0)
            + right_part(rc, s_col, k, pairs.last().1)
    }
}

/// The relation that joins the matched pairs of rows. Its display schema is
/// that of the left relation followed by that of the right without the right
/// join column; it stores one column for each displayed name; its metadata
/// is that of the left relation with that of the right, but for the right
/// join column, laid over it. It has no indices.
pub open spec fn joined(l: Table, r: Table, s_col: Seq<char>, pairs: Seq<(int, int)>) -> Table {
    Table {
        name: l.name + "_"@ + r.name + "_join"@,
        fields: Map::new(
            |k: Seq<char>| l.fields.contains_key(k) || (k != s_col && r.fields.contains_key(k)),
            |k: Seq<char>|
                if k != s_col && r.fields.contains_key(k) {
                    r.fields[k]
                } else {
                    l.fields[k]
                },
        ),
        columns: Map::new(
            |k: Seq<char>| (l.display + without(r.display, s_col)).contains(k),
            |k: Seq<char>| join_column(l.columns, r.columns, s_col, k, pairs),
        ),
        display: l.display + without(r.display, s_col),
        indices: Map::<Seq<char>, Map<Seq<char>, Seq<usize>>>::empty(),
    }
}

/// The pairs of row numbers as pairs of integers.
pub open spec fn as_pairs(p: Seq<(usize, usize)>) -> Seq<(int, int)> {
    p.map_values(|x: (usize, usize)| (x.0 as int, x.1 as int))
}

/// Whether every pair names a row of the left and a row of the right.
pub open spec fn pairs_within(p: Seq<(usize, usize)>, n: int, m: int) -> bool {
    forall|k: int| 0 <= k < p.len() ==> (#[trigger] p[k]).0 < n && p[k].1 < m
}

/// Whether each of the matched pairs names, in the columns `name` of the two
/// relations as far as the join reads them, a row that is there. The join
/// reads the column of the left relation where it is stored, and that of the
/// right relation where it is stored and is not the right join column.
pub open spec fn reads_within(
    left: Map<Seq<char>, Vec<DataType>>,
    right: Map<Seq<char>, Vec<DataType>>,
    s_col: Seq<char>,
    name: Seq<char>,
    pairs: Seq<(usize, usize)>,
) -> bool {
    &&& left.contains_key(name) ==> forall|k: int|
        0 <= k < pairs.len() ==> (#[trigger] pairs[k]).0 < left[name]@.len()
    &&& name != s_col && right.contains_key(name) ==> forall|k: int|
        0 <= k < pairs.len() ==> (#[trigger] pairs[k]).1 < right[name]@.len()
}

/// Whether `name` is a column of the join: a displayed column of the left
/// relation, or one of the right relation other than its join column.
pub open spec fn shown_in_join(l: Table, r: Table, s_col: Seq<char>, name: Seq<char>) -> bool {
    (l.display + without(r.display, s_col)).contains(name)
}

/// What the joins ask of two relations that store their join columns: that
/// each column which the join reads has a row for every row of the join
/// column of its relation. The join reads the columns that it shows, of the
/// left relation where it stores one, and of the right relation where it
/// stores one that is not its join column. Nothing is asked of a column that
/// is not shown, and nothing where a join column is missing.
pub open spec fn join_reaches(
    left: ColumnStoreRelation,
    right: ColumnStoreRelation,
    r_col: Seq<char>,
    s_col: Seq<char>,
) -> bool {
    left.columns@.contains_key(r_col) && right.columns@.contains_key(s_col) ==> forall|
        name: Seq<char>,
    | #[trigger]
        shown_in_join(left@, right@, s_col, name) ==> (left.columns@.contains_key(name)
            ==> left.columns@[name]@.len() >= left.columns@[r_col]@.len()) && (name != s_col
            && right.columns@.contains_key(name) ==> right.columns@[name]@.len()
            >= right.columns@[s_col]@.len())
}

/// Pairs of rows of the two join columns name a row that is there in every
/// column that the join reads.
pub proof fn lemma_join_reads_within(
    left: ColumnStoreRelation,
    right: ColumnStoreRelation,
    r_col: Seq<char>,
    s_col: Seq<char>,
    pairs: Seq<(usize, usize)>,
)
    requires
        left.columns@.contains_key(r_col),
        right.columns@.contains_key(s_col),
        join_reaches(left, right, r_col, s_col),
        pairs_within(pairs, left.columns@[r_col]@.len() as int, right.columns@[s_col]@.len() as int),
    ensures
        forall|name: Seq<char>| #[trigger]
            shown_in_join(left@, right@, s_col, name) ==> reads_within(
                left.columns@,
                right.columns@,
                s_col,
                name,
                pairs,
            ),
{
    assert forall|name: Seq<char>| #[trigger] shown_in_join(left@, right@, s_col, name) implies reads_within(
        left.columns@,
        right.columns@,
        s_col,
        name,
        pairs,
    ) by {
        if left.columns@.contains_key(name) {
            assert forall|k: int| 0 <= k < pairs.len() implies (#[trigger] pairs[k]).0
                < left.columns@[name]@.len() by {}
        }
        if name != s_col && right.columns@.contains_key(name) {
            assert forall|k: int| 0 <= k < pairs.len() implies (#[trigger] pairs[k]).1
                < right.columns@[name]@.len() by {}
        }
    }
}

/// Column `name` of the join of the matched pairs.
fn join_rows(
    left: &TextMap<Vec<DataType>>,
    right: &TextMap<Vec<DataType>>,
    s_col: &str,
    name: &str,
    pairs: &Vec<(usize, usize)>,
) -> (r: Vec<DataType>)
    requires
        reads_within(left@, right@, s_col@, name@, pairs@),
    ensures
        views(r@) == join_column(
            column_table(left@),
            column_table(right@),
            s_col@,
            name@,
            as_pairs(pairs@),
        ),
{
    let from_left = left.get(name);
    let from_right = if str_eq(name, s_col) {
        None
    } else {
        right.get(name)
    };
    let ghost lc = column_table(left@);
    let ghost rc = column_table(right@);
    let mut out: Vec<DataType> = Vec::new();
    let mut k: usize = 0;
    while k < pairs.len()
        invariant
            k <= pairs.len(),
            lc == column_table(left@),
            rc == column_table(right@),
            reads_within(left@, right@, s_col@, name@, pairs@),
            match from_left {
                Some(col) => left@.contains_key(name@) && *col == left@[name@],
                None => !left@.contains_key(name@),
            },
            match from_right {
                Some(col) => name@ != s_col@ && right@.contains_key(name@) && *col == right@[name@],
                None => name@ == s_col@ || !right@.contains_key(name@),
            },
            views(out@) == join_column(lc, rc, s_col@, name@, as_pairs(pairs@).take(k as int)),
        decreases pairs.len() - k,
    {
        let ghost before = views(out@);
        let (i, j) = pairs[k];
        proof {
            let upto = as_pairs(pairs@).take(k + 1);
            assert(upto.drop_last() =~= as_pairs(pairs@).take(k as int));
            assert(upto.last() == (i as int, j as int));
        }
        match from_left {
            Some(col) => {
                let ghost held = out@;
                assert(pairs@[k as int].0 < left@[name@]@.len());
                let value = col[i].clone();
                out.push(value);
                assert(views(out@) =~= views(held).push(value@));
            },
            None => {},
        }
        assert(views(out@) =~= before + left_part(lc, name@, i as int));
        match from_right {
            Some(col) => {
                let ghost held = out@;
                assert(pairs@[k as int].1 < right@[name@]@.len());
                let value = col[j].clone();
                out.push(value);
                assert(views(out@) =~= views(held).push(value@));
            },
            None => {},
        }
        assert(views(out@) =~= before + left_part(lc, name@, i as int) + right_part(
            rc,
            s_col@,
            name@,
            j as int,
        ));
        k += 1;
    }
    assert(as_pairs(pairs@).take(k as int) =~= as_pairs(pairs@));
    out
}

/// The display schema of a join.
fn join_display(left: &Vec<String>, right: &Vec<String>, s_col: &str) -> (r: Vec<String>)
    ensures
        texts(r@) == texts(left@) + without(texts(right@), s_col@),
{
    let mut out: Vec<String> = Vec::new();
    let mut i: usize = 0;
    while i < left.len()
        invariant
            i <= left.len(),
            texts(out@) == texts(left@).take(i as int),
        decreases left.len() - i,
    {
        let ghost before = out@;
        let name = left[i].clone();
        out.push(name);
        assert(texts(out@) =~= texts(before).push(name@));
        assert(texts(left@).take(i + 1) =~= texts(left@).take(i as int).push(left@[i as int]@));
        i += 1;
    }
    assert(texts(left@).take(i as int) =~= texts(left@));
    let mut j: usize = 0;
    while j < right.len()
        invariant
            j <= right.len(),
            texts(out@) == texts(left@) + without(texts(right@).take(j as int), s_col@),
        decreases right.len() - j,
    {
        proof {
            let upto = texts(right@).take(j + 1);
            assert(upto.drop_last() =~= texts(right@).take(j as int));
            assert(upto.last() == right@[j as int]@);
        }
        if !str_eq(right[j].as_str(), s_col) {
            let ghost before = out@;
            let name = right[j].clone();
            out.push(name);
            assert(texts(out@) =~= texts(before).push(name@));
        }
        assert(texts(out@) =~= texts(left@) + without(texts(right@).take(j + 1), s_col@));
        j += 1;
    }
    assert(texts(right@).take(j as int) =~= texts(right@));
    out
}

/// The metadata of a join.
fn join_fields(left: &TextMap<DataType>, right: &TextMap<DataType>, s_col: &str) -> (r: TextMap<
    DataType,
>)
    ensures
        field_table(r@) == Map::new(
            |k: Seq<char>|
                field_table(left@).contains_key(k) || (k != s_col@ && field_table(
                    right@,
                ).contains_key(k)),
            |k: Seq<char>|
                if k != s_col@ && field_table(right@).contains_key(k) {
                    field_table(right@)[k]
                } else {
                    field_table(left@)[k]
                },
        ),
{
    let mut out = crate::relation::copy_fields(left);
    let ghost start = field_table(out@);
    let n = right.len();
    let mut i: usize = 0;
    while i < n
        invariant
            i <= n,
            n == right.names().len(),
            right.ordered(),
            start == field_table(left@),
            forall|k: Seq<char>|
                out@.contains_key(k) <==> (start.contains_key(k) || (k != s_col@
                    && right.names().take(i as int).contains(k))),
            forall|k: Seq<char>|
                out@.contains_key(k) ==> (#[trigger] out@[k])@ == (if k != s_col@
                    && right.names().take(i as int).contains(k) {
                    right@[k]@
                } else {
                    start[k]
                }),
        decreases n - i,
    {
        let ghost names = right.names();
        let ghost held = out@;
        let ghost earlier = right.names().take(i as int);
        let ghost last = names[i as int];
        let skip = str_eq(right.name_at(i), s_col);
        if !skip {
            let name = right.name_at(i).to_string();
            let value = right.value_at(i).clone();
            out.insert(name, value);
        }
        i += 1;
        proof {
            let upto = names.take(i as int);
            assert(upto =~= earlier.push(last));
            assert forall|k: Seq<char>| upto.contains(k) <==> (earlier.contains(k) || k == last) by {
                if earlier.contains(k) {
                    let j = choose|j: int| 0 <= j < earlier.len() && earlier[j] == k;
                    assert(upto[j] == k);
                }
                if k == last {
                    assert(upto[i - 1] == k);
                }
            }
            assert forall|k: Seq<char>|
                out@.contains_key(k) <==> (start.contains_key(k) || (k != s_col@ && upto.contains(
                    k,
                ))) by {
                assert(held.contains_key(k) <==> (start.contains_key(k) || (k != s_col@
                    && earlier.contains(k))));
                assert(upto.contains(k) <==> (earlier.contains(k) || k == last));
            }
            assert forall|k: Seq<char>| out@.contains_key(k) implies (#[trigger] out@[k])@ == (if k
                != s_col@ && upto.contains(k) {
                right@[k]@
            } else {
                start[k]
            }) by {
                assert(held.contains_key(k) <==> (start.contains_key(k) || (k != s_col@
                    && earlier.contains(k))));
                assert(upto.contains(k) <==> (earlier.contains(k) || k == last));
                if held.contains_key(k) {
                    assert(held[k]@ == (if k != s_col@ && earlier.contains(k) {
                        right@[k]@
                    } else {
                        start[k]
                    }));
                }
            }
        }
    }
    proof {
        let names = right.names();
        assert(names.take(n as int) =~= names);
        let goal = Map::new(
            |k: Seq<char>|
                field_table(left@).contains_key(k) || (k != s_col@ && field_table(
                    right@,
                ).contains_key(k)),
            |k: Seq<char>|
                if k != s_col@ && field_table(right@).contains_key(k) {
                    field_table(right@)[k]
                } else {
                    field_table(left@)[k]
                },
        );
        assert forall|k: Seq<char>| right@.contains_key(k) <==> names.contains(k) by {}
        assert(field_table(out@) =~= goal);
    }
    out
}

/// The relation that joins the matched pairs of rows.
pub fn build_join(
    left: &ColumnStoreRelation,
    right: &ColumnStoreRelation,
    s_col: &str,
    pairs: &Vec<(usize, usize)>,
) -> (out: ColumnStoreRelation)
    requires
        forall|name: Seq<char>| #[trigger]
            shown_in_join(left@, right@, s_col@, name) ==> reads_within(
                left.columns@,
                right.columns@,
                s_col@,
                name,
                pairs@,
            ),
    ensures
        out@ == joined(left@, right@, s_col@, as_pairs(pairs@)),
{
    let mut name = left.name.clone();
    name.append("_");
    name.append(right.name.as_str());
    name.append("_join");
    let display = join_display(&left.select_columns, &right.select_columns, s_col);
    let ghost shown = texts(display@);
    let ghost lc = column_table(left.columns@);
    let ghost rc = column_table(right.columns@);
    let mut columns: TextMap<Vec<DataType>> = TextMap::new();
    let mut i: usize = 0;
    while i < display.len()
        invariant
            i <= display.len(),
            shown == texts(display@),
            lc == column_table(left.columns@),
            rc == column_table(right.columns@),
            shown == left@.display + without(right@.display, s_col@),
            forall|name: Seq<char>| #[trigger]
                shown_in_join(left@, right@, s_col@, name) ==> reads_within(
                    left.columns@,
                    right.columns@,
                    s_col@,
                    name,
                    pairs@,
                ),
            forall|k: Seq<char>| columns@.contains_key(k) <==> shown.take(i as int).contains(k),
            forall|k: Seq<char>|
                columns@.contains_key(k) ==> views((#[trigger] columns@[k])@) == join_column(
                    lc,
                    rc,
                    s_col@,
                    k,
                    as_pairs(pairs@),
                ),
        decreases display.len() - i,
    {
        proof {
            assert(shown[i as int] == display@[i as int]@);
            assert(shown_in_join(left@, right@, s_col@, shown[i as int]));
        }
        let rows = join_rows(&left.columns, &right.columns, s_col, display[i].as_str(), pairs);
        columns.insert(display[i].clone(), rows);
        proof {
            assert(shown.take(i + 1) =~= shown.take(i as int).push(shown[i as int]));
            assert forall|k: Seq<char>| columns@.contains_key(k) <==> shown.take(i + 1).contains(
                k,
            ) by {
                if shown.take(i as int).contains(k) {
                    let j = choose|j: int| 0 <= j < i && shown.take(i as int)[j] == k;
                    assert(shown.take(i + 1)[j] == k);
                }
                if k == shown[i as int] {
                    assert(shown.take(i + 1)[i as int] == k);
                }
            }
        }
        i += 1;
    }
    let out = ColumnStoreRelation {
        name,
        fields: join_fields(&left.fields, &right.fields, s_col),
        columns,
        select_columns: display,
        indices: TextMap::new(),
    };
    proof {
        assert(shown.take(i as int) =~= shown);
        let goal = joined(left@, right@, s_col@, as_pairs(pairs@));
        assert(out@.name =~= goal.name);
        assert(out@.columns =~= goal.columns);
        assert(out@.fields =~= goal.fields);
        assert(out@.indices =~= goal.indices);
    }
    out
}

/// The matched pairs of left row `i` with the first `m` right rows, by
/// ascending right row.
pub open spec fn row_pairs(answers: Map<(int, int), bool>, i: int, m: nat) -> Seq<(int, int)>
    decreases m,
{
    if m == 0 {
        Seq::<(int, int)>::empty()
    } else if hit(answers, i, m - 1) {
        row_pairs(answers, i, (m - 1) as nat).push((i, m - 1))
    } else {
        row_pairs(answers, i, (m - 1) as nat)
    }
}

/// The pairs that a nested-loop join matches, in the order in which it
/// finds them: every pair of one of the first `n` left rows and one of the
/// first `m` right rows of which the predicate holds, by left row and then
/// by right row.
pub open spec fn nested_pairs(answers: Map<(int, int), bool>, n: nat, m: nat) -> Seq<(int, int)>
    decreases n,
{
    if n == 0 {
        Seq::<(int, int)>::empty()
    } else {
        nested_pairs(answers, (n - 1) as nat, m) + row_pairs(answers, n - 1, m)
    }
}

/// The matched pairs of one left row depend on the answers for that row
/// only.
pub proof fn lemma_row_pairs_frame(a: Map<(int, int), bool>, b: Map<(int, int), bool>, i: int, m: nat)
    requires
        forall|j: int| 0 <= j < m ==> hit(a, i, j) == hit(b, i, j),
    ensures
        row_pairs(a, i, m) == row_pairs(b, i, m),
    decreases m,
{
    if m > 0 {
        lemma_row_pairs_frame(a, b, i, (m - 1) as nat);
    }
}

/// The pairs of a nested-loop join depend on the answers for its rows only.
pub proof fn lemma_nested_pairs_frame(
    a: Map<(int, int), bool>,
    b: Map<(int, int), bool>,
    n: nat,
    m: nat,
)
    requires
        forall|i: int, j: int| 0 <= i < n && 0 <= j < m ==> hit(a, i, j) == hit(b, i, j),
    ensures
        nested_pairs(a, n, m) == nested_pairs(b, n, m),
    decreases n,
{
    if n > 0 {
        lemma_nested_pairs_frame(a, b, (n - 1) as nat, m);
        lemma_row_pairs_frame(a, b, n - 1, m);
    }
}

/// Asks the predicate about every pair of a left and a right row and lists
/// the pairs of which it holds.
fn nested_matches<F: Fn(&DataType, &DataType) -> bool>(
    l: &Vec<DataType>,
    r: &Vec<DataType>,
    predicate: &F,
) -> (res: (Vec<(usize, usize)>, Ghost<Map<(int, int), bool>>))
    requires
        forall|a: &DataType, b: &DataType| call_requires(*predicate, (a, b)),
    ensures
        as_pairs(res.0@) == nested_pairs(res.1@, l@.len(), r@.len()),
        pairs_within(res.0@, l@.len() as int, r@.len() as int),
        forall|i: int, j: int|
            0 <= i < l@.len() && 0 <= j < r@.len() ==> answered(*predicate, l@, r@, res.1@, i, j),
{
    let mut pairs: Vec<(usize, usize)> = Vec::new();
    let ghost mut answers: Map<(int, int), bool> = Map::empty();
    let n = l.len();
    let m = r.len();
    let mut i: usize = 0;
    while i < n
        invariant
            i <= n,
            n == l@.len(),
            m == r@.len(),
            forall|a: &DataType, b: &DataType| call_requires(*predicate, (a, b)),
            as_pairs(pairs@) == nested_pairs(answers, i as nat, m as nat),
            pairs_within(pairs@, n as int, m as int),
            forall|a: int, b: int|
                0 <= a < i && 0 <= b < m ==> #[trigger] answered(*predicate, l@, r@, answers, a, b),
        decreases n - i,
    {
        let mut j: usize = 0;
        while j < m
            invariant
                j <= m,
                i < n,
                n == l@.len(),
                m == r@.len(),
                forall|a: &DataType, b: &DataType| call_requires(*predicate, (a, b)),
                as_pairs(pairs@) == nested_pairs(answers, i as nat, m as nat) + row_pairs(
                    answers,
                    i as int,
                    j as nat,
                ),
                pairs_within(pairs@, n as int, m as int),
                forall|a: int, b: int|
                    0 <= a < i && 0 <= b < m ==> #[trigger] answered(*predicate, l@, r@, answers, a, b),
                forall|b: int|
                    0 <= b < j ==> #[trigger] answered(*predicate, l@, r@, answers, i as int, b),
            decreases m - j,
        {
            let holds = predicate(&l[i], &r[j]);
            let ghost before = answers;
            let ghost held = pairs@;
            proof {
                answers = before.insert((i as int, j as int), holds);
                lemma_nested_pairs_frame(before, answers, i as nat, m as nat);
                lemma_row_pairs_frame(before, answers, i as int, j as nat);
                assert forall|a: int, b: int| 0 <= a < i && 0 <= b < m implies #[trigger] answered(
                    *predicate,
                    l@,
                    r@,
                    answers,
                    a,
                    b,
                ) by {
                    assert(answered(*predicate, l@, r@, before, a, b));
                }
                assert forall|b: int| 0 <= b < j + 1 implies #[trigger] answered(
                    *predicate,
                    l@,
                    r@,
                    answers,
                    i as int,
                    b,
                ) by {
                    if b < j {
                        assert(answered(*predicate, l@, r@, before, i as int, b));
                    }
                }
            }
            if holds {
                pairs.push((i, j));
                assert(as_pairs(pairs@) =~= as_pairs(held).push((i as int, j as int)));
            }
            assert(as_pairs(pairs@) =~= nested_pairs(answers, i as nat, m as nat) + row_pairs(
                answers,
                i as int,
                (j + 1) as nat,
            ));
            j += 1;
        }
        i += 1;
    }
    (pairs, Ghost(answers))
}

/// The matched pairs of right row `j`, whose value is `v`, with the first
/// `n` left rows that hold the same value, by ascending left row.
pub open spec fn column_pairs(
    l: Seq<Value>,
    v: Value,
    answers: Map<(int, int), bool>,
    j: int,
    n: nat,
) -> Seq<(int, int)>
    decreases n,
{
    if n == 0 {
        Seq::<(int, int)>::empty()
    } else if l[n - 1] == v && hit(answers, n - 1, j) {
        column_pairs(l, v, answers, j, (n - 1) as nat).push((n - 1, j))
    } else {
        column_pairs(l, v, answers, j, (n - 1) as nat)
    }
}

/// The pairs that a hash join matches, in the order in which it finds them:
/// for each of the first `m` right rows, in their order, the left rows that
/// hold the same value and of which the predicate holds, in their order.
pub open spec fn hash_pairs(
    l: Seq<Value>,
    r: Seq<Value>,
    answers: Map<(int, int), bool>,
    m: nat,
) -> Seq<(int, int)>
    decreases m,
{
    if m == 0 {
        Seq::<(int, int)>::empty()
    } else {
        hash_pairs(l, r, answers, (m - 1) as nat) + column_pairs(l, r[m - 1], answers, m - 1, l.len())
    }
}

/// The matched pairs of one right row depend on the answers for that row
/// only.
pub proof fn lemma_column_pairs_frame(
    l: Seq<Value>,
    v: Value,
    a: Map<(int, int), bool>,
    b: Map<(int, int), bool>,
    j: int,
    n: nat,
)
    requires
        forall|i: int| 0 <= i < n ==> hit(a, i, j) == hit(b, i, j),
    ensures
        column_pairs(l, v, a, j, n) == column_pairs(l, v, b, j, n),
    decreases n,
{
    if n > 0 {
        lemma_column_pairs_frame(l, v, a, b, j, (n - 1) as nat);
    }
}

/// The pairs of a hash join depend on the answers for its rows only.
pub proof fn lemma_hash_pairs_frame(
    l: Seq<Value>,
    r: Seq<Value>,
    a: Map<(int, int), bool>,
    b: Map<(int, int), bool>,
    m: nat,
)
    requires
        forall|i: int, j: int| 0 <= i < l.len() && 0 <= j < m ==> hit(a, i, j) == hit(b, i, j),
    ensures
        hash_pairs(l, r, a, m) == hash_pairs(l, r, b, m),
    decreases m,
{
    if m > 0 {
        lemma_hash_pairs_frame(l, r, a, b, (m - 1) as nat);
        lemma_column_pairs_frame(l, r[m - 1], a, b, m - 1, l.len());
    }
}

/// The bucket of a value in a hash table of `size` buckets.
pub open spec fn slot(v: Value, size: nat) -> int {
    (value_hash(v) as int) % (size as int)
}

/// The rows among the first `n` whose value falls into bucket `b`, in
/// ascending order.
pub open spec fn bucket(l: Seq<Value>, size: nat, b: int, n: nat) -> Seq<usize>
    decreases n,
{
    if n == 0 {
        Seq::<usize>::empty()
    } else if slot(l[n - 1], size) == b {
        bucket(l, size, b, (n - 1) as nat).push((n - 1) as usize)
    } else {
        bucket(l, size, b, (n - 1) as nat)
    }
}

/// The rows of a bucket are rows below `n`, they ascend, and every row
/// below `n` whose value falls into the bucket is among them.
pub proof fn lemma_bucket_rows(l: Seq<Value>, size: nat, b: int, n: nat)
    requires
        n <= usize::MAX,
    ensures
        forall|t: int| 0 <= t < bucket(l, size, b, n).len() ==> #[trigger] bucket(l, size, b, n)[t] < n,
        forall|s: int, t: int|
            0 <= s < t < bucket(l, size, b, n).len() ==> bucket(l, size, b, n)[s] < bucket(
                l,
                size,
                b,
                n,
            )[t],
        forall|i: int|
            0 <= i < n && slot(l[i], size) == b ==> exists|t: int|
                0 <= t < bucket(l, size, b, n).len() && #[trigger] bucket(l, size, b, n)[t] == i,
    decreases n,
{
    if n > 0 {
        lemma_bucket_rows(l, size, b, (n - 1) as nat);
        let before = bucket(l, size, b, (n - 1) as nat);
        let now = bucket(l, size, b, n);
        assert forall|t: int| 0 <= t < now.len() implies #[trigger] now[t] < n by {
            if t < before.len() {
                assert(now[t] == before[t]);
            }
        }
        assert forall|s: int, t: int| 0 <= s < t < now.len() implies now[s] < now[t] by {
            assert(now[s] == before[s]);
            if t < before.len() {
                assert(now[t] == before[t]);
            }
        }
        assert forall|i: int| 0 <= i < n && slot(l[i], size) == b implies exists|t: int|
            0 <= t < now.len() && #[trigger] now[t] == i by {
            if i < n - 1 {
                let t = choose|t: int| 0 <= t < before.len() && #[trigger] before[t] == i;
                assert(now[t] == i);
            } else {
                assert(now[now.len() - 1] == i);
            }
        }
    }
}

/// The matched pairs of right row `j`, whose value is `v`, with the first
/// `t` rows of the list `rows`.
pub open spec fn listed_pairs(
    l: Seq<Value>,
    v: Value,
    answers: Map<(int, int), bool>,
    j: int,
    rows: Seq<usize>,
    t: nat,
) -> Seq<(int, int)>
    decreases t,
{
    if t == 0 {
        Seq::<(int, int)>::empty()
    } else if l[rows[t - 1] as int] == v && hit(answers, rows[t - 1] as int, j) {
        listed_pairs(l, v, answers, j, rows, (t - 1) as nat).push((rows[t - 1] as int, j))
    } else {
        listed_pairs(l, v, answers, j, rows, (t - 1) as nat)
    }
}

/// Looking through the bucket of a value finds the same pairs as looking
/// through all rows: a row with that value is in that bucket.
pub proof fn lemma_bucket_finds_all(
    l: Seq<Value>,
    v: Value,
    answers: Map<(int, int), bool>,
    j: int,
    size: nat,
    n: nat,
)
    requires
        n <= l.len(),
        n <= usize::MAX,
    ensures
        listed_pairs(
            l,
            v,
            answers,
            j,
            bucket(l, size, slot(v, size), n),
            bucket(l, size, slot(v, size), n).len(),
        ) == column_pairs(l, v, answers, j, n),
    decreases n,
{
    if n > 0 {
        let b = slot(v, size);
        let before = bucket(l, size, b, (n - 1) as nat);
        let now = bucket(l, size, b, n);
        lemma_bucket_finds_all(l, v, answers, j, size, (n - 1) as nat);
        lemma_listed_pairs_prefix(l, v, answers, j, before, now, before.len());
    }
}

/// The pairs found in the first `t` rows of a list depend on those rows
/// only.
pub proof fn lemma_listed_pairs_prefix(
    l: Seq<Value>,
    v: Value,
    answers: Map<(int, int), bool>,
    j: int,
    a: Seq<usize>,
    b: Seq<usize>,
    t: nat,
)
    requires
        t <= a.len(),
        t <= b.len(),
        forall|k: int| 0 <= k < t ==> a[k] == b[k],
    ensures
        listed_pairs(l, v, answers, j, a, t) == listed_pairs(l, v, answers, j, b, t),
    decreases t,
{
    if t > 0 {
        lemma_listed_pairs_prefix(l, v, answers, j, a, b, (t - 1) as nat);
    }
}

/// The pairs found in a list of rows depend on the answers for those rows
/// only.
pub proof fn lemma_listed_pairs_frame(
    l: Seq<Value>,
    v: Value,
    a: Map<(int, int), bool>,
    b: Map<(int, int), bool>,
    j: int,
    rows: Seq<usize>,
    t: nat,
)
    requires
        t <= rows.len(),
        forall|k: int| 0 <= k < t ==> hit(a, rows[k] as int, j) == hit(b, rows[k] as int, j),
    ensures
        listed_pairs(l, v, a, j, rows, t) == listed_pairs(l, v, b, j, rows, t),
    decreases t,
{
    if t > 0 {
        lemma_listed_pairs_frame(l, v, a, b, j, rows, (t - 1) as nat);
    }
}

/// A hash table of the rows of a column: as many buckets as rows, but at
/// least one, each with the rows whose value falls into it.
fn build_buckets(l: &Vec<DataType>) -> (table: Vec<Vec<usize>>)
    ensures
        table@.len() == (if l@.len() == 0 {
            1
        } else {
            l@.len()
        }),
        forall|b: int|
            0 <= b < table@.len() ==> (#[trigger] table@[b])@ == bucket(
                views(l@),
                table@.len(),
                b,
                l@.len(),
            ),
{
    let n = l.len();
    let size = if n == 0 {
        1
    } else {
        n
    };
    let ghost lv = views(l@);
    let mut table: Vec<Vec<usize>> = Vec::new();
    let mut b: usize = 0;
    while b < size
        invariant
            b <= size,
            table@.len() == b,
            forall|k: int| 0 <= k < b ==> (#[trigger] table@[k])@ == Seq::<usize>::empty(),
        decreases size - b,
    {
        table.push(Vec::new());
        b += 1;
    }
    let mut i: usize = 0;
    while i < n
        invariant
            i <= n,
            n == l@.len(),
            lv == views(l@),
            size > 0,
            table@.len() == size,
            forall|k: int|
                0 <= k < size ==> (#[trigger] table@[k])@ == bucket(lv, size as nat, k, i as nat),
        decreases n - i,
    {
        let at = (l[i].hash_code() % (size as u64)) as usize;
        let ghost before = table@;
        let mut rows: Vec<usize> = Vec::new();
        core::mem::swap(&mut table[at], &mut rows);
        rows.push(i);
        core::mem::swap(&mut table[at], &mut rows);
        proof {
            assert(lv[i as int] == l@[i as int]@);
            assert(slot(lv[i as int], size as nat) == at);
            assert forall|k: int| 0 <= k < size implies (#[trigger] table@[k])@ == bucket(
                lv,
                size as nat,
                k,
                (i + 1) as nat,
            ) by {
                assert(before[k]@ == bucket(lv, size as nat, k, i as nat));
            }
        }
        i += 1;
    }
    table
}

/// Asks the predicate about every pair of a right row and a left row with
/// the same value, found through a hash table of the left rows, and lists
/// the pairs of which it holds.
fn hash_matches<F: Fn(&DataType, &DataType) -> bool>(
    l: &Vec<DataType>,
    r: &Vec<DataType>,
    predicate: &F,
) -> (res: (Vec<(usize, usize)>, Ghost<Map<(int, int), bool>>))
    requires
        forall|a: &DataType, b: &DataType| call_requires(*predicate, (a, b)),
    ensures
        as_pairs(res.0@) == hash_pairs(views(l@), views(r@), res.1@, r@.len()),
        pairs_within(res.0@, l@.len() as int, r@.len() as int),
        forall|i: int, j: int|
            0 <= i < l@.len() && 0 <= j < r@.len() && l@[i]@ == r@[j]@ ==> #[trigger] answered(
                *predicate,
                l@,
                r@,
                res.1@,
                i,
                j,
            ),
{
    let table = build_buckets(l);
    let size = table.len();
    let n = l.len();
    let m = r.len();
    let ghost lv = views(l@);
    let ghost rv = views(r@);
    let mut pairs: Vec<(usize, usize)> = Vec::new();
    let ghost mut answers: Map<(int, int), bool> = Map::empty();
    let mut j: usize = 0;
    while j < m
        invariant
            j <= m,
            n == l@.len(),
            m == r@.len(),
            lv == views(l@),
            rv == views(r@),
            size > 0,
            size == table@.len(),
            forall|b: int|
                0 <= b < size ==> (#[trigger] table@[b])@ == bucket(lv, size as nat, b, n as nat),
            forall|a: &DataType, b: &DataType| call_requires(*predicate, (a, b)),
            as_pairs(pairs@) == hash_pairs(lv, rv, answers, j as nat),
            pairs_within(pairs@, n as int, m as int),
            forall|a: int, b: int|
                0 <= a < n && 0 <= b < j && l@[a]@ == r@[b]@ ==> #[trigger] answered(
                    *predicate,
                    l@,
                    r@,
                    answers,
                    a,
                    b,
                ),
        decreases m - j,
    {
        let at = (r[j].hash_code() % (size as u64)) as usize;
        let rows = &table[at];
        let ghost v = rv[j as int];
        proof {
            assert(v == r@[j as int]@);
            assert(slot(v, size as nat) == at);
            lemma_bucket_rows(lv, size as nat, at as int, n as nat);
        }
        let mut t: usize = 0;
        while t < rows.len()
            invariant
                t <= rows.len(),
                j < m,
                n == l@.len(),
                m == r@.len(),
                lv == views(l@),
                rv == views(r@),
                v == rv[j as int],
                v == r@[j as int]@,
                rows@ == bucket(lv, size as nat, at as int, n as nat),
                forall|k: int| 0 <= k < rows@.len() ==> #[trigger] rows@[k] < n,
                forall|s: int, k: int| 0 <= s < k < rows@.len() ==> rows@[s] < rows@[k],
                forall|a: &DataType, b: &DataType| call_requires(*predicate, (a, b)),
                as_pairs(pairs@) == hash_pairs(lv, rv, answers, j as nat) + listed_pairs(
                    lv,
                    v,
                    answers,
                    j as int,
                    rows@,
                    t as nat,
                ),
                pairs_within(pairs@, n as int, m as int),
                forall|a: int, b: int|
                    0 <= a < n && 0 <= b < j && l@[a]@ == r@[b]@ ==> #[trigger] answered(
                        *predicate,
                        l@,
                        r@,
                        answers,
                        a,
                        b,
                    ),
                forall|k: int|
                    0 <= k < t && l@[rows@[k] as int]@ == v ==> #[trigger] answered(
                        *predicate,
                        l@,
                        r@,
                        answers,
                        rows@[k] as int,
                        j as int,
                    ),
            decreases rows.len() - t,
        {
            let i = rows[t];
            assert(lv[i as int] == l@[i as int]@);
            if l[i] == r[j] {
                let holds = predicate(&l[i], &r[j]);
                let ghost before = answers;
                let ghost held = pairs@;
                proof {
                    answers = before.insert((i as int, j as int), holds);
                    lemma_hash_pairs_frame(lv, rv, before, answers, j as nat);
                    lemma_listed_pairs_frame(lv, v, before, answers, j as int, rows@, t as nat);
                    assert forall|a: int, b: int|
                        0 <= a < n && 0 <= b < j && l@[a]@ == r@[b]@ implies #[trigger] answered(
                        *predicate,
                        l@,
                        r@,
                        answers,
                        a,
                        b,
                    ) by {
                        assert(answered(*predicate, l@, r@, before, a, b));
                    }
                    assert forall|k: int|
                        0 <= k < t + 1 && l@[rows@[k] as int]@ == v implies #[trigger] answered(
                        *predicate,
                        l@,
                        r@,
                        answers,
                        rows@[k] as int,
                        j as int,
                    ) by {
                        if k < t {
                            assert(answered(*predicate, l@, r@, before, rows@[k] as int, j as int));
                        }
                    }
                }
                if holds {
                    pairs.push((i, j));
                    assert(as_pairs(pairs@) =~= as_pairs(held).push((i as int, j as int)));
                }
            }
            assert(as_pairs(pairs@) =~= hash_pairs(lv, rv, answers, j as nat) + listed_pairs(
                lv,
                v,
                answers,
                j as int,
                rows@,
                (t + 1) as nat,
            ));
            t += 1;
        }
        proof {
            lemma_bucket_finds_all(lv, v, answers, j as int, size as nat, n as nat);
            assert forall|a: int, b: int|
                0 <= a < n && 0 <= b < j + 1 && l@[a]@ == r@[b]@ implies #[trigger] answered(
                *predicate,
                l@,
                r@,
                answers,
                a,
                b,
            ) by {
                if b == j {
                    assert(lv[a] == v);
                    let k = choose|k: int| 0 <= k < rows@.len() && #[trigger] rows@[k] == a;
                    assert(answered(*predicate, l@, r@, answers, rows@[k] as int, j as int));
                }
            }
        }
        j += 1;
    }
    (pairs, Ghost(answers))
}

/// Whether no value of the column is less than the one before it.
pub open spec fn ascends(col: Seq<Value>) -> bool {
    forall|k: int| 0 < k < col.len() ==> !value_less(#[trigger] col[k], col[k - 1])
}

/// The first row from `k` on that does not hold the value of row `j`, or the
/// number of rows where there is none: the end of the run of row `j`.
pub open spec fn run_end(r: Seq<Value>, j: int, k: int) -> int
    decreases r.len() - k,
{
    if 0 <= j <= k < r.len() && r[k] == r[j] {
        run_end(r, j, k + 1)
    } else {
        k
    }
}

/// The pairs of left row `i` with each of the `count` right rows from `j` on.
pub open spec fn run_pairs(i: int, j: int, count: int) -> Seq<(int, int)> {
    Seq::new(
        if count < 0 {
            0nat
        } else {
            count as nat
        },
        |t: int| (i, j + t),
    )
}

/// The pairs that a merge join matches from the cursors `i` and `j` on, in
/// the order in which it finds them. Where the predicate holds of the two
/// rows at the cursors, the left row is paired with every row of the run of
/// the right row, and the left cursor moves on; else the cursor at the
/// lesser value moves on, the right one where neither is less.
pub open spec fn merge_pairs(
    l: Seq<Value>,
    r: Seq<Value>,
    answers: Map<(int, int), bool>,
    i: int,
    j: int,
) -> Seq<(int, int)>
    decreases l.len() - i + r.len() - j,
{
    if i < 0 || j < 0 || i >= l.len() || j >= r.len() {
        Seq::<(int, int)>::empty()
    } else if hit(answers, i, j) {
        run_pairs(i, j, run_end(r, j, j) - j) + merge_pairs(l, r, answers, i + 1, j)
    } else if value_less(l[i], r[j]) {
        merge_pairs(l, r, answers, i + 1, j)
    } else {
        merge_pairs(l, r, answers, i, j + 1)
    }
}

/// The pairs of rows about which a merge join asks the predicate from the
/// cursors `i` and `j` on, in the order in which it asks.
pub open spec fn merge_asks(
    l: Seq<Value>,
    r: Seq<Value>,
    answers: Map<(int, int), bool>,
    i: int,
    j: int,
) -> Seq<(int, int)>
    decreases l.len() - i + r.len() - j,
{
    if i < 0 || j < 0 || i >= l.len() || j >= r.len() {
        Seq::<(int, int)>::empty()
    } else if hit(answers, i, j) || value_less(l[i], r[j]) {
        seq![(i, j)] + merge_asks(l, r, answers, i + 1, j)
    } else {
        seq![(i, j)] + merge_asks(l, r, answers, i, j + 1)
    }
}

/// Whether `h` holds every answer that `answers` holds.
pub open spec fn extends(h: Map<(int, int), bool>, answers: Map<(int, int), bool>) -> bool {
    forall|c: (int, int)| #[trigger] answers.contains_key(c) ==> h.contains_key(c) && h[c] == answers[c]
}

/// Where the rows from `from` up to `k` hold the value of row `j` and row
/// `k` does not, the run of row `j` ends at `k`.
pub proof fn lemma_run_end(r: Seq<Value>, j: int, from: int, k: int)
    requires
        0 <= j <= from <= k <= r.len(),
        forall|t: int| from <= t < k ==> r[t] == r[j],
        k == r.len() || r[k] != r[j],
    ensures
        run_end(r, j, from) == k,
    decreases k - from,
{
    if from < k {
        lemma_run_end(r, j, from + 1, k);
    }
}

/// Whether no value of the column is less than the one before it.
pub fn is_ascending(col: &Vec<DataType>) -> (r: bool)
    ensures
        r == ascends(views(col@)),
{
    let mut k: usize = 1;
    while k < col.len()
        invariant
            1 <= k,
            forall|t: int| 0 < t < k && t < col@.len() ==> !value_less(#[trigger] views(col@)[t], views(col@)[t - 1]),
        decreases col.len() - k,
    {
        if col[k].less_than(&col[k - 1]) {
            assert(value_less(views(col@)[k as int], views(col@)[k - 1]));
            return false;
        }
        k += 1;
    }
    true
}

/// Pairs left row `i` with every row of the run of right row `j`.
fn push_run(pairs: &mut Vec<(usize, usize)>, r: &Vec<DataType>, i: usize, j: usize, Ghost(n): Ghost<int>)
    requires
        j < r@.len(),
        i < n,
        pairs_within(old(pairs)@, n, r@.len() as int),
    ensures
        as_pairs(final(pairs)@) == as_pairs(old(pairs)@) + run_pairs(
            i as int,
            j as int,
            run_end(views(r@), j as int, j as int) - j,
        ),
        pairs_within(final(pairs)@, n, r@.len() as int),
{
    let ghost rv = views(r@);
    let mut k: usize = j;
    while k < r.len() && r[k] == r[j]
        invariant
            j <= k <= r@.len(),
            j < r@.len(),
            i < n,
            rv == views(r@),
            forall|t: int| j <= t < k ==> rv[t] == rv[j as int],
            as_pairs(pairs@) == as_pairs(old(pairs)@) + run_pairs(i as int, j as int, k - j),
            pairs_within(pairs@, n, r@.len() as int),
        decreases r@.len() - k,
    {
        let ghost held = pairs@;
        pairs.push((i, k));
        proof {
            assert(rv[k as int] == r@[k as int]@);
            assert(as_pairs(pairs@) =~= as_pairs(held).push((i as int, k as int)));
            assert(run_pairs(i as int, j as int, k + 1 - j) =~= run_pairs(i as int, j as int, k - j).push(
                (i as int, k as int),
            ));
        }
        k += 1;
    }
    proof {
        if k < r@.len() {
            assert(rv[k as int] == r@[k as int]@);
            assert(rv[j as int] == r@[j as int]@);
        }
        lemma_run_end(rv, j as int, j as int, k as int);
    }
}

/// Walks two ascending columns with one cursor each and lists the pairs
/// that a merge join matches.
fn merge_matches<F: Fn(&DataType, &DataType) -> bool>(
    l: &Vec<DataType>,
    r: &Vec<DataType>,
    predicate: &F,
) -> (res: (Vec<(usize, usize)>, Ghost<Map<(int, int), bool>>))
    requires
        forall|a: &DataType, b: &DataType| call_requires(*predicate, (a, b)),
    ensures
        as_pairs(res.0@) == merge_pairs(views(l@), views(r@), res.1@, 0, 0),
        pairs_within(res.0@, l@.len() as int, r@.len() as int),
        forall|k: int|
            0 <= k < merge_asks(views(l@), views(r@), res.1@, 0, 0).len() ==> answered(
                *predicate,
                l@,
                r@,
                res.1@,
                (#[trigger] merge_asks(views(l@), views(r@), res.1@, 0, 0)[k]).0,
                merge_asks(views(l@), views(r@), res.1@, 0, 0)[k].1,
            ),
{
    let n = l.len();
    let m = r.len();
    let ghost lv = views(l@);
    let ghost rv = views(r@);
    let mut pairs: Vec<(usize, usize)> = Vec::new();
    let ghost mut answers: Map<(int, int), bool> = Map::empty();
    let ghost mut asked: Seq<(int, int)> = Seq::empty();
    let mut i: usize = 0;
    let mut j: usize = 0;
    proof {
        assert forall|h: Map<(int, int), bool>| #[trigger] extends(h, answers) implies merge_pairs(
            lv,
            rv,
            h,
            0,
            0,
        ) == as_pairs(pairs@) + merge_pairs(lv, rv, h, 0, 0) && merge_asks(lv, rv, h, 0, 0) == asked
            + merge_asks(lv, rv, h, 0, 0) by {
            assert(as_pairs(pairs@) + merge_pairs(lv, rv, h, 0, 0) =~= merge_pairs(lv, rv, h, 0, 0));
            assert(asked + merge_asks(lv, rv, h, 0, 0) =~= merge_asks(lv, rv, h, 0, 0));
        }
    }
    while i < n && j < m
        invariant
            i <= n,
            j <= m,
            n == l@.len(),
            m == r@.len(),
            lv == views(l@),
            rv == views(r@),
            forall|a: &DataType, b: &DataType| call_requires(*predicate, (a, b)),
            pairs_within(pairs@, n as int, m as int),
            forall|h: Map<(int, int), bool>| #[trigger]
                extends(h, answers) ==> merge_pairs(lv, rv, h, 0, 0) == as_pairs(pairs@) + merge_pairs(
                    lv,
                    rv,
                    h,
                    i as int,
                    j as int,
                ) && merge_asks(lv, rv, h, 0, 0) == asked + merge_asks(lv, rv, h, i as int, j as int),
            forall|k: int|
                0 <= k < asked.len() ==> answered(
                    *predicate,
                    l@,
                    r@,
                    answers,
                    (#[trigger] asked[k]).0,
                    asked[k].1,
                ),
            forall|c: (int, int)| #[trigger] answers.contains_key(c) ==> c.0 + c.1 < i + j,
        decreases (n - i) + (m - j),
    {
        let holds = predicate(&l[i], &r[j]);
        let ghost before = answers;
        let ghost was_asked = asked;
        let ghost held = as_pairs(pairs@);
        let ghost i0 = i as int;
        let ghost j0 = j as int;
        proof {
            answers = before.insert((i0, j0), holds);
            asked = was_asked.push((i0, j0));
            assert(lv[i0] == l@[i0]@);
            assert(rv[j0] == r@[j0]@);
            assert forall|k: int| 0 <= k < asked.len() implies answered(
                *predicate,
                l@,
                r@,
                answers,
                (#[trigger] asked[k]).0,
                asked[k].1,
            ) by {
                if k < was_asked.len() {
                    assert(answered(*predicate, l@, r@, before, was_asked[k].0, was_asked[k].1));
                }
            }
        }
        if holds {
            push_run(&mut pairs, r, i, j, Ghost(n as int));
            i += 1;
        } else if l[i].less_than(&r[j]) {
            i += 1;
        } else {
            j += 1;
        }
        proof {
            assert forall|h: Map<(int, int), bool>| #[trigger] extends(h, answers) implies merge_pairs(
                lv,
                rv,
                h,
                0,
                0,
            ) == as_pairs(pairs@) + merge_pairs(lv, rv, h, i as int, j as int) && merge_asks(
                lv,
                rv,
                h,
                0,
                0,
            ) == asked + merge_asks(lv, rv, h, i as int, j as int) by {
                assert(answers.contains_key((i0, j0)));
                assert(extends(h, before)) by {
                    assert forall|c: (int, int)| #[trigger] before.contains_key(c) implies h.contains_key(
                        c,
                    ) && h[c] == before[c] by {
                        assert(c.0 + c.1 < i0 + j0);
                        assert(c != (i0, j0));
                        assert(answers.contains_key(c));
                        assert(answers[c] == before[c]);
                    }
                }
                assert(hit(h, i0, j0) == holds);
                assert(merge_pairs(lv, rv, h, 0, 0) == held + merge_pairs(lv, rv, h, i0, j0));
                assert(merge_asks(lv, rv, h, 0, 0) == was_asked + merge_asks(lv, rv, h, i0, j0));
                assert(as_pairs(pairs@) + merge_pairs(lv, rv, h, i as int, j as int) =~= held
                    + merge_pairs(lv, rv, h, i0, j0));
                assert(asked + merge_asks(lv, rv, h, i as int, j as int) =~= was_asked + merge_asks(
                    lv,
                    rv,
                    h,
                    i0,
                    j0,
                ));
            }
        }
    }
    proof {
        assert(extends(answers, answers));
        assert(as_pairs(pairs@) + merge_pairs(lv, rv, answers, i as int, j as int) =~= as_pairs(pairs@));
        assert(asked + merge_asks(lv, rv, answers, i as int, j as int) =~= asked);
    }
    (pairs, Ghost(answers))
}

/// What a nested-loop join of `left` and `right` by the columns `r_col` and `s_col`
/// gives.
pub open spec fn nested_joins<F: Fn(&DataType, &DataType) -> bool>(
    predicate: F,
    left: ColumnStoreRelation,
    right: ColumnStoreRelation,
    r_col: Seq<char>,
    s_col: Seq<char>,
    r: Result<ColumnStoreRelation, RelationErrors>,
) -> bool {
    match r {
        Ok(out) => left.columns@.contains_key(r_col) && right.columns@.contains_key(
            s_col,
        ) && exists|answers: Map<(int, int), bool>|
            (forall|i: int, j: int|
                0 <= i < left.columns@[r_col]@.len() && 0 <= j
                    < right.columns@[s_col]@.len() ==> #[trigger] answered(
                    predicate,
                    left.columns@[r_col]@,
                    right.columns@[s_col]@,
                    answers,
                    i,
                    j,
                )) && out@ == joined(
                left@,
                right@,
                s_col,
                #[trigger] nested_pairs(
                    answers,
                    left.columns@[r_col]@.len(),
                    right.columns@[s_col]@.len(),
                ),
            ),
        Err(e) => e matches RelationErrors::ColumnNotFound(s) && (if !left.columns@.contains_key(
            r_col,
        ) {
            s@ == r_col
        } else {
            !right.columns@.contains_key(s_col) && s@ == s_col
        }),
    }
}

/// What a hash join of `left` and `right` by the columns `r_col` and `s_col`
/// gives.
pub open spec fn hash_joins<F: Fn(&DataType, &DataType) -> bool>(
    predicate: F,
    left: ColumnStoreRelation,
    right: ColumnStoreRelation,
    r_col: Seq<char>,
    s_col: Seq<char>,
    r: Result<ColumnStoreRelation, RelationErrors>,
) -> bool {
    match r {
        Ok(out) => left.columns@.contains_key(r_col) && right.columns@.contains_key(
            s_col,
        ) && exists|answers: Map<(int, int), bool>|
            (forall|i: int, j: int|
                0 <= i < left.columns@[r_col]@.len() && 0 <= j
                    < right.columns@[s_col]@.len() && left.columns@[r_col]@[i]@
                    == right.columns@[s_col]@[j]@ ==> #[trigger] answered(
                    predicate,
                    left.columns@[r_col]@,
                    right.columns@[s_col]@,
                    answers,
                    i,
                    j,
                )) && out@ == joined(
                left@,
                right@,
                s_col,
                #[trigger] hash_pairs(
                    left@.columns[r_col],
                    right@.columns[s_col],
                    answers,
                    right.columns@[s_col]@.len(),
                ),
            ),
        Err(e) => e matches RelationErrors::ColumnNotFound(s) && (if !left.columns@.contains_key(
            r_col,
        ) {
            s@ == r_col
        } else {
            !right.columns@.contains_key(s_col) && s@ == s_col
        }),
    }
}

/// What a merge join of `left` and `right` by the columns `r_col` and `s_col`
/// gives.
pub open spec fn merge_joins<F: Fn(&DataType, &DataType) -> bool>(
    predicate: F,
    left: ColumnStoreRelation,
    right: ColumnStoreRelation,
    r_col: Seq<char>,
    s_col: Seq<char>,
    r: Result<ColumnStoreRelation, RelationErrors>,
) -> bool {
    match r {
        Ok(out) => left.columns@.contains_key(r_col) && right.columns@.contains_key(
            s_col,
        ) && ascends(left@.columns[r_col]) && ascends(right@.columns[s_col])
            && exists|answers: Map<(int, int), bool>|
            (forall|k: int|
                0 <= k < merge_asks(
                    left@.columns[r_col],
                    right@.columns[s_col],
                    answers,
                    0,
                    0,
                ).len() ==> answered(
                    predicate,
                    left.columns@[r_col]@,
                    right.columns@[s_col]@,
                    answers,
                    (#[trigger] merge_asks(
                        left@.columns[r_col],
                        right@.columns[s_col],
                        answers,
                        0,
                        0,
                    )[k]).0,
                    merge_asks(
                        left@.columns[r_col],
                        right@.columns[s_col],
                        answers,
                        0,
                        0,
                    )[k].1,
                )) && out@ == joined(
                left@,
                right@,
                s_col,
                #[trigger] merge_pairs(
                    left@.columns[r_col],
                    right@.columns[s_col],
                    answers,
                    0,
                    0,
                ),
            ),
        Err(RelationErrors::ColumnNotFound(s)) => if !left.columns@.contains_key(r_col) {
            s@ == r_col
        } else {
            !right.columns@.contains_key(s_col) && s@ == s_col
        },
        Err(RelationErrors::UnsortedInputError) => left.columns@.contains_key(r_col)
            && right.columns@.contains_key(s_col) && !(ascends(left@.columns[r_col])
            && ascends(right@.columns[s_col])),
        Err(_) => false,
    }
}

impl ColumnStoreRelation {
    /// Joins this relation with `other_relation` by asking `predicate` about
    /// every pair of a value of column `r_col` here and a value of column
    /// `s_col` there, left rows outermost, and keeping the pairs of which it
    /// holds in the order in which they are found. Fails with
    /// `ColumnNotFound`, naming `r_col` where this relation does not store
    /// it and else `s_col` where the other does not store it. Where
    /// both are stored, no column that the join shows may be shorter than the
    /// join column of its relation.
    pub fn nested_loop_join<F: Fn(&DataType, &DataType) -> bool>(
        &self,
        other_relation: &ColumnStoreRelation,
        r_col: &str,
        s_col: &str,
        predicate: F,
    ) -> (r: Result<ColumnStoreRelation, RelationErrors>)
        requires
            forall|a: &DataType, b: &DataType| call_requires(predicate, (a, b)),
            join_reaches(*self, *other_relation, r_col@, s_col@),
        ensures
            nested_joins(predicate, *self, *other_relation, r_col@, s_col@, r),
    {
        let l = match self.columns.get(r_col) {
            Some(col) => col,
            None => {
                return Err(RelationErrors::ColumnNotFound(r_col.to_string()));
            },
        };
        let r = match other_relation.columns.get(s_col) {
            Some(col) => col,
            None => {
                return Err(RelationErrors::ColumnNotFound(s_col.to_string()));
            },
        };
        let (pairs, Ghost(answers)) = nested_matches(l, r, &predicate);
        proof {
            lemma_join_reads_within(*self, *other_relation, r_col@, s_col@, pairs@);
        }
        let out = build_join(self, other_relation, s_col, &pairs);
        Ok(out)
    }

    /// Joins this relation with `other_relation` through a hash table of the
    /// values of column `r_col` here: for each value of column `s_col`
    /// there, in row order, the rows here that hold an equal value are
    /// looked up, in row order, and `predicate` is asked about each such
    /// pair; the pairs of which it holds are kept in that order. Equal
    /// values have equal hashes, so no such pair is missed. Fails with
    /// `ColumnNotFound`, naming `r_col` where this relation does not store
    /// it and else `s_col` where the other does not store it. Where
    /// both are stored, no column that the join shows may be shorter than the
    /// join column of its relation.
    pub fn hash_join<F: Fn(&DataType, &DataType) -> bool>(
        &self,
        other_relation: &ColumnStoreRelation,
        r_col: &str,
        s_col: &str,
        predicate: F,
    ) -> (r: Result<ColumnStoreRelation, RelationErrors>)
        requires
            forall|a: &DataType, b: &DataType| call_requires(predicate, (a, b)),
            join_reaches(*self, *other_relation, r_col@, s_col@),
        ensures
            hash_joins(predicate, *self, *other_relation, r_col@, s_col@, r),
    {
        let l = match self.columns.get(r_col) {
            Some(col) => col,
            None => {
                return Err(RelationErrors::ColumnNotFound(r_col.to_string()));
            },
        };
        let r = match other_relation.columns.get(s_col) {
            Some(col) => col,
            None => {
                return Err(RelationErrors::ColumnNotFound(s_col.to_string()));
            },
        };
        let (pairs, Ghost(answers)) = hash_matches(l, r, &predicate);
        proof {
            lemma_join_reads_within(*self, *other_relation, r_col@, s_col@, pairs@);
        }
        let out = build_join(self, other_relation, s_col, &pairs);
        proof {
            assert(self@.columns[r_col@] == views(l@));
            assert(other_relation@.columns[s_col@] == views(r@));
            assert(out@ == joined(
                self@,
                other_relation@,
                s_col@,
                hash_pairs(
                    self@.columns[r_col@],
                    other_relation@.columns[s_col@],
                    answers,
                    other_relation.columns@[s_col@]@.len(),
                ),
            ));
        }
        Ok(out)
    }

    /// Joins this relation with `other_relation` by walking column `r_col`
    /// here and column `s_col` there with one cursor each. Both columns have
    /// to ascend in the order of all values; where one does not, the join
    /// fails with `UnsortedInputError`. Where `predicate` holds of the two
    /// values at the cursors, the row here is paired with every row of the
    /// run of equal values that starts at the cursor there, and the cursor
    /// here moves on; else the cursor at the lesser value moves on, the one
    /// there where neither value is less. The caller sees to it that the
    /// predicate fits the order, as equality does. Fails with
    /// `ColumnNotFound`, naming `r_col` where this relation does not store
    /// it and else `s_col` where the other does not store it. Where
    /// both are stored, no column that the join shows may be shorter than the
    /// join column of its relation.
    pub fn merge_join<F: Fn(&DataType, &DataType) -> bool>(
        &self,
        other_relation: &ColumnStoreRelation,
        r_col: &str,
        s_col: &str,
        predicate: F,
    ) -> (r: Result<ColumnStoreRelation, RelationErrors>)
        requires
            forall|a: &DataType, b: &DataType| call_requires(predicate, (a, b)),
            join_reaches(*self, *other_relation, r_col@, s_col@),
        ensures
            merge_joins(predicate, *self, *other_relation, r_col@, s_col@, r),
    {
        let l = match self.columns.get(r_col) {
            Some(col) => col,
            None => {
                return Err(RelationErrors::ColumnNotFound(r_col.to_string()));
            },
        };
        let r = match other_relation.columns.get(s_col) {
            Some(col) => col,
            None => {
                return Err(RelationErrors::ColumnNotFound(s_col.to_string()));
            },
        };
        proof {
            assert(self@.columns[r_col@] == views(l@));
            assert(other_relation@.columns[s_col@] == views(r@));
        }
        let left_sorted = is_ascending(l);
        let right_sorted = is_ascending(r);
        if !left_sorted || !right_sorted {
            return Err(RelationErrors::UnsortedInputError);
        }
        let (pairs, Ghost(answers)) = merge_matches(l, r, &predicate);
        proof {
            lemma_join_reads_within(*self, *other_relation, r_col@, s_col@, pairs@);
        }
        let out = build_join(self, other_relation, s_col, &pairs);
        proof {
            assert(out@ == joined(
                self@,
                other_relation@,
                s_col@,
                merge_pairs(self@.columns[r_col@], other_relation@.columns[s_col@], answers, 0, 0),
            ));
        }
        Ok(out)
    }
}

} // verus!
