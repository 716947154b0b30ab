use vstd::prelude::*;
use crate::dtype::{views, DataType, Value};
use crate::errors::RelationErrors;
use crate::interface::{
    column_table, field_table, index_table, indices_table, slice_texts, texts, ColumnStoreRelation,
    Table,
};
use crate::textmap::{lemma_distinct, place_of, TextMap};

verus! {

/// Whether row `i` is one that `mask` marks, for `flag` true, or one that it
/// does not mark, for `flag` false. A row beyond the end of the mask is not
/// marked.
pub open spec fn wanted(mask: Seq<bool>, flag: bool, i: int) -> bool {
    (0 <= i < mask.len() && mask[i]) == flag
}

/// The wanted rows among the first `n`, in ascending order.
pub open spec fn positions(n: nat, mask: Seq<bool>, flag: bool) -> Seq<int>
    decreases n,
{
    if n == 0 {
        Seq::<int>::empty()
    } else if wanted(mask, flag, n - 1) {
        positions((n - 1) as nat, mask, flag).push(n - 1)
    } else {
        positions((n - 1) as nat, mask, flag)
    }
}

/// The entries of `col` at the places `at`, in the order of `at`.
pub open spec fn pick<A>(col: Seq<A>, at: Seq<int>) -> Seq<A> {
    Seq::new(at.len(), |k: int| col[at[k]])
}

/// What a predicate answered on each value of a column: `answers` holds, for
/// every row, a result that a call of `f` on the value of that row has.
pub open spec fn agrees<F: Fn(&DataType) -> bool>(f: F, col: Seq<DataType>, answers: Seq<bool>) -> bool {
    &&& answers.len() == col.len()
    &&& forall|i: int| 0 <= i < col.len() ==> call_ensures(f, (&col[i],), #[trigger] answers[i])
}

/// The wanted rows are rows below `n`, and they ascend.
pub proof fn lemma_positions(n: nat, mask: Seq<bool>, flag: bool)
    ensures
        positions(n, mask, flag).len() <= n,
        forall|k: int|
            0 <= k < positions(n, mask, flag).len() ==> 0 <= #[trigger] positions(n, mask, flag)[k]
                < n && wanted(mask, flag, positions(n, mask, flag)[k]),
        forall|k: int, l: int|
            0 <= k < l < positions(n, mask, flag).len() ==> positions(n, mask, flag)[k]
                < positions(n, mask, flag)[l],
        forall|i: int|
            0 <= i < n && wanted(mask, flag, i) ==> positions(n, mask, flag).contains(i),
    decreases n,
{
    if n > 0 {
        lemma_positions((n - 1) as nat, mask, flag);
        let before = positions((n - 1) as nat, mask, flag);
        let now = positions(n, mask, flag);
        assert forall|i: int| 0 <= i < n && wanted(mask, flag, i) implies now.contains(i) by {
            if i < n - 1 {
                let k = choose|k: int| 0 <= k < before.len() && before[k] == i;
                assert(now[k] == i);
            } else {
                assert(now[now.len() - 1] == i);
            }
        }
    }
}

/// The values of the wanted rows of a column, in their order.
pub fn take_rows(col: &Vec<DataType>, mask: &Vec<bool>, flag: bool) -> (r: Vec<DataType>)
    ensures
        views(r@) == pick(views(col@), positions(col@.len(), mask@, flag)),
{
    let mut out: Vec<DataType> = Vec::new();
    let mut j: usize = 0;
    while j < col.len()
        invariant
            j <= col.len(),
            views(out@) == pick(views(col@), positions(j as nat, mask@, flag)),
        decreases col.len() - j,
    {
        let marked = j < mask.len() && mask[j];
        if marked == flag {
            let ghost before = out@;
            let value = col[j].clone();
            out.push(value);
            proof {
                let at = positions(j as nat, mask@, flag);
                assert(wanted(mask@, flag, j as int));
                assert(positions((j + 1) as nat, mask@, flag) == at.push(j as int));
                assert(views(out@) =~= views(before).push(value@));
                assert(views(col@)[j as int] == value@);
                assert(pick(views(col@), at.push(j as int)) =~= pick(views(col@), at).push(value@));
            }
        } else {
            assert(!wanted(mask@, flag, j as int));
        }
        j += 1;
    }
    out
}

/// What `predicate` answers on each value of a column, asked once per value
/// from the first row to the last.
pub fn ask_each<F: Fn(&DataType) -> bool>(col: &Vec<DataType>, predicate: &F) -> (r: Vec<bool>)
    requires
        forall|d: &DataType| call_requires(*predicate, (d,)),
    ensures
        agrees(*predicate, col@, r@),
{
    let mut out: Vec<bool> = Vec::new();
    let mut i: usize = 0;
    while i < col.len()
        invariant
            i <= col.len(),
            out.len() == i,
            forall|d: &DataType| call_requires(*predicate, (d,)),
            forall|k: int| 0 <= k < i ==> call_ensures(*predicate, (&col@[k],), #[trigger] out@[k]),
        decreases col.len() - i,
    {
        let b = predicate(&col[i]);
        out.push(b);
        i += 1;
    }
    out
}

/// The number of marked rows below row `r`: the row that row `r` becomes
/// when only the marked rows are kept.
pub open spec fn rank(mask: Seq<bool>, r: int) -> int {
    if r <= 0 {
        0
    } else {
        positions(r as nat, mask, true).len() as int
    }
}

/// The rows of an index entry after a selection: the rows that are kept, each
/// under the number it has among the kept rows.
pub open spec fn moved_rows(rows: Seq<usize>, mask: Seq<bool>) -> Seq<usize>
    decreases rows.len(),
{
    if rows.len() == 0 {
        Seq::<usize>::empty()
    } else if wanted(mask, true, rows.last() as int) {
        moved_rows(rows.drop_last(), mask).push(rank(mask, rows.last() as int) as usize)
    } else {
        moved_rows(rows.drop_last(), mask)
    }
}

/// An index after a selection: every entry with its rows moved, and no entry
/// that is left without rows.
pub open spec fn moved_index(ix: Map<Seq<char>, Seq<usize>>, mask: Seq<bool>) -> Map<
    Seq<char>,
    Seq<usize>,
> {
    Map::new(
        |k: Seq<char>| ix.contains_key(k) && moved_rows(ix[k], mask).len() > 0,
        |k: Seq<char>| moved_rows(ix[k], mask),
    )
}

/// The indices of a relation after a selection.
pub open spec fn moved_indices(ixs: Map<Seq<char>, Map<Seq<char>, Seq<usize>>>, mask: Seq<bool>) -> Map<
    Seq<char>,
    Map<Seq<char>, Seq<usize>>,
> {
    Map::new(|k: Seq<char>| ixs.contains_key(k), |k: Seq<char>| moved_index(ixs[k], mask))
}

/// The columns of a relation with each column cut down to its wanted rows.
pub open spec fn kept_columns(cols: Map<Seq<char>, Seq<Value>>, mask: Seq<bool>, flag: bool) -> Map<
    Seq<char>,
    Seq<Value>,
> {
    Map::new(
        |k: Seq<char>| cols.contains_key(k),
        |k: Seq<char>| pick(cols[k], positions(cols[k].len(), mask, flag)),
    )
}

/// The relation that keeps the rows which `mask` marks: every column holds
/// its values at the marked rows, in their order, and every index follows.
/// Name, display schema and metadata stay.
pub open spec fn select_of(t: Table, mask: Seq<bool>) -> Table {
    Table {
        name: t.name,
        fields: t.fields,
        columns: kept_columns(t.columns, mask, true),
        display: t.display,
        indices: moved_indices(t.indices, mask),
    }
}

/// A relation without columns, display schema, metadata or indices, under
/// the empty name.
pub open spec fn empty_table() -> Table {
    Table {
        name: Seq::<char>::empty(),
        fields: Map::<Seq<char>, Value>::empty(),
        columns: Map::<Seq<char>, Seq<Value>>::empty(),
        display: Seq::<Seq<char>>::empty(),
        indices: Map::<Seq<char>, Map<Seq<char>, Seq<usize>>>::empty(),
    }
}

/// A copy of a column.
pub fn copy_column(col: &Vec<DataType>) -> (r: Vec<DataType>)
    ensures
        views(r@) == views(col@),
{
    let mut out: Vec<DataType> = Vec::new();
    let mut i: usize = 0;
    while i < col.len()
        invariant
            i <= col.len(),
            views(out@) == views(col@.take(i as int)),
        decreases col.len() - i,
    {
        let ghost before = out@;
        let value = col[i].clone();
        out.push(value);
        proof {
            assert(views(out@) =~= views(before).push(value@));
            assert(views(col@.take(i + 1)) =~= views(col@.take(i as int)).push(col@[i as int]@));
        }
        i += 1;
    }
    assert(col@.take(i as int) =~= col@);
    out
}

/// A copy of a list of names.
pub fn copy_names(names: &Vec<String>) -> (r: Vec<String>)
    ensures
        texts(r@) == texts(names@),
{
    let mut out: Vec<String> = Vec::new();
    let mut i: usize = 0;
    while i < names.len()
        invariant
            i <= names.len(),
            texts(out@) == texts(names@.take(i as int)),
        decreases names.len() - i,
    {
        let ghost before = out@;
        let name = names[i].clone();
        out.push(name);
        proof {
            assert(texts(out@) =~= texts(before).push(name@));
            assert(texts(names@.take(i + 1)) =~= texts(names@.take(i as int)).push(names@[i as int]@));
        }
        i += 1;
    }
    assert(names@.take(i as int) =~= names@);
    out
}

/// A copy of the metadata of a relation.
pub fn copy_fields(fields: &TextMap<DataType>) -> (r: TextMap<DataType>)
    ensures
        field_table(r@) == field_table(fields@),
{
    let mut out: TextMap<DataType> = TextMap::new();
    let n = fields.len();
    let mut i: usize = 0;
    while i < n
        invariant
            i <= n,
            n == fields.names().len(),
            fields.ordered(),
            forall|k: Seq<char>| out@.contains_key(k) <==> fields.names().take(i as int).contains(k),
            forall|j: int| 0 <= j < i ==> (#[trigger] out@[fields.names()[j]])@ == fields.values()[j]@,
        decreases n - i,
    {
        let ghost before = out@;
        let name = fields.name_at(i).to_string();
        let value = fields.value_at(i).clone();
        out.insert(name, value);
        proof {
            let names = fields.names();
            assert(names.take(i + 1) =~= names.take(i as int).push(names[i as int]));
            assert forall|k: Seq<char>| out@.contains_key(k) <==> names.take(i + 1).contains(k) by {
                if names.take(i as int).contains(k) {
                    let j = choose|j: int| 0 <= j < i && names.take(i as int)[j] == k;
                    assert(names.take(i + 1)[j] == k);
                }
                if k == names[i as int] {
                    assert(names.take(i + 1)[i as int] == k);
                }
            }
            assert forall|j: int| 0 <= j < i + 1 implies (#[trigger] out@[names[j]])@
                == fields.values()[j]@ by {
                if j < i {
                    lemma_distinct(names, j, i as int);
                }
            }
        }
        i += 1;
    }
    proof {
        let names = fields.names();
        assert(names.take(n as int) =~= names);
        assert forall|k: Seq<char>| fields@.contains_key(k) implies (#[trigger] out@[k])@
            == fields@[k]@ by {
            let j = place_of(names, k);
            assert(names[j] == k);
        }
        assert(field_table(out@) =~= field_table(fields@));
    }
    out
}

/// Every column cut down to its wanted rows.
pub fn keep_columns(columns: &TextMap<Vec<DataType>>, mask: &Vec<bool>, flag: bool) -> (r: TextMap<
    Vec<DataType>,
>)
    ensures
        column_table(r@) == kept_columns(column_table(columns@), mask@, flag),
{
    let mut out: TextMap<Vec<DataType>> = TextMap::new();
    let n = columns.len();
    let mut i: usize = 0;
    while i < n
        invariant
            i <= n,
            n == columns.names().len(),
            columns.ordered(),
            forall|k: Seq<char>| out@.contains_key(k) <==> columns.names().take(i as int).contains(k),
            forall|j: int|
                0 <= j < i ==> views((#[trigger] out@[columns.names()[j]])@) == pick(
                    views(columns.values()[j]@),
                    positions(columns.values()[j]@.len(), mask@, flag),
                ),
        decreases n - i,
    {
        let name = columns.name_at(i).to_string();
        let rows = take_rows(columns.value_at(i), mask, flag);
        out.insert(name, rows);
        proof {
            let names = columns.names();
            assert(names.take(i + 1) =~= names.take(i as int).push(names[i as int]));
            assert forall|k: Seq<char>| out@.contains_key(k) <==> names.take(i + 1).contains(k) by {
                if names.take(i as int).contains(k) {
                    let j = choose|j: int| 0 <= j < i && names.take(i as int)[j] == k;
                    assert(names.take(i + 1)[j] == k);
                }
                if k == names[i as int] {
                    assert(names.take(i + 1)[i as int] == k);
                }
            }
            assert forall|j: int| 0 <= j < i + 1 implies views((#[trigger] out@[names[j]])@) == pick(
                views(columns.values()[j]@),
                positions(columns.values()[j]@.len(), mask@, flag),
            ) by {
                if j < i {
                    lemma_distinct(names, j, i as int);
                }
            }
        }
        i += 1;
    }
    proof {
        let names = columns.names();
        assert(names.take(n as int) =~= names);
        let goal = kept_columns(column_table(columns@), mask@, flag);
        assert forall|k: Seq<char>| columns@.contains_key(k) implies views((#[trigger] out@[k])@)
            == goal[k] by {
            let j = place_of(names, k);
            assert(names[j] == k);
        }
        assert(column_table(out@) =~= goal);
    }
    out
}

/// For each row of a mask and for the row after its last, the number of
/// marked rows below it.
pub fn count_marked(mask: &Vec<bool>) -> (r: Vec<usize>)
    ensures
        r@.len() == mask@.len() + 1,
        forall|i: int| 0 <= i <= mask@.len() ==> #[trigger] r@[i] == rank(mask@, i),
{
    let mut out: Vec<usize> = Vec::new();
    out.push(0);
    let mut i: usize = 0;
    while i < mask.len()
        invariant
            i <= mask.len(),
            out@.len() == i + 1,
            forall|k: int| 0 <= k <= i ==> #[trigger] out@[k] == rank(mask@, k),
        decreases mask.len() - i,
    {
        proof {
            lemma_positions(i as nat, mask@, true);
        }
        let below = out[i];
        let next = if mask[i] {
            below + 1
        } else {
            below
        };
        out.push(next);
        i += 1;
    }
    out
}

/// The rows of one index entry after a selection.
fn move_rows(rows: &Vec<usize>, mask: &Vec<bool>, ranks: &Vec<usize>) -> (r: Vec<usize>)
    requires
        ranks@.len() == mask@.len() + 1,
        forall|i: int| 0 <= i <= mask@.len() ==> #[trigger] ranks@[i] == rank(mask@, i),
    ensures
        r@ == moved_rows(rows@, mask@),
{
    let mut out: Vec<usize> = Vec::new();
    let mut i: usize = 0;
    while i < rows.len()
        invariant
            i <= rows.len(),
            ranks@.len() == mask@.len() + 1,
            forall|k: int| 0 <= k <= mask@.len() ==> #[trigger] ranks@[k] == rank(mask@, k),
            out@ == moved_rows(rows@.take(i as int), mask@),
        decreases rows.len() - i,
    {
        let row = rows[i];
        proof {
            assert(rows@.take(i + 1).drop_last() =~= rows@.take(i as int));
            assert(rows@.take(i + 1).last() == row);
        }
        if row < mask.len() && mask[row] {
            out.push(ranks[row]);
        }
        i += 1;
    }
    assert(rows@.take(i as int) =~= rows@);
    out
}

/// One index after a selection.
fn move_index(ix: &TextMap<Vec<usize>>, mask: &Vec<bool>, ranks: &Vec<usize>) -> (r: TextMap<
    Vec<usize>,
>)
    requires
        ranks@.len() == mask@.len() + 1,
        forall|i: int| 0 <= i <= mask@.len() ==> #[trigger] ranks@[i] == rank(mask@, i),
    ensures
        index_table(r@) == moved_index(index_table(ix@), mask@),
{
    let mut out: TextMap<Vec<usize>> = TextMap::new();
    let n = ix.len();
    let mut i: usize = 0;
    while i < n
        invariant
            i <= n,
            n == ix.names().len(),
            ix.ordered(),
            ranks@.len() == mask@.len() + 1,
            forall|k: int| 0 <= k <= mask@.len() ==> #[trigger] ranks@[k] == rank(mask@, k),
            forall|k: Seq<char>|
                out@.contains_key(k) <==> exists|j: int|
                    0 <= j < i && #[trigger] ix.names()[j] == k && moved_rows(
                        ix.values()[j]@,
                        mask@,
                    ).len() > 0,
            forall|j: int|
                0 <= j < i && moved_rows(ix.values()[j]@, mask@).len() > 0 ==> (
                #[trigger] out@[ix.names()[j]])@ == moved_rows(ix.values()[j]@, mask@),
        decreases n - i,
    {
        let rows = move_rows(ix.value_at(i), mask, ranks);
        if rows.len() > 0 {
            let name = ix.name_at(i).to_string();
            out.insert(name, rows);
            proof {
                let names = ix.names();
                assert forall|j: int|
                    0 <= j < i + 1 && moved_rows(ix.values()[j]@, mask@).len() > 0 implies (
                #[trigger] out@[names[j]])@ == moved_rows(ix.values()[j]@, mask@) by {
                    if j < i {
                        lemma_distinct(names, j, i as int);
                    }
                }
            }
        }
        i += 1;
    }
    proof {
        let names = ix.names();
        let goal = moved_index(index_table(ix@), mask@);
        assert forall|k: Seq<char>| index_table(out@).contains_key(k) <==> goal.contains_key(
            k,
        ) by {
            if out@.contains_key(k) {
                let j = choose|j: int|
                    0 <= j < n && #[trigger] names[j] == k && moved_rows(ix.values()[j]@, mask@).len()
                        > 0;
                ix.lemma_entry(j);
            }
            if goal.contains_key(k) {
                let j = place_of(names, k);
                assert(names[j] == k);
            }
        }
        assert forall|k: Seq<char>| goal.contains_key(k) implies (#[trigger] out@[k])@ == goal[k] by {
            let j = place_of(names, k);
            assert(names[j] == k);
        }
        assert(index_table(out@) =~= goal);
    }
    out
}

/// The indices of a relation after a selection.
fn move_indices(ixs: &TextMap<TextMap<Vec<usize>>>, mask: &Vec<bool>) -> (r: TextMap<
    TextMap<Vec<usize>>,
>)
    ensures
        indices_table(r@) == moved_indices(indices_table(ixs@), mask@),
{
    let ranks = count_marked(mask);
    let mut out: TextMap<TextMap<Vec<usize>>> = TextMap::new();
    let n = ixs.len();
    let mut i: usize = 0;
    while i < n
        invariant
            i <= n,
            n == ixs.names().len(),
            ixs.ordered(),
            ranks@.len() == mask@.len() + 1,
            forall|k: int| 0 <= k <= mask@.len() ==> #[trigger] ranks@[k] == rank(mask@, k),
            forall|k: Seq<char>| out@.contains_key(k) <==> ixs.names().take(i as int).contains(k),
            forall|j: int|
                0 <= j < i ==> index_table((#[trigger] out@[ixs.names()[j]])@) == moved_index(
                    index_table(ixs.values()[j]@),
                    mask@,
                ),
        decreases n - i,
    {
        let name = ixs.name_at(i).to_string();
        let moved = move_index(ixs.value_at(i), mask, &ranks);
        out.insert(name, moved);
        proof {
            let names = ixs.names();
            assert(names.take(i + 1) =~= names.take(i as int).push(names[i as int]));
            assert forall|k: Seq<char>| out@.contains_key(k) <==> names.take(i + 1).contains(k) by {
                if names.take(i as int).contains(k) {
                    let j = choose|j: int| 0 <= j < i && names.take(i as int)[j] == k;
                    assert(names.take(i + 1)[j] == k);
                }
                if k == names[i as int] {
                    assert(names.take(i + 1)[i as int] == k);
                }
            }
            assert forall|j: int| 0 <= j < i + 1 implies index_table((#[trigger] out@[names[j]])@)
                == moved_index(index_table(ixs.values()[j]@), mask@) by {
                if j < i {
                    lemma_distinct(names, j, i as int);
                }
            }
        }
        i += 1;
    }
    proof {
        let names = ixs.names();
        assert(names.take(n as int) =~= names);
        let goal = moved_indices(indices_table(ixs@), mask@);
        assert forall|k: Seq<char>| ixs@.contains_key(k) implies index_table((#[trigger] out@[k])@)
            == goal[k] by {
            let j = place_of(names, k);
            assert(names[j] == k);
        }
        assert(indices_table(out@) =~= goal);
    }
    out
}

/// The relation that holds only the columns `request` names, displayed in
/// the order of `request`, without metadata and without indices.
pub open spec fn project_of(t: Table, request: Seq<Seq<char>>) -> Table {
    Table {
        name: t.name,
        fields: Map::<Seq<char>, Value>::empty(),
        columns: Map::new(|k: Seq<char>| request.contains(k), |k: Seq<char>| t.columns[k]),
        display: request,
        indices: Map::<Seq<char>, Map<Seq<char>, Seq<usize>>>::empty(),
    }
}

/// The relation without the rows which `mask` marks: every column holds its
/// values at the other rows, in their order. The indices stay as they are.
pub open spec fn delete_of(t: Table, mask: Seq<bool>) -> Table {
    Table { columns: kept_columns(t.columns, mask, false), ..t }
}

/// The number of rows that `mask` marks.
pub open spec fn marked(mask: Seq<bool>) -> nat {
    positions(mask.len(), mask, true).len()
}

/// The columns after the first `k` values of a tuple were appended, the
/// value at place `i` to the column that `display` names at place `i`.
pub open spec fn appended(
    cols: Map<Seq<char>, Seq<Value>>,
    display: Seq<Seq<char>>,
    values: Seq<Value>,
    k: nat,
) -> Map<Seq<char>, Seq<Value>>
    decreases k,
{
    if k == 0 {
        cols
    } else {
        let before = appended(cols, display, values, (k - 1) as nat);
        before.insert(display[k - 1], before[display[k - 1]].push(values[k - 1]))
    }
}

/// The first place of `request` that names no column of `cols`, if any.
pub open spec fn first_missing(cols: Map<Seq<char>, Seq<Value>>, request: Seq<Seq<char>>, i: int) -> bool {
    &&& 0 <= i < request.len()
    &&& !cols.contains_key(request[i])
    &&& forall|j: int| 0 <= j < i ==> cols.contains_key(#[trigger] request[j])
}

/// What a selection by `column` with `predicate` gives of the relation
/// `before`: the rows on which the predicate holds, or `ColumnNotFound`
/// exactly where the column is not stored.
pub open spec fn selects<F: Fn(&DataType) -> bool>(
    predicate: F,
    before: ColumnStoreRelation,
    column: Seq<char>,
    r: Result<ColumnStoreRelation, RelationErrors>,
) -> bool {
    match r {
        Ok(out) => before.columns@.contains_key(column) && exists|answers: Seq<bool>|
            #[trigger] agrees(predicate, before.columns@[column]@, answers) && out@ == select_of(
                before@,
                answers,
            ),
        Err(e) => !before.columns@.contains_key(column) && (e matches RelationErrors::ColumnNotFound(s)
            && s@ == column),
    }
}

/// What a projection onto the columns `request` gives of the relation `t`:
/// those columns, or `ColumnNotFound` with the first requested column that
/// is not stored, exactly where there is one.
pub open spec fn projects(
    t: Table,
    request: Seq<Seq<char>>,
    r: Result<ColumnStoreRelation, RelationErrors>,
) -> bool {
    match r {
        Ok(out) => (forall|i: int| 0 <= i < request.len() ==> t.columns.contains_key(#[trigger] request[i]))
            && out@ == project_of(t, request),
        Err(e) => exists|i: int|
            #[trigger] first_missing(t.columns, request, i) && (e matches RelationErrors::ColumnNotFound(
                s,
            ) && s@ == request[i]),
    }
}

/// What appending the row `values` makes of the relation `before`: `after`
/// holds one value more in each displayed column, or is `before` itself
/// where the row does not fit, which gives `InvalidInput` for a row with
/// another number of values than columns are displayed, and else
/// `ColumnNotFound` with the first displayed column that is not stored.
pub open spec fn adds(
    before: ColumnStoreRelation,
    after: ColumnStoreRelation,
    values: Seq<Value>,
    r: Result<(), RelationErrors>,
) -> bool {
    match r {
        Ok(_) => values.len() == before@.display.len() && (forall|i: int|
            0 <= i < before@.display.len() ==> before@.columns.contains_key(
                #[trigger] before@.display[i],
            )) && after@ == (Table {
            columns: appended(before@.columns, before@.display, values, values.len()),
            ..before@
        }),
        Err(RelationErrors::InvalidInput(s)) => values.len() != before@.display.len() && s@
            == "Tuple does not match relation schema"@ && after == before,
        Err(RelationErrors::ColumnNotFound(s)) => values.len() == before@.display.len() && after
            == before && exists|i: int|
            #[trigger] first_missing(before@.columns, before@.display, i) && s@ == before@.display[i],
        Err(_) => false,
    }
}

/// What deleting the rows on which `predicate` holds of the value in
/// `column` makes of the relation `before`: `after` holds the other rows,
/// and the result is the number of rows deleted; or `after` is `before`
/// itself where the column is not stored, which gives `ColumnNotFound`.
pub open spec fn deletes<F: Fn(&DataType) -> bool>(
    predicate: F,
    before: ColumnStoreRelation,
    after: ColumnStoreRelation,
    column: Seq<char>,
    r: Result<usize, RelationErrors>,
) -> bool {
    match r {
        Ok(count) => before.columns@.contains_key(column) && exists|answers: Seq<bool>|
            #[trigger] agrees(predicate, before.columns@[column]@, answers) && after@ == delete_of(
                before@,
                answers,
            ) && count == marked(answers),
        Err(e) => !before.columns@.contains_key(column) && after == before && (
        e matches RelationErrors::ColumnNotFound(s) && s@ == column),
    }
}

/// The number of rows of the first stored column of a relation, or zero
/// where no column is stored.
pub open spec fn first_height(rel: ColumnStoreRelation) -> nat {
    if rel.columns.names().len() == 0 {
        0
    } else {
        rel.columns@[rel.columns.names()[0]]@.len()
    }
}

/// The number of marked rows.
pub fn count_true(mask: &Vec<bool>) -> (r: usize)
    ensures
        r == marked(mask@),
{
    let mut n: usize = 0;
    let mut i: usize = 0;
    while i < mask.len()
        invariant
            i <= mask.len(),
            n == positions(i as nat, mask@, true).len(),
        decreases mask.len() - i,
    {
        proof {
            lemma_positions(i as nat, mask@, true);
        }
        if mask[i] {
            n += 1;
        }
        i += 1;
    }
    n
}

impl ColumnStoreRelation {
    /// A relation without columns, display schema, metadata or indices.
    pub fn new() -> (r: ColumnStoreRelation)
        ensures
            r@ == empty_table(),
    {
        let r = ColumnStoreRelation {
            name: String::new(),
            fields: TextMap::new(),
            columns: TextMap::new(),
            select_columns: Vec::new(),
            indices: TextMap::new(),
        };
        proof {
            assert(r@.fields =~= empty_table().fields);
            assert(r@.columns =~= empty_table().columns);
            assert(r@.display =~= empty_table().display);
            assert(r@.indices =~= empty_table().indices);
        }
        r
    }

    /// The stored columns.
    pub fn get_columns(&self) -> (r: &TextMap<Vec<DataType>>)
        ensures
            *r == self.columns,
    {
        &self.columns
    }

    /// The name of the relation.
    pub fn get_table_name(&self) -> (r: String)
        ensures
            r@ == self.name@,
    {
        self.name.clone()
    }

    /// The display schema.
    pub fn get_select_columns(&self) -> (r: &Vec<String>)
        ensures
            *r == self.select_columns,
    {
        &self.select_columns
    }

    /// The rows on which `predicate` holds of the value in column
    /// `column_name`, as a relation of its own. The predicate is asked once
    /// per row, from the first to the last. Every column keeps its values at
    /// those rows, in their order, so a row of the result holds what one row
    /// of this relation held. The indices follow the rows. Fails with
    /// `ColumnNotFound` exactly where the column is not stored.
    pub fn select<F: Fn(&DataType) -> bool>(&mut self, column_name: &str, predicate: F) -> (r: Result<
        ColumnStoreRelation,
        RelationErrors,
    >)
        requires
            forall|d: &DataType| call_requires(predicate, (d,)),
        ensures
            *final(self) == *old(self),
            selects(predicate, *old(self), column_name@, r),
    {
        let mask = match self.columns.get(column_name) {
            Some(col) => ask_each(col, &predicate),
            None => {
                return Err(RelationErrors::ColumnNotFound(column_name.to_string()));
            },
        };
        let out = ColumnStoreRelation {
            name: self.name.clone(),
            fields: copy_fields(&self.fields),
            columns: keep_columns(&self.columns, &mask, true),
            select_columns: copy_names(&self.select_columns),
            indices: move_indices(&self.indices, &mask),
        };
        proof {
            assert(agrees(predicate, old(self).columns@[column_name@]@, mask@));
        }
        Ok(out)
    }

    /// The number of rows, taken from the first stored column; zero where no
    /// column is stored.
    pub fn num_tuples(&self) -> (r: Result<usize, RelationErrors>)
        ensures
            r matches Ok(n) && n == first_height(*self),
    {
        if self.columns.len() == 0 {
            Ok(0)
        } else {
            Ok(self.columns.value_at(0).len())
        }
    }

    /// The relation that holds a copy of each requested column, displayed in
    /// the requested order. Fails as a whole with `ColumnNotFound`, naming
    /// the first requested column that is not stored, exactly where there is
    /// one.
    pub fn project(&self, columns_to_keep: Vec<&str>) -> (r: Result<
        ColumnStoreRelation,
        RelationErrors,
    >)
        ensures
            projects(self@, slice_texts(columns_to_keep@), r),
    {
        let ghost request = slice_texts(columns_to_keep@);
        let mut columns: TextMap<Vec<DataType>> = TextMap::new();
        let mut display: Vec<String> = Vec::new();
        let mut i: usize = 0;
        while i < columns_to_keep.len()
            invariant
                i <= columns_to_keep.len(),
                request == slice_texts(columns_to_keep@),
                forall|j: int| 0 <= j < i ==> self.columns@.contains_key(#[trigger] request[j]),
                texts(display@) == request.take(i as int),
                forall|k: Seq<char>| columns@.contains_key(k) <==> request.take(i as int).contains(k),
                forall|k: Seq<char>|
                    columns@.contains_key(k) ==> views((#[trigger] columns@[k])@) == views(
                        self.columns@[k]@,
                    ),
            decreases columns_to_keep.len() - i,
        {
            let name = columns_to_keep[i];
            match self.columns.get(name) {
                Some(col) => {
                    let ghost shown = display@;
                    columns.insert(name.to_string(), copy_column(col));
                    display.push(name.to_string());
                    proof {
                        assert(texts(display@) =~= texts(shown).push(name@));
                        assert(request.take(i + 1) =~= request.take(i as int).push(request[i as int]));
                        assert forall|k: Seq<char>| columns@.contains_key(k) <==> request.take(
                            i + 1,
                        ).contains(k) by {
                            if request.take(i as int).contains(k) {
                                let j = choose|j: int| 0 <= j < i && request.take(i as int)[j] == k;
                                assert(request.take(i + 1)[j] == k);
                            }
                            if k == request[i as int] {
                                assert(request.take(i + 1)[i as int] == k);
                            }
                        }
                    }
                },
                None => {
                    proof {
                        assert(request[i as int] == name@);
                        assert(first_missing(self@.columns, request, i as int));
                    }
                    return Err(RelationErrors::ColumnNotFound(name.to_string()));
                },
            }
            i += 1;
        }
        let out = ColumnStoreRelation {
            name: self.name.clone(),
            fields: TextMap::new(),
            columns,
            select_columns: display,
            indices: TextMap::new(),
        };
        proof {
            assert(request.take(i as int) =~= request);
            let goal = project_of(self@, request);
            assert forall|j: int| 0 <= j < request.len() implies self@.columns.contains_key(
                #[trigger] request[j],
            ) by {
                assert(self.columns@.contains_key(request[j]));
            }
            assert(out@.display == goal.display);
            assert(out@.name == goal.name);
            assert(out@.columns =~= goal.columns);
            assert(out@.fields =~= goal.fields);
            assert(out@.indices =~= goal.indices);
        }
        Ok(out)
    }

    /// Removes the rows on which `predicate` holds of the value in column
    /// `column_name`, from every column, and says how many they were. The
    /// rows that stay keep their order. Fails with `ColumnNotFound`, and
    /// changes nothing, exactly where the column is not stored.
    pub fn delete_tuple<F: Fn(&DataType) -> bool>(&mut self, column_name: &str, predicate: F) -> (r:
        Result<usize, RelationErrors>)
        requires
            forall|d: &DataType| call_requires(predicate, (d,)),
        ensures
            deletes(predicate, *old(self), *final(self), column_name@, r),
    {
        let mask = match self.columns.get(column_name) {
            Some(col) => ask_each(col, &predicate),
            None => {
                return Err(RelationErrors::ColumnNotFound(column_name.to_string()));
            },
        };
        let count = count_true(&mask);
        let kept = keep_columns(&self.columns, &mask, false);
        self.columns = kept;
        proof {
            assert(agrees(predicate, old(self).columns@[column_name@]@, mask@));
        }
        Ok(count)
    }

    /// Appends one row: the value at place `i` of `tuple` goes to the column
    /// that the display schema names at place `i`. Fails with `InvalidInput`
    /// where the tuple has not as many values as the display schema has
    /// names, else with `ColumnNotFound`, naming the first displayed column
    /// that is not stored, where there is one. A failure changes nothing.
    pub fn add_tuple(&mut self, tuple: Vec<DataType>) -> (r: Result<(), RelationErrors>)
        ensures
            adds(*old(self), *final(self), views(tuple@), r),
    {
        assert(views(tuple@).len() == tuple@.len());
        if tuple.len() != self.select_columns.len() {
            return Err(
                RelationErrors::InvalidInput("Tuple does not match relation schema".to_string()),
            );
        }
        let n = tuple.len();
        let mut i: usize = 0;
        while i < n
            invariant
                i <= n,
                n == tuple@.len(),
                n == self.select_columns@.len(),
                *self == *old(self),
                forall|j: int|
                    0 <= j < i ==> self@.columns.contains_key(#[trigger] self@.display[j]),
            decreases n - i,
        {
            if !self.columns.contains_key(self.select_columns[i].as_str()) {
                let missing = self.select_columns[i].clone();
                proof {
                    assert(self@.display[i as int] == self.select_columns@[i as int]@);
                    assert(first_missing(self@.columns, self@.display, i as int));
                    assert(missing@ == old(self)@.display[i as int]);
                }
                return Err(RelationErrors::ColumnNotFound(missing));
            }
            assert(self@.display[i as int] == self.select_columns@[i as int]@);
            i += 1;
        }
        let ghost display = self@.display;
        let ghost start = self@.columns;
        let mut i: usize = 0;
        while i < n
            invariant
                i <= n,
                n == tuple@.len(),
                n == self.select_columns@.len(),
                display == self@.display,
                self.name == old(self).name,
                self.fields == old(self).fields,
                self.select_columns == old(self).select_columns,
                self.indices == old(self).indices,
                start == old(self)@.columns,
                forall|j: int| 0 <= j < n ==> start.contains_key(#[trigger] display[j]),
                forall|k: Seq<char>| self@.columns.contains_key(k) <==> start.contains_key(k),
                self@.columns == appended(start, display, views(tuple@), i as nat),
            decreases n - i,
        {
            let ghost before = self@.columns;
            let ghost raw = self.columns@;
            assert(start.contains_key(display[i as int]));
            assert(display[i as int] == self.select_columns@[i as int]@);
            let at = match self.columns.position(self.select_columns[i].as_str()) {
                Some(at) => at,
                None => {
                    assert(false);
                    return Ok(());
                },
            };
            let ghost name = self.columns.names()[at as int];
            let mut col = self.columns.replace_at(at, Vec::new());
            let ghost was = col@;
            let value = tuple[i].clone();
            col.push(value);
            let ghost full = col;
            let _ = self.columns.replace_at(at, col);
            proof {
                assert(views(full@) =~= views(was).push(value@));
                assert(name == display[i as int]);
                assert(self.columns@ =~= raw.insert(name, full));
                assert(views(tuple@)[i as int] == value@);
                let goal = appended(start, display, views(tuple@), (i + 1) as nat);
                assert(goal == before.insert(name, before[name].push(value@)));
                assert(self@.columns =~= goal);
            }
            i += 1;
        }
        Ok(())
    }
}

} // verus!
