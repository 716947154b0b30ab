use vstd::prelude::*;
use vstd::string::StringExecFns;
use crate::dtype::{views, DataType, Value};
use crate::errors::RelationErrors;
use crate::interface::{
    column_table, index_table, indices_table, slice_texts, texts, ColumnStoreRelation, Table,
};
use crate::relation::{
    agrees, ask_each, copy_column, copy_fields, copy_names, first_missing, lemma_positions, pick,
    positions, take_rows, wanted,
};
use crate::textmap::{lemma_distinct, place_of, TextMap};

verus! {

/// Whether `after` is the column `before` with each marked row replaced by a
/// result that a call of `f` on its value has, and every other row as it
/// was.
pub open spec fn updated<G: Fn(&DataType) -> DataType>(
    f: G,
    before: Seq<DataType>,
    mask: Seq<bool>,
    after: Seq<DataType>,
) -> bool {
    &&& after.len() == before.len()
    &&& forall|i: int|
        0 <= i < before.len() ==> if wanted(mask, true, i) {
            call_ensures(f, (&before[i],), #[trigger] after[i])
        } else {
            after[i]@ == before[i]@
        }
}

/// The message of the error for a missing column of an update.
pub open spec fn missing_pair(target: Seq<char>, filter: Seq<char>) -> Seq<char> {
    target + " or "@ + filter + " not found"@
}

/// The columns that a scan gives after the first `k` requested columns:
/// each requested column cut down to the rows that its own mask marks, and
/// left out where no row is marked.
pub open spec fn scanned(
    cols: Map<Seq<char>, Seq<Value>>,
    request: Seq<Seq<char>>,
    masks: Seq<Seq<bool>>,
    k: nat,
) -> Map<Seq<char>, Seq<Value>>
    decreases k,
{
    if k == 0 {
        Map::<Seq<char>, Seq<Value>>::empty()
    } else {
        let before = scanned(cols, request, masks, (k - 1) as nat);
        let col = cols[request[k - 1]];
        let rows = pick(col, positions(col.len(), masks[k - 1], true));
        if rows.len() > 0 {
            before.insert(request[k - 1], rows)
        } else {
            before
        }
    }
}

/// The relation that a scan gives: the scanned columns, displayed as
/// requested, without metadata and without indices.
pub open spec fn scan_of(t: Table, request: Seq<Seq<char>>, masks: Seq<Seq<bool>>) -> Table {
    Table {
        name: t.name,
        fields: Map::<Seq<char>, Value>::empty(),
        columns: scanned(t.columns, request, masks, request.len()),
        display: request,
        indices: Map::<Seq<char>, Map<Seq<char>, Seq<usize>>>::empty(),
    }
}

/// What an update makes of the relation `before`: in `after` the target
/// column holds, at each row on which `predicate` holds of the value in the
/// filter column, what `update_func` makes of the value, and the result is
/// the number of such rows; or `after` is `before` itself where one of the
/// two columns is not stored, which gives `ColumnNotFound`.
pub open spec fn updates<F: Fn(&DataType) -> bool, G: Fn(&DataType) -> DataType>(
    predicate: F,
    update_func: G,
    before: ColumnStoreRelation,
    after: ColumnStoreRelation,
    target: Seq<char>,
    filter: Seq<char>,
    r: Result<usize, RelationErrors>,
) -> bool {
    match r {
        Ok(count) => before.columns@.contains_key(target) && before.columns@.contains_key(filter)
            && after.columns@.contains_key(target) && after.columns@ == before.columns@.insert(
            target,
            after.columns@[target],
        ) && after.name == before.name && after.fields == before.fields && after.select_columns
            == before.select_columns && after.indices == before.indices && exists|answers: Seq<bool>|
            #[trigger] agrees(predicate, before.columns@[filter]@, answers) && updated(
                update_func,
                before.columns@[target]@,
                answers,
                after.columns@[target]@,
            ) && count == positions(before.columns@[target]@.len(), answers, true).len(),
        Err(e) => !(before.columns@.contains_key(target) && before.columns@.contains_key(filter))
            && after == before && (e matches RelationErrors::ColumnNotFound(s) && s@ == missing_pair(
            target,
            filter,
        )),
    }
}

/// What a scan of the columns `request` gives of the relation `before`: the
/// columns, each cut down by the answers that the predicate gave on its own
/// values, or `ColumnNotFound` with the first requested column that is not
/// stored, exactly where there is one.
pub open spec fn scans<F: Fn(&DataType) -> bool>(
    predicate: F,
    before: ColumnStoreRelation,
    request: Seq<Seq<char>>,
    r: Result<ColumnStoreRelation, RelationErrors>,
) -> bool {
    match r {
        Ok(out) => (forall|i: int|
            0 <= i < request.len() ==> before.columns@.contains_key(#[trigger] request[i]))
            && exists|masks: Seq<Seq<bool>>|
            masks.len() == request.len() && (forall|i: int|
                0 <= i < request.len() ==> agrees(
                    predicate,
                    before.columns@[request[i]]@,
                    #[trigger] masks[i],
                )) && out@ == #[trigger] scan_of(before@, request, masks),
        Err(e) => exists|i: int|
            #[trigger] first_missing(before@.columns, request, i) && (
            e matches RelationErrors::ColumnNotFound(s) && s@ == request[i]),
    }
}

/// A copy of an index.
fn copy_index(ix: &TextMap<Vec<usize>>) -> (r: TextMap<Vec<usize>>)
    ensures
        index_table(r@) == index_table(ix@),
{
    let mut out: TextMap<Vec<usize>> = TextMap::new();
    let n = ix.len();
    let mut i: usize = 0;
    while i < n
        invariant
            i <= n,
            n == ix.names().len(),
            ix.ordered(),
            forall|k: Seq<char>| out@.contains_key(k) <==> ix.names().take(i as int).contains(k),
            forall|j: int| 0 <= j < i ==> (#[trigger] out@[ix.names()[j]])@ == ix.values()[j]@,
        decreases n - i,
    {
        let ghost names = ix.names();
        let ghost earlier = names.take(i as int);
        let name = ix.name_at(i).to_string();
        let rows = ix.value_at(i);
        let mut copy: Vec<usize> = Vec::new();
        let mut t: usize = 0;
        while t < rows.len()
            invariant
                t <= rows.len(),
                copy@ == rows@.take(t as int),
            decreases rows.len() - t,
        {
            copy.push(rows[t]);
            assert(rows@.take(t + 1) =~= rows@.take(t as int).push(rows@[t as int]));
            t += 1;
        }
        assert(rows@.take(t as int) =~= rows@);
        out.insert(name, copy);
        i += 1;
        proof {
            let upto = names.take(i as int);
            assert(upto =~= earlier.push(names[i - 1]));
            assert forall|k: Seq<char>| out@.contains_key(k) <==> upto.contains(k) by {
                if earlier.contains(k) {
                    let j = choose|j: int| 0 <= j < earlier.len() && earlier[j] == k;
                    assert(upto[j] == k);
                }
                if k == names[i - 1] {
                    assert(upto[i - 1] == k);
                }
            }
            assert forall|j: int| 0 <= j < i implies (#[trigger] out@[names[j]])@
                == ix.values()[j]@ by {
                if j < i - 1 {
                    lemma_distinct(names, j, i - 1);
                }
            }
        }
    }
    proof {
        let names = ix.names();
        assert(names.take(n as int) =~= names);
        assert forall|k: Seq<char>| ix@.contains_key(k) implies (#[trigger] out@[k])@ == ix@[k]@ by {
            let j = place_of(names, k);
            assert(names[j] == k);
        }
        assert(index_table(out@) =~= index_table(ix@));
    }
    out
}

/// A copy of the indices of a relation.
fn copy_indices(ixs: &TextMap<TextMap<Vec<usize>>>) -> (r: TextMap<TextMap<Vec<usize>>>)
    ensures
        indices_table(r@) == indices_table(ixs@),
{
    let mut out: TextMap<TextMap<Vec<usize>>> = TextMap::new();
    let n = ixs.len();
    let mut i: usize = 0;
    while i < n
        invariant
            i <= n,
            n == ixs.names().len(),
            ixs.ordered(),
            forall|k: Seq<char>| out@.contains_key(k) <==> ixs.names().take(i as int).contains(k),
            forall|j: int|
                0 <= j < i ==> index_table((#[trigger] out@[ixs.names()[j]])@) == index_table(
                    ixs.values()[j]@,
                ),
        decreases n - i,
    {
        let ghost names = ixs.names();
        let ghost earlier = names.take(i as int);
        let name = ixs.name_at(i).to_string();
        let copy = copy_index(ixs.value_at(i));
        out.insert(name, copy);
        i += 1;
        proof {
            let upto = names.take(i as int);
            assert(upto =~= earlier.push(names[i - 1]));
            assert forall|k: Seq<char>| out@.contains_key(k) <==> upto.contains(k) by {
                if earlier.contains(k) {
                    let j = choose|j: int| 0 <= j < earlier.len() && earlier[j] == k;
                    assert(upto[j] == k);
                }
                if k == names[i - 1] {
                    assert(upto[i - 1] == k);
                }
            }
            assert forall|j: int| 0 <= j < i implies index_table((#[trigger] out@[names[j]])@)
                == index_table(ixs.values()[j]@) by {
                if j < i - 1 {
                    lemma_distinct(names, j, i - 1);
                }
            }
        }
    }
    proof {
        let names = ixs.names();
        assert(names.take(n as int) =~= names);
        assert forall|k: Seq<char>| ixs@.contains_key(k) implies index_table((#[trigger] out@[k])@)
            == index_table(ixs@[k]@) by {
            let j = place_of(names, k);
            assert(names[j] == k);
        }
        assert(indices_table(out@) =~= indices_table(ixs@));
    }
    out
}

/// A copy of the stored columns of a relation.
fn copy_columns(columns: &TextMap<Vec<DataType>>) -> (r: TextMap<Vec<DataType>>)
    ensures
        column_table(r@) == column_table(columns@),
{
    let mut out: TextMap<Vec<DataType>> = TextMap::new();
    let n = columns.len();
    let mut i: usize = 0;
    while i < n
        invariant
            i <= n,
            n == columns.names().len(),
            columns.ordered(),
            forall|k: Seq<char>| out@.contains_key(k) <==> columns.names().take(i as int).contains(k),
            forall|j: int|
                0 <= j < i ==> views((#[trigger] out@[columns.names()[j]])@) == views(
                    columns.values()[j]@,
                ),
        decreases n - i,
    {
        let ghost names = columns.names();
        let ghost earlier = names.take(i as int);
        let name = columns.name_at(i).to_string();
        let copy = copy_column(columns.value_at(i));
        out.insert(name, copy);
        i += 1;
        proof {
            let upto = names.take(i as int);
            assert(upto =~= earlier.push(names[i - 1]));
            assert forall|k: Seq<char>| out@.contains_key(k) <==> upto.contains(k) by {
                if earlier.contains(k) {
                    let j = choose|j: int| 0 <= j < earlier.len() && earlier[j] == k;
                    assert(upto[j] == k);
                }
                if k == names[i - 1] {
                    assert(upto[i - 1] == k);
                }
            }
            assert forall|j: int| 0 <= j < i implies views((#[trigger] out@[names[j]])@) == views(
                columns.values()[j]@,
            ) by {
                if j < i - 1 {
                    lemma_distinct(names, j, i - 1);
                }
            }
        }
    }
    proof {
        let names = columns.names();
        assert(names.take(n as int) =~= names);
        assert forall|k: Seq<char>| columns@.contains_key(k) implies views((#[trigger] out@[k])@)
            == views(columns@[k]@) by {
            let j = place_of(names, k);
            assert(names[j] == k);
        }
        assert(column_table(out@) =~= column_table(columns@));
    }
    out
}

impl Clone for ColumnStoreRelation {
    /// A relation of its own that is what this relation is.
    fn clone(&self) -> (r: Self)
        ensures
            r@ == self@,
    {
        ColumnStoreRelation {
            name: self.name.clone(),
            fields: copy_fields(&self.fields),
            columns: copy_columns(&self.columns),
            select_columns: copy_names(&self.select_columns),
            indices: copy_indices(&self.indices),
        }
    }
}

/// A column with each marked row replaced by what `update_func` makes of
/// its value.
fn update_rows<G: Fn(&DataType) -> DataType>(col: &Vec<DataType>, mask: &Vec<bool>, update_func: &G) -> (r:
    (Vec<DataType>, usize))
    requires
        forall|d: &DataType| call_requires(*update_func, (d,)),
    ensures
        updated(*update_func, col@, mask@, r.0@),
        r.1 == positions(col@.len(), mask@, true).len(),
{
    let mut out: Vec<DataType> = Vec::new();
    let mut count: usize = 0;
    let mut i: usize = 0;
    while i < col.len()
        invariant
            i <= col.len(),
            out@.len() == i,
            count == positions(i as nat, mask@, true).len(),
            forall|d: &DataType| call_requires(*update_func, (d,)),
            forall|j: int|
                0 <= j < i ==> if wanted(mask@, true, j) {
                    call_ensures(*update_func, (&col@[j],), #[trigger] out@[j])
                } else {
                    out@[j]@ == col@[j]@
                },
        decreases col.len() - i,
    {
        proof {
            lemma_positions(i as nat, mask@, true);
        }
        if i < mask.len() && mask[i] {
            out.push(update_func(&col[i]));
            count += 1;
        } else {
            out.push(col[i].clone());
        }
        i += 1;
    }
    (out, count)
}

impl ColumnStoreRelation {
    /// Replaces, in column `target_column`, the value of every row on which
    /// `predicate` holds of the value in column `filter_column` by what
    /// `update_func` makes of it, and says how many rows that were. The
    /// predicate is asked about every row of the filter column before any
    /// value changes, so the two columns may be one. A row that the target
    /// column does not have is passed over. Fails with `ColumnNotFound`, and
    /// changes nothing, exactly where one of the two columns is not stored.
    pub fn update_tuple<F: Fn(&DataType) -> bool, G: Fn(&DataType) -> DataType>(
        &mut self,
        target_column: &str,
        filter_column: &str,
        predicate: F,
        update_func: G,
    ) -> (r: Result<usize, RelationErrors>)
        requires
            forall|d: &DataType| call_requires(predicate, (d,)),
            forall|d: &DataType| call_requires(update_func, (d,)),
        ensures
            updates(predicate, update_func, *old(self), *final(self), target_column@, filter_column@, r),
    {
        let mask = match self.columns.get(filter_column) {
            Some(col) => Some(ask_each(col, &predicate)),
            None => None,
        };
        let at = self.columns.position(target_column);
        match (mask, at) {
            (Some(mask), Some(at)) => {
                let ghost raw = self.columns@;
                let held = self.columns.replace_at(at, Vec::new());
                let (rows, count) = update_rows(&held, &mask, &update_func);
                let ghost now = rows;
                let _ = self.columns.replace_at(at, rows);
                proof {
                    assert(self.columns@ =~= raw.insert(target_column@, now));
                    assert(agrees(predicate, old(self).columns@[filter_column@]@, mask@));
                }
                Ok(count)
            },
            _ => {
                let mut message = target_column.to_string();
                message.append(" or ");
                message.append(filter_column);
                message.append(" not found");
                Err(RelationErrors::ColumnNotFound(message))
            },
        }
    }

    /// The requested columns, each cut down on its own to the values of
    /// which `predicate` holds, as a relation of its own. The predicate is
    /// asked once per value, column by column in the requested order. A
    /// column of which no value is left is not stored in the result; the
    /// display schema is the requested list all the same. Fails as a whole
    /// with `ColumnNotFound`, naming the first requested column that is not
    /// stored, exactly where there is one.
    pub fn scan<F: Fn(&DataType) -> bool>(&mut self, select_columns: Vec<&str>, predicate: F) -> (r:
        Result<ColumnStoreRelation, RelationErrors>)
        requires
            forall|d: &DataType| call_requires(predicate, (d,)),
        ensures
            *final(self) == *old(self),
            scans(predicate, *old(self), slice_texts(select_columns@), r),
    {
        let ghost request = slice_texts(select_columns@);
        let ghost cols = self@.columns;
        let ghost mut masks: Seq<Seq<bool>> = Seq::empty();
        let mut columns: TextMap<Vec<DataType>> = TextMap::new();
        let mut display: Vec<String> = Vec::new();
        let mut i: usize = 0;
        proof {
            assert(column_table(columns@) =~= scanned(cols, request, masks, 0));
        }
        while i < select_columns.len()
            invariant
                i <= select_columns.len(),
                *self == *old(self),
                request == slice_texts(select_columns@),
                cols == self@.columns,
                forall|d: &DataType| call_requires(predicate, (d,)),
                forall|j: int| 0 <= j < i ==> self.columns@.contains_key(#[trigger] request[j]),
                masks.len() == i,
                forall|j: int|
                    0 <= j < i ==> agrees(predicate, self.columns@[request[j]]@, #[trigger] masks[j]),
                texts(display@) == request.take(i as int),
                column_table(columns@) == scanned(cols, request, masks, i as nat),
            decreases select_columns.len() - i,
        {
            let name = select_columns[i];
            let ghost before = masks;
            let ghost shown = display@;
            match self.columns.get(name) {
                Some(col) => {
                    let mask = ask_each(col, &predicate);
                    let rows = take_rows(col, &mask, true);
                    proof {
                        masks = before.push(mask@);
                        assert(request[i as int] == name@);
                        lemma_scanned_frame(cols, request, before, masks, i as nat);
                    }
                    if rows.len() > 0 {
                        columns.insert(name.to_string(), rows);
                    }
                    display.push(name.to_string());
                    proof {
                        assert(texts(display@) =~= texts(shown).push(name@));
                        assert(request.take(i + 1) =~= request.take(i as int).push(request[i as int]));
                        assert(column_table(columns@) =~= scanned(cols, request, masks, (i + 1) as nat));
                    }
                },
                None => {
                    proof {
                        assert(request[i as int] == name@);
                        assert(first_missing(self@.columns, request, i as int));
                    }
                    return Err(RelationErrors::ColumnNotFound(name.to_string()));
                },
            }
            i += 1;
        }
        let out = ColumnStoreRelation {
            name: self.name.clone(),
            fields: TextMap::new(),
            columns,
            select_columns: display,
            indices: TextMap::new(),
        };
        proof {
            assert(request.take(i as int) =~= request);
            let goal = scan_of(old(self)@, request, masks);
            assert(out@.fields =~= goal.fields);
            assert(out@.indices =~= goal.indices);
            assert(scans(predicate, *old(self), request, Ok(out)));
        }
        Ok(out)
    }
}

/// What a scan gives after the first `k` requested columns depends on the
/// masks of those columns only.
pub proof fn lemma_scanned_frame(
    cols: Map<Seq<char>, Seq<Value>>,
    request: Seq<Seq<char>>,
    a: Seq<Seq<bool>>,
    b: Seq<Seq<bool>>,
    k: nat,
)
    requires
        k <= a.len(),
        k <= b.len(),
        forall|j: int| 0 <= j < k ==> a[j] == b[j],
    ensures
        scanned(cols, request, a, k) == scanned(cols, request, b, k),
    decreases k,
{
    if k > 0 {
        lemma_scanned_frame(cols, request, a, b, (k - 1) as nat);
    }
}

} // verus!
