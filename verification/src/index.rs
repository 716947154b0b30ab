use vstd::prelude::*;
use crate::dtype::{reads_as, value_text, views, DataType, Value};
use crate::errors::RelationErrors;
use crate::interface::{column_table, index_table, ColumnStoreRelation, Table};
use crate::relation::{copy_fields, copy_names, keep_columns, pick, positions, wanted};
use crate::textmap::{lemma_distinct, place_of, TextMap};

verus! {

/// The rows among the first `n` of a column whose value has the canonical
/// text `key`, in ascending order.
pub open spec fn rows_with(col: Seq<Value>, key: Seq<char>, n: nat) -> Seq<usize>
    decreases n,
{
    if n == 0 {
        Seq::<usize>::empty()
    } else if value_text(col[n - 1]) == key {
        rows_with(col, key, (n - 1) as nat).push((n - 1) as usize)
    } else {
        rows_with(col, key, (n - 1) as nat)
    }
}

/// The index of the first `n` rows of a column: each canonical text that
/// occurs among them, with the rows where it occurs.
pub open spec fn index_upto(col: Seq<Value>, n: nat) -> Map<Seq<char>, Seq<usize>> {
    Map::new(
        |k: Seq<char>| rows_with(col, k, n).len() > 0,
        |k: Seq<char>| rows_with(col, k, n),
    )
}

/// The index of a column.
pub open spec fn index_of_column(col: Seq<Value>) -> Map<Seq<char>, Seq<usize>> {
    index_upto(col, col.len())
}

/// Whether row `r` is one of `rows`.
pub open spec fn listed(rows: Seq<usize>, r: int) -> bool {
    exists|t: int| 0 <= t < rows.len() && #[trigger] rows[t] == r
}

/// Whether key `k` is a key of the index of which the predicate was told to
/// hold and under which row `r` is listed.
pub open spec fn chosen_by(
    ix: Map<Seq<char>, Seq<usize>>,
    hits: Map<Seq<char>, bool>,
    k: Seq<char>,
    r: int,
) -> bool {
    ix.contains_key(k) && hits.contains_key(k) && hits[k] && listed(ix[k], r)
}

/// Whether row `r` is listed under a key of the index of which the
/// predicate was told to hold.
pub open spec fn chosen(ix: Map<Seq<char>, Seq<usize>>, hits: Map<Seq<char>, bool>, r: int) -> bool {
    exists|k: Seq<char>| #[trigger] chosen_by(ix, hits, k, r)
}

/// Whether `b` is a result that a call of `predicate` has on a value that
/// the key `k` can be read as.
pub open spec fn told_of<F: Fn(&DataType) -> bool, P: Fn(&str) -> Option<u64>>(
    predicate: F,
    parse_float: P,
    k: Seq<char>,
    b: bool,
) -> bool {
    exists|d: DataType| reads_as(parse_float, k, d@) && #[trigger] call_ensures(predicate, (&d,), b)
}

/// Whether `hits` holds, for every key of the index, a result that a call of
/// `predicate` has on a value that the key can be read as.
pub open spec fn told<F: Fn(&DataType) -> bool, P: Fn(&str) -> Option<u64>>(
    predicate: F,
    parse_float: P,
    ix: Map<Seq<char>, Seq<usize>>,
    hits: Map<Seq<char>, bool>,
) -> bool {
    forall|k: Seq<char>| #[trigger]
        ix.contains_key(k) ==> hits.contains_key(k) && told_of(predicate, parse_float, k, hits[k])
}

/// For each of the first `n` rows, whether it is chosen.
pub open spec fn chosen_mask(ix: Map<Seq<char>, Seq<usize>>, hits: Map<Seq<char>, bool>, n: nat) -> Seq<
    bool,
> {
    Seq::new(n, |r: int| chosen(ix, hits, r))
}

/// The columns cut down to the chosen rows, in ascending order of the rows.
pub open spec fn looked_up(
    cols: Map<Seq<char>, Seq<Value>>,
    ix: Map<Seq<char>, Seq<usize>>,
    hits: Map<Seq<char>, bool>,
) -> Map<Seq<char>, Seq<Value>> {
    Map::new(
        |c: Seq<char>| cols.contains_key(c),
        |c: Seq<char>|
            pick(cols[c], positions(cols[c].len(), chosen_mask(ix, hits, cols[c].len()), true)),
    )
}

/// The relation that a lookup through the index of `column` gives: every
/// column with its values at the chosen rows, each row once, in ascending
/// order. Name, display schema and metadata stay; there are no indices.
pub open spec fn index_select_of(t: Table, column: Seq<char>, hits: Map<Seq<char>, bool>) -> Table {
    Table {
        name: t.name,
        fields: t.fields,
        columns: looked_up(t.columns, t.indices[column], hits),
        display: t.display,
        indices: Map::<Seq<char>, Map<Seq<char>, Seq<usize>>>::empty(),
    }
}

/// What building the index of `column` makes of the relation `before`:
/// `after` is `before` with that index, or `before` itself where the column
/// is not stored, which gives `ColumnNotFound`.
pub open spec fn indexed(
    before: ColumnStoreRelation,
    after: ColumnStoreRelation,
    column: Seq<char>,
    r: Result<(), RelationErrors>,
) -> bool {
    match r {
        Ok(_) => before.columns@.contains_key(column) && after@ == (Table {
            indices: before@.indices.insert(column, index_of_column(before@.columns[column])),
            ..before@
        }),
        Err(e) => !before.columns@.contains_key(column) && after == before && (
        e matches RelationErrors::ColumnNotFound(s) && s@ == column),
    }
}

/// What a lookup through the index of `column` gives of the relation `rel`:
/// the rows listed under the keys of which the predicate was told to hold,
/// or `ColumnNotFound` exactly where the column has no index.
pub open spec fn looks_up<F: Fn(&DataType) -> bool, P: Fn(&str) -> Option<u64>>(
    predicate: F,
    parse_float: P,
    rel: ColumnStoreRelation,
    column: Seq<char>,
    r: Result<ColumnStoreRelation, RelationErrors>,
) -> bool {
    match r {
        Ok(out) => rel.indices@.contains_key(column) && exists|hits: Map<Seq<char>, bool>|
            #[trigger] told(predicate, parse_float, rel@.indices[column], hits) && out@
                == index_select_of(rel@, column, hits),
        Err(e) => !rel.indices@.contains_key(column) && (e matches RelationErrors::ColumnNotFound(s)
            && s@ == column),
    }
}

/// Two masks that want the same rows below `n` give the same rows.
pub proof fn lemma_positions_agree(n: nat, a: Seq<bool>, b: Seq<bool>, flag: bool)
    requires
        forall|i: int| 0 <= i < n ==> wanted(a, flag, i) == wanted(b, flag, i),
    ensures
        positions(n, a, flag) == positions(n, b, flag),
    decreases n,
{
    if n > 0 {
        lemma_positions_agree((n - 1) as nat, a, b, flag);
    }
}

/// The index of a column.
pub fn build_index(col: &Vec<DataType>) -> (r: TextMap<Vec<usize>>)
    ensures
        index_table(r@) == index_of_column(views(col@)),
{
    let ghost cv = views(col@);
    let mut ix: TextMap<Vec<usize>> = TextMap::new();
    let mut i: usize = 0;
    proof {
        assert(index_table(ix@) =~= index_upto(cv, 0));
    }
    while i < col.len()
        invariant
            i <= col.len(),
            cv == views(col@),
            index_table(ix@) == index_upto(cv, i as nat),
        decreases col.len() - i,
    {
        let key = col[i].to_str();
        let ghost before = ix@;
        let ghost k0 = key@;
        proof {
            assert(cv[i as int] == col@[i as int]@);
            assert(k0 == value_text(cv[i as int]));
            assert(index_table(before).contains_key(k0) == (rows_with(cv, k0, i as nat).len() > 0));
        }
        match ix.position(key.as_str()) {
            Some(at) => {
                let mut rows = ix.replace_at(at, Vec::new());
                let ghost was = rows@;
                rows.push(i);
                let ghost now = rows;
                let _ = ix.replace_at(at, rows);
                proof {
                    assert(ix@ =~= before.insert(k0, now));
                    assert(was == index_table(before)[k0]);
                    assert(now@ == rows_with(cv, k0, (i + 1) as nat));
                }
            },
            None => {
                let mut rows: Vec<usize> = Vec::new();
                rows.push(i);
                let ghost now = rows;
                ix.insert(key, rows);
                proof {
                    assert(rows_with(cv, k0, i as nat).len() == 0);
                    assert(now@ =~= rows_with(cv, k0, (i + 1) as nat));
                }
            },
        }
        proof {
            let goal = index_upto(cv, (i + 1) as nat);
            assert forall|k: Seq<char>| index_table(ix@).contains_key(k) <==> goal.contains_key(
                k,
            ) by {
                assert(index_table(before).contains_key(k) == (rows_with(cv, k, i as nat).len() > 0));
            }
            assert forall|k: Seq<char>| goal.contains_key(k) implies #[trigger] index_table(ix@)[k]
                == goal[k] by {
                assert(index_table(before).contains_key(k) == (rows_with(cv, k, i as nat).len() > 0));
                if k != k0 {
                    assert(index_table(before)[k] == rows_with(cv, k, i as nat));
                }
            }
            assert(index_table(ix@) =~= goal);
        }
        i += 1;
    }
    ix
}

impl ColumnStoreRelation {
    /// Builds the index of column `column_name`: a map, in the dictionary
    /// order of its keys, from the canonical text of each value of the column
    /// to the rows that hold a value with that text, in ascending order. An
    /// index that the column had before is replaced. Nothing keeps the index
    /// in step with later changes of the column. Fails with
    /// `ColumnNotFound`, and changes nothing, exactly where the column is not
    /// stored.
    pub fn create_index(&mut self, column_name: &str) -> (r: Result<(), RelationErrors>)
        ensures
            indexed(*old(self), *final(self), column_name@, r),
    {
        let ix = match self.columns.get(column_name) {
            Some(col) => build_index(col),
            None => {
                return Err(RelationErrors::ColumnNotFound(column_name.to_string()));
            },
        };
        self.indices.insert(column_name.to_string(), ix);
        proof {
            assert(self@.indices =~= old(self)@.indices.insert(
                column_name@,
                index_of_column(old(self)@.columns[column_name@]),
            ));
        }
        Ok(())
    }

    /// The rows that a lookup through the index of column `column_name`
    /// finds, as a relation of its own. `predicate` is asked once per key of
    /// the index, in the order of the keys, about the value that the key
    /// reads as; `parse_float` is what reads a key as a floating-point
    /// number. That value is not always the value that was indexed: the
    /// canonical text of a double keeps six digits behind the point. The
    /// rows listed under the keys of which the predicate holds are kept,
    /// each once, in ascending order. Fails with `ColumnNotFound` exactly
    /// where the column has no index.
    pub fn index_select<F: Fn(&DataType) -> bool, P: Fn(&str) -> Option<u64>>(
        &self,
        column_name: &str,
        predicate: F,
        parse_float: P,
    ) -> (r: Result<ColumnStoreRelation, RelationErrors>)
        requires
            forall|d: &DataType| call_requires(predicate, (d,)),
            forall|t: &str| call_requires(parse_float, (t,)),
        ensures
            looks_up(predicate, parse_float, *self, column_name@, r),
    {
        let ix = match self.indices.get(column_name) {
            Some(ix) => ix,
            None => {
                return Err(RelationErrors::ColumnNotFound(column_name.to_string()));
            },
        };
        let width = longest(&self.columns);
        let (mask, Ghost(hits)) = mark_rows(ix, width, &predicate, &parse_float);
        let out = ColumnStoreRelation {
            name: self.name.clone(),
            fields: copy_fields(&self.fields),
            columns: keep_columns(&self.columns, &mask, true),
            select_columns: copy_names(&self.select_columns),
            indices: TextMap::new(),
        };
        proof {
            let model = self@.indices[column_name@];
            assert(model == index_table(ix@));
            let cols = self@.columns;
            let goal = looked_up(cols, model, hits);
            assert forall|c: Seq<char>| cols.contains_key(c) implies #[trigger] out@.columns[c]
                == goal[c] by {
                let n = cols[c].len();
                assert(self.columns@.contains_key(c));
                assert(n <= width);
                assert forall|i: int| 0 <= i < n implies wanted(mask@, true, i) == wanted(
                    chosen_mask(model, hits, n),
                    true,
                    i,
                ) by {}
                lemma_positions_agree(n, mask@, chosen_mask(model, hits, n), true);
            }
            assert(out@.columns =~= goal);
            assert(out@.indices =~= index_select_of(self@, column_name@, hits).indices);
        }
        Ok(out)
    }
}

/// Whether `n` is the number of rows of the longest stored column, or zero
/// where no column is stored.
pub open spec fn tallest(cols: Map<Seq<char>, Seq<Value>>, n: nat) -> bool {
    &&& forall|c: Seq<char>| cols.contains_key(c) ==> (#[trigger] cols[c]).len() <= n
    &&& (n == 0 || exists|c: Seq<char>| cols.contains_key(c) && (#[trigger] cols[c]).len() == n)
}

/// The number of rows of the longest stored column.
pub fn longest(columns: &TextMap<Vec<DataType>>) -> (r: usize)
    ensures
        forall|c: Seq<char>| columns@.contains_key(c) ==> (#[trigger] columns@[c])@.len() <= r,
        tallest(column_table(columns@), r as nat),
{
    let n = columns.len();
    let mut most: usize = 0;
    let mut i: usize = 0;
    while i < n
        invariant
            i <= n,
            n == columns.names().len(),
            columns.ordered(),
            forall|j: int| 0 <= j < i ==> (#[trigger] columns.values()[j])@.len() <= most,
            most == 0 || exists|j: int| 0 <= j < i && (#[trigger] columns.values()[j])@.len() == most,
        decreases n - i,
    {
        let len = columns.value_at(i).len();
        if len > most {
            most = len;
        }
        i += 1;
    }
    proof {
        assert forall|c: Seq<char>| columns@.contains_key(c) implies (#[trigger] columns@[c])@.len()
            <= most by {
            let j = place_of(columns.names(), c);
            assert(columns.names()[j] == c);
            assert(columns.values()[j]@.len() <= most);
        }
        let cols = column_table(columns@);
        assert forall|c: Seq<char>| cols.contains_key(c) implies (#[trigger] cols[c]).len() <= most by {
            assert(columns@.contains_key(c));
            assert(cols[c].len() == columns@[c]@.len());
        }
        if most > 0 {
            let j = choose|j: int| 0 <= j < n && (#[trigger] columns.values()[j])@.len() == most;
            columns.lemma_entry(j);
            let c = columns.names()[j];
            assert(cols.contains_key(c) && cols[c].len() == most);
        }
    }
    most
}

/// Whether row `r` is listed under one of the first `i` keys of which the
/// predicate was told to hold.
pub open spec fn chosen_upto(
    names: Seq<Seq<char>>,
    vals: Seq<Vec<usize>>,
    hits: Map<Seq<char>, bool>,
    i: int,
    r: int,
) -> bool {
    exists|j: int|
        0 <= j < i && hits.contains_key(#[trigger] names[j]) && hits[names[j]] && listed(vals[j]@, r)
}

/// Asks the predicate about each key of an index and marks, among the first
/// `width` rows, those listed under a key of which it holds.
fn mark_rows<F: Fn(&DataType) -> bool, P: Fn(&str) -> Option<u64>>(
    ix: &TextMap<Vec<usize>>,
    width: usize,
    predicate: &F,
    parse_float: &P,
) -> (res: (Vec<bool>, Ghost<Map<Seq<char>, bool>>))
    requires
        forall|d: &DataType| call_requires(*predicate, (d,)),
        forall|t: &str| call_requires(*parse_float, (t,)),
    ensures
        res.0@.len() == width,
        told(*predicate, *parse_float, index_table(ix@), res.1@),
        forall|r: int| 0 <= r < width ==> #[trigger] res.0@[r] == chosen(index_table(ix@), res.1@, r),
{
    let mut mask: Vec<bool> = Vec::new();
    let mut w: usize = 0;
    while w < width
        invariant
            w <= width,
            mask@.len() == w,
            forall|r: int| 0 <= r < w ==> !(#[trigger] mask@[r]),
        decreases width - w,
    {
        mask.push(false);
        w += 1;
    }
    let ghost mut hits: Map<Seq<char>, bool> = Map::empty();
    let ghost names = ix.names();
    let ghost vals = ix.values();
    let n = ix.len();
    let mut i: usize = 0;
    while i < n
        invariant
            i <= n,
            n == ix.names().len(),
            names == ix.names(),
            vals == ix.values(),
            ix.ordered(),
            mask@.len() == width,
            forall|d: &DataType| call_requires(*predicate, (d,)),
            forall|t: &str| call_requires(*parse_float, (t,)),
            forall|k: Seq<char>| hits.contains_key(k) <==> names.take(i as int).contains(k),
            forall|j: int|
                0 <= j < i ==> #[trigger] told_of(*predicate, *parse_float, names[j], hits[names[j]]),
            forall|r: int|
                0 <= r < width ==> #[trigger] mask@[r] == chosen_upto(names, vals, hits, i as int, r),
        decreases n - i,
    {
        let key = ix.name_at(i);
        let value = DataType::read(key, parse_float);
        let holds = predicate(&value);
        let ghost before = hits;
        let ghost earlier = names.take(i as int);
        let ghost marks = mask@;
        proof {
            hits = before.insert(names[i as int], holds);
            assert forall|j: int| 0 <= j < i implies names[j] != names[i as int] by {
                lemma_distinct(names, j, i as int);
            }
        }
        let rows = ix.value_at(i);
        if holds {
            let mut t: usize = 0;
            while t < rows.len()
                invariant
                    t <= rows.len(),
                    mask@.len() == width,
                    forall|r: int|
                        0 <= r < width ==> #[trigger] mask@[r] == (marks[r] || exists|u: int|
                            0 <= u < t && #[trigger] rows@[u] == r),
                decreases rows.len() - t,
            {
                let row = rows[t];
                if row < width {
                    mask.set(row, true);
                }
                t += 1;
            }
        }
        i += 1;
        proof {
            let upto = names.take(i as int);
            assert(upto =~= earlier.push(names[i - 1]));
            assert forall|k: Seq<char>| hits.contains_key(k) <==> upto.contains(k) by {
                assert(before.contains_key(k) <==> earlier.contains(k));
                if earlier.contains(k) {
                    let j = choose|j: int| 0 <= j < earlier.len() && earlier[j] == k;
                    assert(upto[j] == k);
                }
                if k == names[i - 1] {
                    assert(upto[i - 1] == k);
                }
            }
            assert forall|j: int| 0 <= j < i implies #[trigger] told_of(
                *predicate,
                *parse_float,
                names[j],
                hits[names[j]],
            ) by {
                if j < i - 1 {
                    assert(told_of(*predicate, *parse_float, names[j], before[names[j]]));
                    assert(hits[names[j]] == before[names[j]]);
                } else {
                    assert(call_ensures(*predicate, (&value,), hits[names[j]]));
                }
            }
            assert forall|r: int| 0 <= r < width implies #[trigger] mask@[r] == chosen_upto(
                names,
                vals,
                hits,
                i as int,
                r,
            ) by {
                assert(marks[r] == chosen_upto(names, vals, before, i - 1, r));
                if chosen_upto(names, vals, before, i - 1, r) {
                    let j = choose|j: int|
                        0 <= j < i - 1 && before.contains_key(#[trigger] names[j]) && before[names[j]]
                            && listed(vals[j]@, r);
                    assert(hits.contains_key(names[j]) && hits[names[j]]);
                }
                if holds && listed(rows@, r) {
                    assert(hits.contains_key(names[i - 1]) && hits[names[i - 1]] && listed(
                        vals[i - 1]@,
                        r,
                    ));
                }
                if chosen_upto(names, vals, hits, i as int, r) {
                    let j = choose|j: int|
                        0 <= j < i && hits.contains_key(#[trigger] names[j]) && hits[names[j]]
                            && listed(vals[j]@, r);
                    if j < i - 1 {
                        assert(before.contains_key(names[j]) && before[names[j]]);
                    }
                }
            }
        }
    }
    proof {
        let model = index_table(ix@);
        assert(names.take(n as int) =~= names);
        assert forall|k: Seq<char>| #[trigger] model.contains_key(k) implies hits.contains_key(k)
            && told_of(*predicate, *parse_float, k, hits[k]) by {
            let j = place_of(names, k);
            assert(names[j] == k);
            assert(told_of(*predicate, *parse_float, names[j], hits[names[j]]));
        }
        assert forall|r: int| 0 <= r < width implies #[trigger] mask@[r] == chosen(model, hits, r) by {
            if chosen_upto(names, vals, hits, n as int, r) {
                let j = choose|j: int|
                    0 <= j < n && hits.contains_key(#[trigger] names[j]) && hits[names[j]] && listed(
                        vals[j]@,
                        r,
                    );
                ix.lemma_entry(j);
                assert(chosen_by(model, hits, names[j], r));
            }
            if chosen(model, hits, r) {
                let k = choose|k: Seq<char>| #[trigger] chosen_by(model, hits, k, r);
                let j = place_of(names, k);
                assert(names[j] == k);
                ix.lemma_entry(j);
                assert(listed(vals[j]@, r));
            }
        }
    }
    (mask, Ghost(hits))
}

} // verus!
