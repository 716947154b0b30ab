use vstd::prelude::*;
use crate::dtype::{lemma_value_before_asymmetric, value_before, views, DataType, Value};
use crate::errors::RelationErrors;
use crate::interface::{column_table, ColumnStoreRelation, Order, Table};
use crate::relation::pick;
use crate::textmap::{lemma_distinct, place_of, TextMap};

verus! {

/// Whether `a` has to stand before `b` in a sort: in an ascending sort where
/// `a` is less than `b`, in a descending sort where `b` is less than `a`.
/// Two values of different kinds are a tie, and so is a value with itself;
/// of two different values of one kind one has to stand before the other.
pub open spec fn goes_before(a: Value, b: Value, descending: bool) -> bool {
    if descending {
        value_before(b, a)
    } else {
        value_before(a, b)
    }
}

/// Whether `p` lists each of the rows `0 .. n` once.
pub open spec fn is_permutation(p: Seq<int>, n: nat) -> bool {
    &&& p.len() == n
    &&& forall|k: int| 0 <= k < p.len() ==> 0 <= #[trigger] p[k] < n
    &&& forall|k: int, l: int| 0 <= k < l < p.len() ==> p[k] != p[l]
}

/// Whether the rows stand in `p` as a stable sort by `keys` leaves them: of
/// two neighbours the second never has to stand before the first, and where
/// they tie the first is the one that came first.
#[verifier::opaque]
pub open spec fn in_order(keys: Seq<Value>, p: Seq<int>, descending: bool) -> bool {
    forall|k: int|
        #![trigger p[k]]
        0 <= k < p.len() - 1 ==> !goes_before(keys[p[k + 1]], keys[p[k]], descending) && (
        goes_before(keys[p[k]], keys[p[k + 1]], descending) || p[k] < p[k + 1])
}

/// Whether `p` is the order in which a stable sort by `keys` puts the rows.
pub open spec fn sorts(keys: Seq<Value>, p: Seq<int>, descending: bool) -> bool {
    is_permutation(p, keys.len()) && in_order(keys, p, descending)
}

/// The place at which row `i` goes into the order `p` of the rows before it,
/// looked for from place `at` downwards: behind the last row that it does not
/// have to stand before.
pub open spec fn place_from(keys: Seq<Value>, p: Seq<int>, i: int, descending: bool, at: nat) -> nat
    decreases at,
{
    if at > 0 && goes_before(keys[i], keys[p[at - 1]], descending) {
        place_from(keys, p, i, descending, (at - 1) as nat)
    } else {
        at
    }
}

/// The order in which the first `n` rows stand after a stable sort by
/// `keys`: the order of the rows before the last, with the last put behind
/// the last row that it does not have to stand before.
pub open spec fn stable_order(keys: Seq<Value>, n: nat, descending: bool) -> Seq<int>
    decreases n,
{
    if n == 0 {
        Seq::<int>::empty()
    } else {
        let before = stable_order(keys, (n - 1) as nat, descending);
        before.insert(place_from(keys, before, n - 1, descending, before.len()) as int, n - 1)
    }
}

/// The relation with its rows in the order `p`: row `k` of every column is
/// what row `p[k]` was. Everything but the columns stays.
pub open spec fn rows_of(t: Table, p: Seq<int>) -> Table {
    Table {
        columns: Map::new(|k: Seq<char>| t.columns.contains_key(k), |k: Seq<char>| pick(t.columns[k], p)),
        ..t
    }
}

/// What a sort by `column` makes of the relation `before`: `after` holds
/// its rows in the order of a stable sort, or is `before` itself where the
/// column is not stored, which gives `ColumnNotFound`.
pub open spec fn sorted_to(
    before: ColumnStoreRelation,
    after: ColumnStoreRelation,
    column: Seq<char>,
    descending: bool,
    r: Result<(), RelationErrors>,
) -> bool {
    match r {
        Ok(_) => before.columns@.contains_key(column) && ({
            let keys = before@.columns[column];
            let p = stable_order(keys, keys.len(), descending);
            sorts(keys, p, descending) && after@ == rows_of(before@, p)
        }),
        Err(e) => !before.columns@.contains_key(column) && after == before && (
        e matches RelationErrors::ColumnNotFound(s) && s@ == column),
    }
}

/// The rows as integers.
pub open spec fn as_ints(p: Seq<usize>) -> Seq<int> {
    p.map_values(|x: usize| x as int)
}

/// Whether every stored column has at least as many rows as column `name`.
pub open spec fn reaches(cols: Map<Seq<char>, Vec<DataType>>, name: Seq<char>) -> bool {
    forall|k: Seq<char>| cols.contains_key(k) ==> (#[trigger] cols[k])@.len() >= cols[name]@.len()
}

/// Whether `a` has to stand before `b` in a sort.
fn stands_before(a: &DataType, b: &DataType, descending: bool) -> (r: bool)
    ensures
        r == goes_before(a@, b@, descending),
{
    if descending {
        b.before(a)
    } else {
        a.before(b)
    }
}

/// Putting row `i` into an order of the rows below `i`, behind the last row
/// that it does not have to stand before, gives an order of the rows up to
/// `i`.
proof fn lemma_insert_in_order(keys: Seq<Value>, before: Seq<int>, at: int, i: int, descending: bool)
    requires
        is_permutation(before, i as nat),
        in_order(keys, before, descending),
        0 <= at <= i,
        at > 0 ==> !goes_before(keys[i], keys[before[at - 1]], descending),
        at < i ==> goes_before(keys[i], keys[before[at]], descending),
    ensures
        is_permutation(before.insert(at, i), (i + 1) as nat),
        in_order(keys, before.insert(at, i), descending),
{
    reveal(in_order);
    let after = before.insert(at, i);
    assert forall|k: int, l: int| 0 <= k < l < after.len() implies after[k] != after[l] by {
        let a = if k < at { k } else { k - 1 };
        let b = if l < at { l } else { l - 1 };
        if k != at && l != at {
            assert(after[k] == before[a]);
            assert(after[l] == before[b]);
        } else if k == at {
            assert(after[l] == before[b]);
        } else {
            assert(after[k] == before[a]);
        }
    }
    assert forall|k: int| 0 <= k < after.len() implies 0 <= #[trigger] after[k] < i + 1 by {
        if k < at {
            assert(after[k] == before[k]);
        } else if k > at {
            assert(after[k] == before[k - 1]);
        }
    }
    assert forall|k: int| 0 <= k < after.len() - 1 implies !goes_before(
        keys[after[k + 1]],
        keys[#[trigger] after[k]],
        descending,
    ) && (goes_before(keys[after[k]], keys[after[k + 1]], descending) || after[k] < after[k + 1]) by {
        if k + 1 < at {
            assert(after[k] == before[k]);
            assert(after[k + 1] == before[k + 1]);
        } else if k + 1 == at {
            assert(after[k] == before[k]);
            assert(after[k + 1] == i);
        } else if k == at {
            assert(after[k] == i);
            assert(after[k + 1] == before[k]);
            if descending {
                lemma_value_before_asymmetric(keys[before[k]], keys[i]);
            } else {
                lemma_value_before_asymmetric(keys[i], keys[before[k]]);
            }
        } else {
            assert(after[k] == before[k - 1]);
            assert(after[k + 1] == before[k]);
        }
    }
}

/// The place at which row `i` goes into the order `perm` of the rows before
/// it.
fn find_place(col: &Vec<DataType>, perm: &Vec<usize>, i: usize, descending: bool) -> (at: usize)
    requires
        i < col@.len(),
        perm@.len() == i,
        forall|k: int| 0 <= k < perm@.len() ==> #[trigger] perm@[k] < i,
    ensures
        at <= i,
        at == place_from(views(col@), as_ints(perm@), i as int, descending, i as nat),
        at > 0 ==> !goes_before(
            views(col@)[i as int],
            views(col@)[as_ints(perm@)[at - 1]],
            descending,
        ),
        at < i ==> goes_before(views(col@)[i as int], views(col@)[as_ints(perm@)[at as int]], descending),
{
    let ghost keys = views(col@);
    let ghost p = as_ints(perm@);
    let mut at: usize = i;
    while at > 0 && stands_before(&col[i], &col[perm[at - 1]], descending)
        invariant
            at <= i,
            i < col@.len(),
            perm@.len() == i,
            keys == views(col@),
            p == as_ints(perm@),
            forall|k: int| 0 <= k < perm@.len() ==> #[trigger] perm@[k] < i,
            place_from(keys, p, i as int, descending, i as nat) == place_from(
                keys,
                p,
                i as int,
                descending,
                at as nat,
            ),
            at < i ==> goes_before(keys[i as int], keys[p[at as int]], descending),
        decreases at,
    {
        assert(p[at - 1] == perm@[at - 1]);
        at -= 1;
    }
    proof {
        if at > 0 {
            assert(p[at - 1] == perm@[at - 1]);
        }
    }
    at
}

/// Putting a row number into a list of smaller ones keeps them below the
/// next, and the list of integers follows.
proof fn lemma_insert_rows(held: Seq<usize>, at: int, i: usize)
    requires
        0 <= at <= held.len(),
        forall|k: int| 0 <= k < held.len() ==> #[trigger] held[k] < i,
    ensures
        as_ints(held.insert(at, i)) == as_ints(held).insert(at, i as int),
        forall|k: int| 0 <= k < held.insert(at, i).len() ==> #[trigger] held.insert(at, i)[k] < i + 1,
{
    let more = held.insert(at, i);
    assert(as_ints(more) =~= as_ints(held).insert(at, i as int));
    assert forall|k: int| 0 <= k < more.len() implies #[trigger] more[k] < i + 1 by {
        if k < at {
            assert(more[k] == held[k]);
        } else if k > at {
            assert(more[k] == held[k - 1]);
        }
    }
}

/// The order in which a stable sort by the values of `col` puts the rows.
pub fn sorted_order(col: &Vec<DataType>, descending: bool) -> (r: Vec<usize>)
    ensures
        as_ints(r@) == stable_order(views(col@), col@.len(), descending),
        sorts(views(col@), as_ints(r@), descending),
{
    let ghost keys = views(col@);
    let mut perm: Vec<usize> = Vec::new();
    let mut i: usize = 0;
    assert(in_order(keys, as_ints(perm@), descending)) by {
        reveal(in_order);
    }
    while i < col.len()
        invariant
            i <= col.len(),
            perm@.len() == i,
            keys == views(col@),
            is_permutation(as_ints(perm@), i as nat),
            in_order(keys, as_ints(perm@), descending),
            as_ints(perm@) == stable_order(keys, i as nat, descending),
            forall|k: int| 0 <= k < perm@.len() ==> #[trigger] perm@[k] < i,
        decreases col.len() - i,
    {
        let at = find_place(col, &perm, i, descending);
        let ghost held = perm@;
        proof {
            lemma_insert_in_order(keys, as_ints(held), at as int, i as int, descending);
            lemma_insert_rows(held, at as int, i);
        }
        perm.insert(at, i);
        i += 1;
    }
    perm
}

/// A column with its rows in the order `perm`.
fn reorder(col: &Vec<DataType>, perm: &Vec<usize>) -> (r: Vec<DataType>)
    requires
        forall|k: int| 0 <= k < perm@.len() ==> #[trigger] perm@[k] < col@.len(),
    ensures
        views(r@) == pick(views(col@), as_ints(perm@)),
{
    let mut out: Vec<DataType> = Vec::new();
    let mut k: usize = 0;
    while k < perm.len()
        invariant
            k <= perm.len(),
            forall|j: int| 0 <= j < perm@.len() ==> #[trigger] perm@[j] < col@.len(),
            views(out@) == pick(views(col@), as_ints(perm@).take(k as int)),
        decreases perm.len() - k,
    {
        let ghost before = out@;
        let value = col[perm[k]].clone();
        out.push(value);
        proof {
            assert(views(out@) =~= views(before).push(value@));
            assert(as_ints(perm@).take(k + 1) =~= as_ints(perm@).take(k as int).push(perm@[k as int] as int));
            assert(views(out@) =~= pick(views(col@), as_ints(perm@).take(k + 1)));
        }
        k += 1;
    }
    assert(as_ints(perm@).take(k as int) =~= as_ints(perm@));
    out
}

/// Every column with its rows in the order `perm`.
fn reorder_columns(columns: &TextMap<Vec<DataType>>, perm: &Vec<usize>) -> (r: TextMap<Vec<DataType>>)
    requires
        forall|c: Seq<char>, k: int|
            columns@.contains_key(c) && 0 <= k < perm@.len() ==> #[trigger] perm@[k] < (
            #[trigger] columns@[c])@.len(),
    ensures
        column_table(r@) == Map::new(
            |c: Seq<char>| column_table(columns@).contains_key(c),
            |c: Seq<char>| pick(column_table(columns@)[c], as_ints(perm@)),
        ),
{
    let mut out: TextMap<Vec<DataType>> = TextMap::new();
    let n = columns.len();
    let mut i: usize = 0;
    while i < n
        invariant
            i <= n,
            n == columns.names().len(),
            columns.ordered(),
            forall|c: Seq<char>, k: int|
                columns@.contains_key(c) && 0 <= k < perm@.len() ==> #[trigger] perm@[k] < (
                #[trigger] columns@[c])@.len(),
            forall|c: Seq<char>| out@.contains_key(c) <==> columns.names().take(i as int).contains(c),
            forall|j: int|
                0 <= j < i ==> views((#[trigger] out@[columns.names()[j]])@) == pick(
                    views(columns.values()[j]@),
                    as_ints(perm@),
                ),
        decreases n - i,
    {
        let name = columns.name_at(i).to_string();
        let col = columns.value_at(i);
        assert forall|k: int| 0 <= k < perm@.len() implies #[trigger] perm@[k] < col@.len() by {
            assert(columns@.contains_key(columns.names()[i as int]));
        }
        let rows = reorder(col, perm);
        out.insert(name, rows);
        proof {
            let names = columns.names();
            assert(names.take(i + 1) =~= names.take(i as int).push(names[i as int]));
            assert forall|c: Seq<char>| out@.contains_key(c) <==> names.take(i + 1).contains(c) by {
                if names.take(i as int).contains(c) {
                    let j = choose|j: int| 0 <= j < i && names.take(i as int)[j] == c;
                    assert(names.take(i + 1)[j] == c);
                }
                if c == names[i as int] {
                    assert(names.take(i + 1)[i as int] == c);
                }
            }
            assert forall|j: int| 0 <= j < i + 1 implies views((#[trigger] out@[names[j]])@) == pick(
                views(columns.values()[j]@),
                as_ints(perm@),
            ) by {
                if j < i {
                    lemma_distinct(names, j, i as int);
                }
            }
        }
        i += 1;
    }
    proof {
        let names = columns.names();
        assert(names.take(n as int) =~= names);
        let goal = Map::new(
            |c: Seq<char>| column_table(columns@).contains_key(c),
            |c: Seq<char>| pick(column_table(columns@)[c], as_ints(perm@)),
        );
        assert forall|c: Seq<char>| columns@.contains_key(c) implies views((#[trigger] out@[c])@)
            == goal[c] by {
            let j = place_of(names, c);
            assert(names[j] == c);
        }
        assert(column_table(out@) =~= goal);
    }
    out
}

impl ColumnStoreRelation {
    /// Sorts the rows by the values of column `column_name`, ascending or
    /// descending, and moves every column along, so that a row holds after
    /// the sort what one row held before it. The sort is stable: rows whose
    /// keys tie keep their order. Two keys tie where neither is less than the
    /// other, which is the case for two equal keys and for keys of different
    /// kinds. Doubles stand in the order of all doubles, minus zero before
    /// zero. The indices are left as they are. Fails with
    /// `ColumnNotFound`, and changes nothing, exactly where the column is not
    /// stored. No column may be shorter than the one sorted by; a longer one
    /// loses the rows beyond.
    pub fn sort(&mut self, column_name: &str, order: Order) -> (r: Result<(), RelationErrors>)
        requires
            old(self).columns@.contains_key(column_name@) ==> reaches(
                old(self).columns@,
                column_name@,
            ),
        ensures
            sorted_to(*old(self), *final(self), column_name@, order is Desc, r),
    {
        let descending = match order {
            Order::Asc => false,
            Order::Desc => true,
        };
        let perm = match self.columns.get(column_name) {
            Some(col) => sorted_order(col, descending),
            None => {
                return Err(RelationErrors::ColumnNotFound(column_name.to_string()));
            },
        };
        proof {
            let p = as_ints(perm@);
            assert forall|c: Seq<char>, k: int|
                self.columns@.contains_key(c) && 0 <= k < perm@.len() implies #[trigger] perm@[k] < (
            #[trigger] self.columns@[c])@.len() by {
                assert(0 <= p[k] < perm@.len());
            }
        }
        let moved = reorder_columns(&self.columns, &perm);
        self.columns = moved;
        proof {
            let p = as_ints(perm@);
            assert(self@.columns =~= rows_of(old(self)@, p).columns);
            assert(sorts(old(self)@.columns[column_name@], p, order is Desc));
            assert(p == stable_order(
                old(self)@.columns[column_name@],
                old(self)@.columns[column_name@].len(),
                order is Desc,
            ));
        }
        Ok(())
    }
}

} // verus!
