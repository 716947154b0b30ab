use vstd::prelude::*;
use crate::aggregate::aggregates;
use crate::dtype::{views, DataType, Value};
use crate::errors::RelationErrors;
use crate::index::{indexed, looks_up};
use crate::join::{hash_joins, join_reaches, merge_joins, nested_joins};
use crate::mutate::{scans, updates};
use crate::persist::{csv_loaded, saved};
use crate::pretty::draws;
use crate::relation::{adds, deletes, first_height, projects, selects};
use crate::sort::{reaches, sorted_to};
pub use crate::text::texts;
use crate::textmap::TextMap;

verus! {

/// The texts that a sequence of string slices holds.
pub open spec fn slice_texts(s: Seq<&str>) -> Seq<Seq<char>> {
    s.map_values(|x: &str| x@)
}

/// A relation stored column by column.
///
/// `columns` is the storage: each column name with its values, one per row.
/// `select_columns` is the display schema, an ordered list of column names.
/// `fields` is descriptive metadata and constrains nothing. `indices` holds,
/// for each indexed column, a map from the canonical text of a value to the
/// rows that held it when the index was built; an index is not maintained
/// when rows are added, changed, deleted or reordered, and has to be built
/// again by whoever still wants to use it.
#[derive(Debug)]
pub struct ColumnStoreRelation {
    pub name: String,
    pub fields: TextMap<DataType>,
    pub columns: TextMap<Vec<DataType>>,
    pub select_columns: Vec<String>,
    pub indices: TextMap<TextMap<Vec<usize>>>,
}

/// The reductions of a column to one value.
#[derive(Debug, Clone, Copy)]
pub enum Aggregation {
    Count,
    Sum,
    Min,
    Max,
    Average,
}

/// The two directions of a sort.
#[derive(Debug, Clone, Copy)]
pub enum Order {
    Asc,
    Desc,
}

/// The join algorithms.
#[derive(Debug, Clone, Copy)]
pub enum JoinType {
    NestedLoop,
    MergeJoin,
    HashJoin,
}

/// What a relation is, with every text, value and row list taken as a
/// mathematical value.
pub struct Table {
    pub name: Seq<char>,
    pub fields: Map<Seq<char>, Value>,
    pub columns: Map<Seq<char>, Seq<Value>>,
    pub display: Seq<Seq<char>>,
    pub indices: Map<Seq<char>, Map<Seq<char>, Seq<usize>>>,
}

/// The metadata of a relation as values.
pub open spec fn field_table(m: Map<Seq<char>, DataType>) -> Map<Seq<char>, Value> {
    Map::new(|k: Seq<char>| m.contains_key(k), |k: Seq<char>| m[k]@)
}

/// The stored columns of a relation as sequences of values.
pub open spec fn column_table(m: Map<Seq<char>, Vec<DataType>>) -> Map<Seq<char>, Seq<Value>> {
    Map::new(|k: Seq<char>| m.contains_key(k), |k: Seq<char>| views(m[k]@))
}

/// One index as a map from key texts to row lists.
pub open spec fn index_table(m: Map<Seq<char>, Vec<usize>>) -> Map<Seq<char>, Seq<usize>> {
    Map::new(|k: Seq<char>| m.contains_key(k), |k: Seq<char>| m[k]@)
}

/// The indices of a relation, each as a map from key texts to row lists.
pub open spec fn indices_table(m: Map<Seq<char>, TextMap<Vec<usize>>>) -> Map<
    Seq<char>,
    Map<Seq<char>, Seq<usize>>,
> {
    Map::new(|k: Seq<char>| m.contains_key(k), |k: Seq<char>| index_table(m[k]@))
}

impl View for ColumnStoreRelation {
    type V = Table;

    open spec fn view(&self) -> Table {
        Table {
            name: self.name@,
            fields: field_table(self.fields@),
            columns: column_table(self.columns@),
            display: texts(self.select_columns@),
            indices: indices_table(self.indices@),
        }
    }
}

/// What can be done with a relation. Each operation is said in full where
/// the column store does it; this is the list of them.
pub trait Relation: Sized {
    /// The relation as a column store.
    spec fn store(&self) -> ColumnStoreRelation;

    /// The name of the relation.
    fn get_table_name(&self) -> (r: String)
        ensures
            r@ == self.store().name@,
    ;

    /// The display schema.
    fn get_select_columns(&self) -> (r: &Vec<String>)
        ensures
            *r == self.store().select_columns,
    ;

    /// Fills the relation from the bytes of a delimited text.
    fn load_csv<P: Fn(&str) -> Option<u64>>(
        &mut self,
        data: &[u8],
        table_name: &str,
        delimiter: &str,
        select_columns: Vec<&str>,
        parse_float: P,
    ) -> (r: Result<(), RelationErrors>)
        requires
            forall|t: &str| call_requires(parse_float, (t,)),
        ensures
            csv_loaded(
                parse_float,
                old(self).store(),
                final(self).store(),
                data@,
                table_name@,
                slice_texts(select_columns@),
                r,
            ),
    ;

    /// The bytes of the delimited text that the relation is persisted as.
    fn save(&self) -> (r: Result<Vec<u8>, RelationErrors>)
        ensures
            saved(self.store()@, r),
    ;

    /// The number of rows, taken from the first stored column.
    fn num_tuples(&self) -> (r: Result<usize, RelationErrors>)
        ensures
            r matches Ok(n) && n == first_height(self.store()),
    ;

    /// The table that shows the relation, ready to be printed.
    fn pretty_print(&self) -> (r: String)
        ensures
            draws(self.store()@, r@),
    ;

    /// Appends one row.
    fn add_tuple(&mut self, tuple: Vec<DataType>) -> (r: Result<(), RelationErrors>)
        ensures
            adds(old(self).store(), final(self).store(), views(tuple@), r),
    ;

    /// Removes the rows on which `predicate` holds of the value in column
    /// `column_name`.
    fn delete_tuple<F: Fn(&DataType) -> bool>(&mut self, column_name: &str, predicate: F) -> (r: Result<
        usize,
        RelationErrors,
    >)
        requires
            forall|d: &DataType| call_requires(predicate, (d,)),
        ensures
            deletes(predicate, old(self).store(), final(self).store(), column_name@, r),
    ;

    /// Replaces the values of column `target_column` in the rows on which
    /// `predicate` holds of the value in column `filter_column`.
    fn update_tuple<F: Fn(&DataType) -> bool, G: Fn(&DataType) -> DataType>(
        &mut self,
        target_column: &str,
        filter_column: &str,
        predicate: F,
        update_func: G,
    ) -> (r: Result<usize, RelationErrors>)
        requires
            forall|d: &DataType| call_requires(predicate, (d,)),
            forall|d: &DataType| call_requires(update_func, (d,)),
        ensures
            updates(
                predicate,
                update_func,
                old(self).store(),
                final(self).store(),
                target_column@,
                filter_column@,
                r,
            ),
    ;

    /// The requested columns, each cut down on its own to the values of
    /// which `predicate` holds.
    fn scan<F: Fn(&DataType) -> bool>(&mut self, select_columns: Vec<&str>, predicate: F) -> (r: Result<
        ColumnStoreRelation,
        RelationErrors,
    >)
        requires
            forall|d: &DataType| call_requires(predicate, (d,)),
        ensures
            final(self).store() == old(self).store(),
            scans(predicate, old(self).store(), slice_texts(select_columns@), r),
    ;

    /// The rows on which `predicate` holds of the value in column
    /// `column_name`.
    fn select<F: Fn(&DataType) -> bool>(&mut self, column_name: &str, predicate: F) -> (r: Result<
        ColumnStoreRelation,
        RelationErrors,
    >)
        requires
            forall|d: &DataType| call_requires(predicate, (d,)),
        ensures
            final(self).store() == old(self).store(),
            selects(predicate, old(self).store(), column_name@, r),
    ;

    /// The requested columns.
    fn project(&self, columns_to_keep: Vec<&str>) -> (r: Result<ColumnStoreRelation, RelationErrors>)
        ensures
            projects(self.store()@, slice_texts(columns_to_keep@), r),
    ;

    /// Column `column_name` reduced to one value.
    fn aggr<A: Fn(u64, u64) -> u64, D: Fn(u64, usize) -> u64>(
        &self,
        column_name: &str,
        aggregation: Aggregation,
        plus: A,
        divide: D,
    ) -> (r: Result<DataType, RelationErrors>)
        requires
            forall|x: u64, y: u64| call_requires(plus, (x, y)),
            forall|x: u64, n: usize| call_requires(divide, (x, n)),
        ensures
            aggregates(plus, divide, self.store(), column_name@, aggregation, r),
    ;

    /// Sorts the rows by the values of column `column_name`. No column may be
    /// shorter than that one.
    fn sort(&mut self, column_name: &str, order: Order) -> (r: Result<(), RelationErrors>)
        requires
            old(self).store().columns@.contains_key(column_name@) ==> reaches(
                old(self).store().columns@,
                column_name@,
            ),
        ensures
            sorted_to(old(self).store(), final(self).store(), column_name@, order is Desc, r),
    ;

    /// Builds the index of column `column_name`.
    fn create_index(&mut self, column_name: &str) -> (r: Result<(), RelationErrors>)
        ensures
            indexed(old(self).store(), final(self).store(), column_name@, r),
    ;

    /// The rows that a lookup through the index of column `column_name`
    /// finds.
    fn index_select<F: Fn(&DataType) -> bool, P: Fn(&str) -> Option<u64>>(
        &self,
        column_name: &str,
        predicate: F,
        parse_float: P,
    ) -> (r: Result<ColumnStoreRelation, RelationErrors>)
        requires
            forall|d: &DataType| call_requires(predicate, (d,)),
            forall|t: &str| call_requires(parse_float, (t,)),
        ensures
            looks_up(predicate, parse_float, self.store(), column_name@, r),
    ;

    /// The nested-loop join with `other_relation`. Where both join columns
    /// are stored, no column that the join shows may be shorter than the join
    /// column of its relation.
    fn nested_loop_join<F: Fn(&DataType, &DataType) -> bool>(
        &self,
        other_relation: &ColumnStoreRelation,
        r_col: &str,
        s_col: &str,
        predicate: F,
    ) -> (r: Result<ColumnStoreRelation, RelationErrors>)
        requires
            forall|a: &DataType, b: &DataType| call_requires(predicate, (a, b)),
            join_reaches(self.store(), *other_relation, r_col@, s_col@),
        ensures
            nested_joins(predicate, self.store(), *other_relation, r_col@, s_col@, r),
    ;

    /// The merge join with `other_relation`. Where both join columns are
    /// stored, no column that the join shows may be shorter than the join
    /// column of its relation.
    fn merge_join<F: Fn(&DataType, &DataType) -> bool>(
        &self,
        other_relation: &ColumnStoreRelation,
        r_col: &str,
        s_col: &str,
        predicate: F,
    ) -> (r: Result<ColumnStoreRelation, RelationErrors>)
        requires
            forall|a: &DataType, b: &DataType| call_requires(predicate, (a, b)),
            join_reaches(self.store(), *other_relation, r_col@, s_col@),
        ensures
            merge_joins(predicate, self.store(), *other_relation, r_col@, s_col@, r),
    ;

    /// The hash join with `other_relation`. Where both join columns are
    /// stored, no column that the join shows may be shorter than the join
    /// column of its relation.
    fn hash_join<F: Fn(&DataType, &DataType) -> bool>(
        &self,
        other_relation: &ColumnStoreRelation,
        r_col: &str,
        s_col: &str,
        predicate: F,
    ) -> (r: Result<ColumnStoreRelation, RelationErrors>)
        requires
            forall|a: &DataType, b: &DataType| call_requires(predicate, (a, b)),
            join_reaches(self.store(), *other_relation, r_col@, s_col@),
        ensures
            hash_joins(predicate, self.store(), *other_relation, r_col@, s_col@, r),
    ;
}

impl Relation for ColumnStoreRelation {
    open spec fn store(&self) -> ColumnStoreRelation {
        *self
    }

    fn get_table_name(&self) -> (r: String) {
        ColumnStoreRelation::get_table_name(self)
    }

    fn get_select_columns(&self) -> (r: &Vec<String>) {
        ColumnStoreRelation::get_select_columns(self)
    }

    fn load_csv<P: Fn(&str) -> Option<u64>>(
        &mut self,
        data: &[u8],
        table_name: &str,
        delimiter: &str,
        select_columns: Vec<&str>,
        parse_float: P,
    ) -> (r: Result<(), RelationErrors>) {
        ColumnStoreRelation::load_csv(self, data, table_name, delimiter, select_columns, parse_float)
    }

    fn save(&self) -> (r: Result<Vec<u8>, RelationErrors>) {
        ColumnStoreRelation::save(self)
    }

    fn num_tuples(&self) -> (r: Result<usize, RelationErrors>) {
        ColumnStoreRelation::num_tuples(self)
    }

    fn pretty_print(&self) -> (r: String) {
        self.render()
    }

    fn add_tuple(&mut self, tuple: Vec<DataType>) -> (r: Result<(), RelationErrors>) {
        ColumnStoreRelation::add_tuple(self, tuple)
    }

    fn delete_tuple<F: Fn(&DataType) -> bool>(&mut self, column_name: &str, predicate: F) -> (r: Result<
        usize,
        RelationErrors,
    >) {
        ColumnStoreRelation::delete_tuple(self, column_name, predicate)
    }

    fn update_tuple<F: Fn(&DataType) -> bool, G: Fn(&DataType) -> DataType>(
        &mut self,
        target_column: &str,
        filter_column: &str,
        predicate: F,
        update_func: G,
    ) -> (r: Result<usize, RelationErrors>) {
        ColumnStoreRelation::update_tuple(self, target_column, filter_column, predicate, update_func)
    }

    fn scan<F: Fn(&DataType) -> bool>(&mut self, select_columns: Vec<&str>, predicate: F) -> (r: Result<
        ColumnStoreRelation,
        RelationErrors,
    >) {
        ColumnStoreRelation::scan(self, select_columns, predicate)
    }

    fn select<F: Fn(&DataType) -> bool>(&mut self, column_name: &str, predicate: F) -> (r: Result<
        ColumnStoreRelation,
        RelationErrors,
    >) {
        ColumnStoreRelation::select(self, column_name, predicate)
    }

    fn project(&self, columns_to_keep: Vec<&str>) -> (r: Result<ColumnStoreRelation, RelationErrors>) {
        ColumnStoreRelation::project(self, columns_to_keep)
    }

    fn aggr<A: Fn(u64, u64) -> u64, D: Fn(u64, usize) -> u64>(
        &self,
        column_name: &str,
        aggregation: Aggregation,
        plus: A,
        divide: D,
    ) -> (r: Result<DataType, RelationErrors>) {
        ColumnStoreRelation::aggr(self, column_name, aggregation, plus, divide)
    }

    fn sort(&mut self, column_name: &str, order: Order) -> (r: Result<(), RelationErrors>) {
        ColumnStoreRelation::sort(self, column_name, order)
    }

    fn create_index(&mut self, column_name: &str) -> (r: Result<(), RelationErrors>) {
        ColumnStoreRelation::create_index(self, column_name)
    }

    fn index_select<F: Fn(&DataType) -> bool, P: Fn(&str) -> Option<u64>>(
        &self,
        column_name: &str,
        predicate: F,
        parse_float: P,
    ) -> (r: Result<ColumnStoreRelation, RelationErrors>) {
        ColumnStoreRelation::index_select(self, column_name, predicate, parse_float)
    }

    fn nested_loop_join<F: Fn(&DataType, &DataType) -> bool>(
        &self,
        other_relation: &ColumnStoreRelation,
        r_col: &str,
        s_col: &str,
        predicate: F,
    ) -> (r: Result<ColumnStoreRelation, RelationErrors>) {
        ColumnStoreRelation::nested_loop_join(self, other_relation, r_col, s_col, predicate)
    }

    fn merge_join<F: Fn(&DataType, &DataType) -> bool>(
        &self,
        other_relation: &ColumnStoreRelation,
        r_col: &str,
        s_col: &str,
        predicate: F,
    ) -> (r: Result<ColumnStoreRelation, RelationErrors>) {
        ColumnStoreRelation::merge_join(self, other_relation, r_col, s_col, predicate)
    }

    fn hash_join<F: Fn(&DataType, &DataType) -> bool>(
        &self,
        other_relation: &ColumnStoreRelation,
        r_col: &str,
        s_col: &str,
        predicate: F,
    ) -> (r: Result<ColumnStoreRelation, RelationErrors>) {
        ColumnStoreRelation::hash_join(self, other_relation, r_col, s_col, predicate)
    }
}

} // verus!
