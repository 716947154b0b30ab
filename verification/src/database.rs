use vstd::prelude::*;
use vstd::string::StringExecFns;
use crate::aggregate::aggregates;
use crate::dtype::{value_text, views, DataType, Value};
use crate::errors::{quoted, RelationErrors};
use crate::index::indexed;
use crate::interface::{
    slice_texts, texts, Aggregation, ColumnStoreRelation, JoinType, Order, Table,
};
use crate::join::{hash_joins, join_reaches, merge_joins, nested_joins};
use crate::persist::csv_loaded;
use crate::relation::{agrees, first_missing, project_of, projects, select_of, selects};
use crate::sort::{reaches, sorted_to};
use crate::text::{
    split_words, str_eq, strip_trailing, to_upper, uppercase, without_trailing, words,
};
use crate::textmap::TextMap;

verus! {

/// A set of relations, each under its name.
pub struct Database {
    relations: TextMap<ColumnStoreRelation>,
    name: String,
}

/// A statement of the query language.
#[derive(Debug)]
pub enum SqlCommand {
    /// The columns `columns` of the rows of `table`, of all rows or of those
    /// whose value in one column has a given canonical text.
    Select { columns: Vec<String>, table: String, where_clause: Option<(String, String)> },
}

/// What a statement says, with every text taken as a mathematical value.
pub struct Query {
    pub columns: Seq<Seq<char>>,
    pub table: Seq<char>,
    pub condition: Option<(Seq<char>, Seq<char>)>,
}

impl View for SqlCommand {
    type V = Query;

    open spec fn view(&self) -> Query {
        match self {
            SqlCommand::Select { columns, table, where_clause } => Query {
                columns: texts(columns@),
                table: table@,
                condition: match where_clause {
                    Some((column, value)) => Some((column@, value@)),
                    None => None,
                },
            },
        }
    }
}

/// The first place from `i` on at which `upper` holds `FROM`, or its length
/// where there is none.
pub open spec fn from_at(upper: Seq<Seq<char>>, i: int) -> int
    decreases upper.len() - i,
{
    if 0 <= i < upper.len() && upper[i] != "FROM"@ {
        from_at(upper, i + 1)
    } else {
        i
    }
}

/// The condition that the words from place `i` on make: none where there is
/// no word, and else one `WHERE` with a column and a value behind it and
/// nothing more. A `WHERE` with fewer than two words behind it is an error,
/// and so is any other word, in place of the `WHERE` or behind the value.
pub open spec fn condition_at(tokens: Seq<Seq<char>>, upper: Seq<Seq<char>>, i: int) -> Result<
    Option<(Seq<char>, Seq<char>)>,
    Seq<char>,
> {
    if i < 0 || i >= tokens.len() {
        Ok(None)
    } else if upper[i] != "WHERE"@ {
        Err("Unexpected token in query"@)
    } else if tokens.len() - (i + 1) < 2 {
        Err("Invalid WHERE clause"@)
    } else if tokens.len() - (i + 1) > 2 {
        Err("Unexpected token in query"@)
    } else {
        Ok(Some((tokens[i + 1], tokens[i + 2])))
    }
}

/// The names of the columns that the words from place `from` up to place
/// `to` request: each word without the commas at its end.
pub open spec fn requested(tokens: Seq<Seq<char>>, from: int, to: int) -> Seq<Seq<char>> {
    Seq::new(
        if to >= from {
            (to - from) as nat
        } else {
            0nat
        },
        |k: int| without_trailing(tokens[from + k], ','),
    )
}

/// The statement that a sequence of words makes, `upper` holding each word
/// in upper case, or the message of what is wrong with it. A statement is
/// `SELECT`, the requested columns, `FROM`, a table, and then nothing or one
/// condition `WHERE` column value; the three words of the language count in
/// any case of letters. Anything of another shape is an error.
pub open spec fn parsed(tokens: Seq<Seq<char>>, upper: Seq<Seq<char>>) -> Result<Query, Seq<char>> {
    if tokens.len() == 0 {
        Err("Empty query"@)
    } else if upper[0] != "SELECT"@ {
        Err("Only SELECT queries are supported"@)
    } else {
        let f = from_at(upper, 1);
        if f <= 1 {
            Err("Expected columns in SELECT clause"@)
        } else if f + 1 >= tokens.len() {
            Err("Expected table name"@)
        } else {
            match condition_at(tokens, upper, f + 2) {
                Ok(condition) => Ok(
                    Query { columns: requested(tokens, 1, f), table: tokens[f + 1], condition },
                ),
                Err(message) => Err(message),
            }
        }
    }
}

/// Each text in upper case.
pub open spec fn uppercased(tokens: Seq<Seq<char>>) -> Seq<Seq<char>> {
    tokens.map_values(|t: Seq<char>| uppercase(t))
}

/// Whether a result of parsing is the statement or the message `expected`.
pub open spec fn parses_to(r: Result<SqlCommand, String>, expected: Result<Query, Seq<char>>) -> bool {
    match (r, expected) {
        (Ok(command), Ok(query)) => command@ == query,
        (Err(message), Err(text)) => message@ == text,
        _ => false,
    }
}

/// The statement that the words `tokens` make, given each word in upper
/// case in `upper`.
pub fn parse_tokens(tokens: &Vec<String>, upper: &Vec<String>) -> (r: Result<SqlCommand, String>)
    requires
        upper@.len() == tokens@.len(),
    ensures
        parses_to(r, parsed(texts(tokens@), texts(upper@))),
{
    let ghost tv = texts(tokens@);
    let ghost uv = texts(upper@);
    let n = tokens.len();
    if n == 0 {
        return Err("Empty query".to_string());
    }
    assert(uv[0] == upper@[0]@);
    if !str_eq(upper[0].as_str(), "SELECT") {
        return Err("Only SELECT queries are supported".to_string());
    }
    let mut columns: Vec<String> = Vec::new();
    let mut f: usize = 1;
    while f < n && !str_eq(upper[f].as_str(), "FROM")
        invariant
            1 <= f <= n,
            n == tokens@.len(),
            n == upper@.len(),
            tv == texts(tokens@),
            uv == texts(upper@),
            from_at(uv, 1) == from_at(uv, f as int),
            texts(columns@) == requested(tv, 1, f as int),
        decreases n - f,
    {
        let ghost before = columns@;
        let column = strip_trailing(tokens[f].as_str(), ',');
        columns.push(column);
        proof {
            assert(uv[f as int] == upper@[f as int]@);
            assert(tv[f as int] == tokens@[f as int]@);
            assert(texts(columns@) =~= texts(before).push(column@));
            assert(requested(tv, 1, f + 1) =~= requested(tv, 1, f as int).push(
                without_trailing(tv[f as int], ','),
            ));
        }
        f += 1;
    }
    proof {
        if f < n {
            assert(uv[f as int] == upper@[f as int]@);
        }
        assert(from_at(uv, 1) == f);
    }
    if f == 1 {
        return Err("Expected columns in SELECT clause".to_string());
    }
    if n - f <= 1 {
        return Err("Expected table name".to_string());
    }
    let table = tokens[f + 1].clone();
    assert(tv[f + 1] == tokens@[f + 1]@);
    let i: usize = f + 2;
    if i >= n {
        return Ok(SqlCommand::Select { columns, table, where_clause: None });
    }
    assert(uv[i as int] == upper@[i as int]@);
    if !str_eq(upper[i].as_str(), "WHERE") {
        return Err("Unexpected token in query".to_string());
    }
    if n - (i + 1) < 2 {
        return Err("Invalid WHERE clause".to_string());
    }
    if n - (i + 1) > 2 {
        return Err("Unexpected token in query".to_string());
    }
    let column = tokens[i + 1].clone();
    let value = tokens[i + 2].clone();
    assert(tv[i + 1] == tokens@[i + 1]@);
    assert(tv[i + 2] == tokens@[i + 2]@);
    let where_clause = Some((column, value));
    Ok(SqlCommand::Select { columns, table, where_clause })
}

/// The statement that the text `query` makes: its words are what white space
/// separates.
pub fn parse_sql(query: &str) -> (r: Result<SqlCommand, String>)
    ensures
        parses_to(r, parsed(words(query@), uppercased(words(query@)))),
{
    let tokens = split_words(query);
    let mut upper: Vec<String> = Vec::new();
    let mut i: usize = 0;
    while i < tokens.len()
        invariant
            i <= tokens.len(),
            upper@.len() == i,
            forall|k: int| 0 <= k < i ==> (#[trigger] upper@[k])@ == uppercase(tokens@[k]@),
        decreases tokens.len() - i,
    {
        upper.push(to_upper(tokens[i].as_str()));
        i += 1;
    }
    assert(texts(upper@) =~= uppercased(texts(tokens@)));
    parse_tokens(&tokens, &upper)
}

/// For each row of a column, whether the canonical text of its value is
/// `value`.
pub open spec fn text_mask(col: Seq<Value>, value: Seq<char>) -> Seq<bool> {
    Seq::new(col.len(), |i: int| value_text(col[i]) == value)
}

/// The first of the first `k` requested columns that is not stored, if
/// there is one.
pub open spec fn first_absent(cols: Map<Seq<char>, Seq<Value>>, request: Seq<Seq<char>>, k: nat) -> Option<
    int,
>
    decreases k,
{
    if k == 0 {
        None
    } else {
        match first_absent(cols, request, (k - 1) as nat) {
            Some(i) => Some(i),
            None => if cols.contains_key(request[k - 1]) {
                None
            } else {
                Some(k - 1)
            },
        }
    }
}

/// The message for a column that is not stored.
pub open spec fn column_missing(name: Seq<char>) -> Seq<char> {
    "ColumnNotFound"@ + "("@ + quoted(name) + ")"@
}

/// What projecting the relation `t` onto the columns `request` gives to a
/// statement.
pub open spec fn projected(t: Table, request: Seq<Seq<char>>) -> Result<Table, Seq<char>> {
    match first_absent(t.columns, request, request.len()) {
        Some(i) => Err(column_missing(request[i])),
        None => Ok(project_of(t, request)),
    }
}

/// What a statement gives of the relations `tables`: the requested columns
/// of the rows of its table, of those rows only whose value in the column of
/// the condition has the canonical text that the condition gives, or the
/// message of what is wrong.
pub open spec fn executed(tables: Map<Seq<char>, Table>, q: Query) -> Result<Table, Seq<char>> {
    if !tables.contains_key(q.table) {
        Err("Table not found"@)
    } else {
        let t = tables[q.table];
        match q.condition {
            Some((column, value)) => {
                if !t.columns.contains_key(column) {
                    Err(column_missing(column))
                } else {
                    projected(select_of(t, text_mask(t.columns[column], value)), q.columns)
                }
            },
            None => projected(t, q.columns),
        }
    }
}

/// A first requested column that is not stored is the one that
/// `first_absent` gives, and where every requested column is stored it
/// gives none.
pub proof fn lemma_first_absent(cols: Map<Seq<char>, Seq<Value>>, request: Seq<Seq<char>>, k: nat)
    requires
        k <= request.len(),
    ensures
        match first_absent(cols, request, k) {
            Some(i) => 0 <= i < k && !cols.contains_key(request[i]) && forall|j: int|
                0 <= j < i ==> cols.contains_key(#[trigger] request[j]),
            None => forall|j: int| 0 <= j < k ==> cols.contains_key(#[trigger] request[j]),
        },
    decreases k,
{
    if k > 0 {
        lemma_first_absent(cols, request, (k - 1) as nat);
    }
}

/// Whether a result of a statement is the relation or the message
/// `expected`.
pub open spec fn gives(r: Result<ColumnStoreRelation, String>, expected: Result<Table, Seq<char>>) -> bool {
    match (r, expected) {
        (Ok(out), Ok(t)) => out@ == t,
        (Err(message), Err(text)) => message@ == text,
        _ => false,
    }
}

/// The relations of a database as mathematical values.
pub open spec fn tables(stored: Map<Seq<char>, ColumnStoreRelation>) -> Map<Seq<char>, Table> {
    Map::new(|k: Seq<char>| stored.contains_key(k), |k: Seq<char>| stored[k]@)
}

/// The requested columns of a relation, for a statement.
fn project_for(relation: &ColumnStoreRelation, columns: &Vec<String>) -> (r: Result<
    ColumnStoreRelation,
    String,
>)
    ensures
        gives(r, projected(relation@, texts(columns@))),
{
    let mut request: Vec<&str> = Vec::new();
    let mut i: usize = 0;
    while i < columns.len()
        invariant
            i <= columns.len(),
            slice_texts(request@) == texts(columns@).take(i as int),
        decreases columns.len() - i,
    {
        let ghost before = request@;
        request.push(columns[i].as_str());
        proof {
            assert(slice_texts(request@) =~= slice_texts(before).push(columns@[i as int]@));
            assert(texts(columns@).take(i + 1) =~= texts(columns@).take(i as int).push(
                columns@[i as int]@,
            ));
        }
        i += 1;
    }
    proof {
        assert(texts(columns@).take(i as int) =~= texts(columns@));
        lemma_first_absent(relation@.columns, texts(columns@), columns@.len());
    }
    let ghost wanted = texts(columns@);
    match relation.project(request) {
        Ok(out) => {
            proof {
                let found = first_absent(relation@.columns, wanted, wanted.len());
                if found is Some {
                    assert(relation@.columns.contains_key(wanted[found->0]));
                }
            }
            Ok(out)
        },
        Err(e) => {
            proof {
                let i = choose|i: int|
                    #[trigger] first_missing(relation@.columns, wanted, i) && (
                    e matches RelationErrors::ColumnNotFound(s) && s@ == wanted[i]);
                let found = first_absent(relation@.columns, wanted, wanted.len());
                if found is None {
                    assert(relation@.columns.contains_key(wanted[i]));
                } else if found->0 < i {
                    assert(relation@.columns.contains_key(wanted[found->0]));
                } else if i < found->0 {
                    assert(relation@.columns.contains_key(wanted[i]));
                }
            }
            Err(e.describe())
        },
    }
}

impl Database {
    /// The relations, each under its name.
    pub closed spec fn stored(&self) -> Map<Seq<char>, ColumnStoreRelation> {
        self.relations@
    }

    /// The name of the database.
    pub closed spec fn title(&self) -> Seq<char> {
        self.name@
    }

    /// A database without relations.
    pub fn new(name: &str) -> (r: Result<Self, std::io::Error>)
        ensures
            r matches Ok(db) && db.title() == name@ && db.stored() == Map::<
                Seq<char>,
                ColumnStoreRelation,
            >::empty(),
    {
        Ok(Database { relations: TextMap::new(), name: name.to_string() })
    }

    /// Puts `relation` under `name`, in place of what may stand there.
    pub fn add_relation(&mut self, name: String, relation: ColumnStoreRelation)
        ensures
            final(self).stored() == old(self).stored().insert(name@, relation),
            final(self).title() == old(self).title(),
    {
        self.relations.insert(name, relation);
    }

    /// Puts an empty relation under `name`. Fails with
    /// `RelationAlreadyExists`, and changes nothing, exactly where the name
    /// is taken.
    pub fn create_relation(&mut self, name: &str) -> (r: Result<(), RelationErrors>)
        ensures
            final(self).title() == old(self).title(),
            match r {
                Ok(_) => !old(self).stored().contains_key(name@) && final(self).stored().dom() == old(
                    self,
                ).stored().dom().insert(name@) && final(self).stored()[name@]@
                    == crate::relation::empty_table() && forall|k: Seq<char>|
                    old(self).stored().contains_key(k) ==> #[trigger] final(self).stored()[k] == old(
                        self,
                    ).stored()[k],
                Err(e) => old(self).stored().contains_key(name@) && final(self).stored() == old(
                    self,
                ).stored() && e is RelationAlreadyExists,
            },
    {
        if self.relations.contains_key(name) {
            Err(RelationErrors::RelationAlreadyExists)
        } else {
            self.relations.insert(name.to_string(), ColumnStoreRelation::new());
            Ok(())
        }
    }

    /// Fills the relation `name` from the bytes of a delimited text. Fails
    /// with `RelationNotFound`, and changes nothing, exactly where there is
    /// no such relation.
    pub fn load_from_csv<P: Fn(&str) -> Option<u64>>(
        &mut self,
        name: &str,
        data: &[u8],
        delimiter: &str,
        select_columns: Vec<&str>,
        parse_float: P,
    ) -> (r: Result<(), RelationErrors>)
        requires
            forall|t: &str| call_requires(parse_float, (t,)),
        ensures
            final(self).title() == old(self).title(),
            if old(self).stored().contains_key(name@) {
                final(self).stored().contains_key(name@) && final(self).stored() == old(
                    self,
                ).stored().insert(name@, final(self).stored()[name@]) && csv_loaded(
                    parse_float,
                    old(self).stored()[name@],
                    final(self).stored()[name@],
                    data@,
                    name@,
                    slice_texts(select_columns@),
                    r,
                )
            } else {
                final(self).stored() == old(self).stored() && (r matches Err(
                    RelationErrors::RelationNotFound,
                ))
            },
    {
        match self.relations.position(name) {
            Some(at) => {
                let mut relation = self.relations.replace_at(at, ColumnStoreRelation::new());
                let r = relation.load_csv(data, name, delimiter, select_columns, parse_float);
                let ghost after = relation;
                let _ = self.relations.replace_at(at, relation);
                assert(self.relations@ =~= old(self).relations@.insert(name@, after));
                r
            },
            None => Err(RelationErrors::RelationNotFound),
        }
    }

    /// What is printed to show the relation `name`: a line with the name of
    /// the database, a point and the name of the relation, and under it the
    /// table that shows the relation. Fails with `RelationNotFound` exactly
    /// where there is no such relation.
    pub fn pretty_print_relation(&self, name: &str) -> (r: Result<String, RelationErrors>)
        ensures
            match r {
                Ok(text) => self.stored().contains_key(name@) && exists|table: Seq<char>|
                    #[trigger] crate::pretty::draws(self.stored()[name@]@, table) && text@
                        == self.title() + "."@ + name@ + "\n"@ + table,
                Err(e) => !self.stored().contains_key(name@) && e is RelationNotFound,
            },
    {
        match self.relations.get(name) {
            Some(relation) => {
                let mut text = self.name.clone();
                text.append(".");
                text.append(name);
                text.append("\n");
                let table = relation.render();
                text.append(table.as_str());
                assert(crate::pretty::draws(self.stored()[name@]@, table@));
                Ok(text)
            },
            None => Err(RelationErrors::RelationNotFound),
        }
    }

    /// The relation `name`, if there is one.
    pub fn get_relation(&self, name: &str) -> (r: Option<&ColumnStoreRelation>)
        ensures
            match r {
                Some(relation) => self.stored().contains_key(name@) && *relation == self.stored()[name@],
                None => !self.stored().contains_key(name@),
            },
    {
        self.relations.get(name)
    }

    /// The name of the database.
    pub fn get_name(&self) -> (r: &str)
        ensures
            r@ == self.title(),
    {
        self.name.as_str()
    }

    /// The rows of the relation `name` on which `predicate` holds of the
    /// value in column `column_name`. Fails with `RelationNotFound` exactly
    /// where there is no such relation.
    pub fn select_from_relation<F: Fn(&DataType) -> bool>(
        &mut self,
        name: &str,
        column_name: &str,
        predicate: F,
    ) -> (r: Result<ColumnStoreRelation, RelationErrors>)
        requires
            forall|d: &DataType| call_requires(predicate, (d,)),
        ensures
            final(self).stored() == old(self).stored(),
            final(self).title() == old(self).title(),
            if old(self).stored().contains_key(name@) {
                selects(predicate, old(self).stored()[name@], column_name@, r)
            } else {
                r matches Err(RelationErrors::RelationNotFound)
            },
    {
        match self.relations.position(name) {
            Some(at) => {
                let mut relation = self.relations.replace_at(at, ColumnStoreRelation::new());
                let r = relation.select(column_name, predicate);
                let _ = self.relations.replace_at(at, relation);
                assert(self.relations@ =~= old(self).relations@);
                r
            },
            None => Err(RelationErrors::RelationNotFound),
        }
    }

    /// The requested columns of the relation `name`. Fails with
    /// `RelationNotFound` exactly where there is no such relation.
    pub fn project_relation(&mut self, name: &str, columns_to_keep: Vec<&str>) -> (r: Result<
        ColumnStoreRelation,
        RelationErrors,
    >)
        ensures
            final(self).stored() == old(self).stored(),
            final(self).title() == old(self).title(),
            if old(self).stored().contains_key(name@) {
                projects(old(self).stored()[name@]@, slice_texts(columns_to_keep@), r)
            } else {
                r matches Err(RelationErrors::RelationNotFound)
            },
    {
        match self.relations.get(name) {
            Some(relation) => relation.project(columns_to_keep),
            None => Err(RelationErrors::RelationNotFound),
        }
    }

    /// Column `column_name` of the relation `relation_name` reduced to one
    /// value. Fails with `RelationNotFound` exactly where there is no such
    /// relation.
    pub fn aggregate<A: Fn(u64, u64) -> u64, D: Fn(u64, usize) -> u64>(
        &self,
        relation_name: &str,
        column_name: &str,
        aggregation: Aggregation,
        plus: A,
        divide: D,
    ) -> (r: Result<DataType, RelationErrors>)
        requires
            forall|x: u64, y: u64| call_requires(plus, (x, y)),
            forall|x: u64, n: usize| call_requires(divide, (x, n)),
        ensures
            if self.stored().contains_key(relation_name@) {
                aggregates(plus, divide, self.stored()[relation_name@], column_name@, aggregation, r)
            } else {
                r matches Err(RelationErrors::RelationNotFound)
            },
    {
        match self.relations.get(relation_name) {
            Some(relation) => relation.aggr(column_name, aggregation, plus, divide),
            None => Err(RelationErrors::RelationNotFound),
        }
    }

    /// Sorts the relation `relation_name` by column `column_name`. Fails
    /// with `RelationNotFound`, and changes nothing, exactly where there is
    /// no such relation.
    pub fn sort_relation(&mut self, relation_name: &str, column_name: &str, order: Order) -> (r: Result<
        (),
        RelationErrors,
    >)
        requires
            old(self).stored().contains_key(relation_name@) && old(
                self,
            ).stored()[relation_name@].columns@.contains_key(column_name@) ==> reaches(
                old(self).stored()[relation_name@].columns@,
                column_name@,
            ),
        ensures
            final(self).title() == old(self).title(),
            if old(self).stored().contains_key(relation_name@) {
                final(self).stored().contains_key(relation_name@) && final(self).stored() == old(
                    self,
                ).stored().insert(relation_name@, final(self).stored()[relation_name@]) && sorted_to(
                    old(self).stored()[relation_name@],
                    final(self).stored()[relation_name@],
                    column_name@,
                    order is Desc,
                    r,
                )
            } else {
                final(self).stored() == old(self).stored() && (r matches Err(
                    RelationErrors::RelationNotFound,
                ))
            },
    {
        match self.relations.position(relation_name) {
            Some(at) => {
                let mut relation = self.relations.replace_at(at, ColumnStoreRelation::new());
                let r = relation.sort(column_name, order);
                let ghost after = relation;
                let _ = self.relations.replace_at(at, relation);
                assert(self.relations@ =~= old(self).relations@.insert(relation_name@, after));
                r
            },
            None => Err(RelationErrors::RelationNotFound),
        }
    }

    /// Builds the index of column `column_name` of the relation
    /// `relation_name`. Fails with `RelationNotFound`, and changes nothing,
    /// exactly where there is no such relation.
    pub fn create_index(&mut self, relation_name: &str, column_name: &str) -> (r: Result<
        (),
        RelationErrors,
    >)
        ensures
            final(self).title() == old(self).title(),
            if old(self).stored().contains_key(relation_name@) {
                final(self).stored().contains_key(relation_name@) && final(self).stored() == old(
                    self,
                ).stored().insert(relation_name@, final(self).stored()[relation_name@]) && indexed(
                    old(self).stored()[relation_name@],
                    final(self).stored()[relation_name@],
                    column_name@,
                    r,
                )
            } else {
                final(self).stored() == old(self).stored() && (r matches Err(
                    RelationErrors::RelationNotFound,
                ))
            },
    {
        match self.relations.position(relation_name) {
            Some(at) => {
                let mut relation = self.relations.replace_at(at, ColumnStoreRelation::new());
                let r = relation.create_index(column_name);
                let ghost after = relation;
                let _ = self.relations.replace_at(at, relation);
                assert(self.relations@ =~= old(self).relations@.insert(relation_name@, after));
                r
            },
            None => Err(RelationErrors::RelationNotFound),
        }
    }

    /// Joins the relation `r_name` with the relation `s_name` by the
    /// algorithm `jt`. Fails with `RelationNotFound`, without asking the
    /// predicate anything, exactly where one of the two relations is not
    /// there. Where both are there and store their join columns, no column
    /// that the join shows may be shorter than the join column of its
    /// relation.
    pub fn join<F: Fn(&DataType, &DataType) -> bool>(
        &mut self,
        r_name: &str,
        r_col: &str,
        s_name: &str,
        s_col: &str,
        predicate: F,
        jt: JoinType,
    ) -> (r: Result<ColumnStoreRelation, RelationErrors>)
        requires
            forall|a: &DataType, b: &DataType| call_requires(predicate, (a, b)),
            old(self).stored().contains_key(r_name@) && old(self).stored().contains_key(s_name@)
                ==> join_reaches(
                old(self).stored()[r_name@],
                old(self).stored()[s_name@],
                r_col@,
                s_col@,
            ),
        ensures
            final(self).stored() == old(self).stored(),
            final(self).title() == old(self).title(),
            if old(self).stored().contains_key(r_name@) && old(self).stored().contains_key(s_name@) {
                match jt {
                    JoinType::NestedLoop => nested_joins(
                        predicate,
                        old(self).stored()[r_name@],
                        old(self).stored()[s_name@],
                        r_col@,
                        s_col@,
                        r,
                    ),
                    JoinType::MergeJoin => merge_joins(
                        predicate,
                        old(self).stored()[r_name@],
                        old(self).stored()[s_name@],
                        r_col@,
                        s_col@,
                        r,
                    ),
                    JoinType::HashJoin => hash_joins(
                        predicate,
                        old(self).stored()[r_name@],
                        old(self).stored()[s_name@],
                        r_col@,
                        s_col@,
                        r,
                    ),
                }
            } else {
                r matches Err(RelationErrors::RelationNotFound)
            },
    {
        let left = match self.relations.get(r_name) {
            Some(relation) => relation,
            None => {
                return Err(RelationErrors::RelationNotFound);
            },
        };
        let right = match self.relations.get(s_name) {
            Some(relation) => relation,
            None => {
                return Err(RelationErrors::RelationNotFound);
            },
        };
        match jt {
            JoinType::NestedLoop => left.nested_loop_join(right, r_col, s_col, predicate),
            JoinType::MergeJoin => left.merge_join(right, r_col, s_col, predicate),
            JoinType::HashJoin => left.hash_join(right, r_col, s_col, predicate),
        }
    }

    /// Carries out the statement that the text `query` makes: the requested
    /// columns of its table, of all rows or of the rows that its condition
    /// picks. Gives the message of what is wrong where the text is no
    /// statement, the table is not there, or a column is not stored.
    pub fn execute_sql(&mut self, query: &str) -> (r: Result<ColumnStoreRelation, String>)
        ensures
            final(self).stored() == old(self).stored(),
            final(self).title() == old(self).title(),
            match parsed(words(query@), uppercased(words(query@))) {
                Ok(q) => gives(r, executed(tables(old(self).stored()), q)),
                Err(message) => r matches Err(text) && text@ == message,
            },
    {
        let command = match parse_sql(query) {
            Ok(command) => command,
            Err(message) => {
                return Err(message);
            },
        };
        match command {
            SqlCommand::Select { columns, table, where_clause } => {
                let relation = match self.relations.get(table.as_str()) {
                    Some(relation) => relation,
                    None => {
                        return Err("Table not found".to_string());
                    },
                };
                match where_clause {
                    Some((column, value)) => {
                        let mut copy = relation.clone();
                        let matches_text = |d: &DataType| -> (b: bool)
                            ensures
                                b == (value_text(d@) == value@),
                            { str_eq(d.to_str().as_str(), value.as_str()) };
                        let selected = match copy.select(column.as_str(), matches_text) {
                            Ok(selected) => selected,
                            Err(e) => {
                                return Err(e.describe());
                            },
                        };
                        proof {
                            let col = copy.columns@[column@]@;
                            let answers = choose|answers: Seq<bool>|
                                #[trigger] agrees(matches_text, col, answers) && selected@
                                    == select_of(copy@, answers);
                            assert(views(col) == relation@.columns[column@]);
                            assert(answers =~= text_mask(relation@.columns[column@], value@)) by {
                                assert forall|i: int| 0 <= i < answers.len() implies answers[i]
                                    == text_mask(relation@.columns[column@], value@)[i] by {
                                    assert(call_ensures(matches_text, (&col[i],), answers[i]));
                                    assert(views(col)[i] == col[i]@);
                                }
                            }
                        }
                        project_for(&selected, &columns)
                    },
                    None => project_for(relation, &columns),
                }
            },
        }
    }
}

} // verus!
