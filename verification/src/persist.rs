use vstd::prelude::*;
use crate::dtype::{reads_as, value_text, views, DataType, Value};
use crate::errors::RelationErrors;
use crate::index::{longest, tallest};
use crate::interface::{slice_texts, texts, ColumnStoreRelation, Table};
use crate::text::str_eq;
use crate::textmap::TextMap;

verus! {

/// The field names that `csv::Reader::headers` reads off the bytes of a
/// delimited text, or `None` where it reports an error.
pub uninterp spec fn csv_header(data: Seq<u8>) -> Option<Seq<Seq<char>>>;

/// The records behind the header that `csv::Reader::into_records` reads off
/// the bytes of a delimited text, each as its fields, or `None` where it
/// reports an error for one of them.
pub uninterp spec fn csv_records(data: Seq<u8>) -> Option<Seq<Seq<Seq<char>>>>;

/// The bytes that `csv::Writer::write_record` writes for one record, or
/// `None` where it reports an error.
pub uninterp spec fn csv_line(fields: Seq<Seq<char>>) -> Option<Seq<u8>>;

/// The fields of each record of a list.
pub open spec fn rows_texts(rows: Seq<Vec<String>>) -> Seq<Seq<Seq<char>>> {
    rows.map_values(|r: Vec<String>| texts(r@))
}

/// `csv::Reader::headers` on a reader over the bytes: the field names of
/// the first record, which depend on nothing but the bytes.
#[verifier::external_body]
fn read_header(data: &[u8]) -> (r: Result<Vec<String>, csv::Error>)
    ensures
        match r {
            Ok(names) => csv_header(data@) == Some(texts(names@)),
            Err(_) => csv_header(data@) is None,
        },
{
    csv::Reader::from_reader(data).headers().map(|h| h.iter().map(String::from).collect())
}

/// `csv::Reader::into_records` on a reader over the bytes: the records
/// behind the first, or the first error that reading them meets; both depend
/// on nothing but the bytes.
#[verifier::external_body]
fn read_records(data: &[u8]) -> (r: Result<Vec<Vec<String>>, csv::Error>)
    ensures
        match r {
            Ok(rows) => csv_records(data@) == Some(rows_texts(rows@)),
            Err(_) => csv_records(data@) is None,
        },
{
    csv::Reader::from_reader(data).into_records().map(
        |r| r.map(|record| record.iter().map(String::from).collect()),
    ).collect()
}

/// `csv::Writer::write_record` on a writer into memory: the bytes of one
/// record, which depend on nothing but its fields.
#[verifier::external_body]
fn write_line(fields: &Vec<String>) -> (r: Result<Vec<u8>, csv::Error>)
    ensures
        match r {
            Ok(bytes) => csv_line(texts(fields@)) == Some(bytes@),
            Err(_) => csv_line(texts(fields@)) is None,
        },
{
    let mut writer = csv::Writer::from_writer(Vec::new());
    writer.write_record(fields)?;
    writer.into_inner().map_err(|e| csv::Error::from(e.into_error()))
}

/// The `Display` form of a `csv::Error`. Nothing is said of the text.
#[verifier::external_body]
fn error_text(e: &csv::Error) -> (r: String) {
    e.to_string()
}

/// What the first `m` fields of a record give to column `k`: the value of
/// each field that stands under the header `k`, in their order.
pub open spec fn row_part(header: Seq<Seq<char>>, row: Seq<Value>, k: Seq<char>, m: nat) -> Seq<Value>
    decreases m,
{
    if m == 0 {
        Seq::<Value>::empty()
    } else if m - 1 < row.len() && header[m - 1] == k {
        row_part(header, row, k, (m - 1) as nat).push(row[m - 1])
    } else {
        row_part(header, row, k, (m - 1) as nat)
    }
}

/// Column `k` after the first `n` records: what each record gives to it, in
/// the order of the records.
pub open spec fn column_of(header: Seq<Seq<char>>, cells: Seq<Seq<Value>>, k: Seq<char>, n: nat) -> Seq<
    Value,
>
    decreases n,
{
    if n == 0 {
        Seq::<Value>::empty()
    } else {
        column_of(header, cells, k, (n - 1) as nat) + row_part(header, cells[n - 1], k, header.len())
    }
}

/// The columns that a load stores: one for each header that is to be
/// retained, with the values that the records hold under it.
pub open spec fn loaded(header: Seq<Seq<char>>, retain: Seq<Seq<char>>, cells: Seq<Seq<Value>>) -> Map<
    Seq<char>,
    Seq<Value>,
> {
    Map::new(
        |k: Seq<char>| header.contains(k) && retain.contains(k),
        |k: Seq<char>| column_of(header, cells, k, cells.len()),
    )
}

/// Whether `cells` holds for each record the values of its fields, as far
/// as the header reaches: under a header that is retained a value that the
/// field can be read as.
pub open spec fn read_cells<P: Fn(&str) -> Option<u64>>(
    parse_float: P,
    header: Seq<Seq<char>>,
    retain: Seq<Seq<char>>,
    records: Seq<Seq<Seq<char>>>,
    cells: Seq<Seq<Value>>,
) -> bool {
    &&& cells.len() == records.len()
    &&& forall|r: int|
        0 <= r < cells.len() ==> (#[trigger] cells[r]).len() <= records[r].len() && cells[r].len()
            <= header.len() && (cells[r].len() == records[r].len() || cells[r].len() == header.len())
    &&& forall|r: int, c: int|
        0 <= r < cells.len() && 0 <= c < cells[r].len() && retain.contains(header[c]) ==> reads_as(
            parse_float,
            records[r][c],
            #[trigger] cells[r][c],
        )
}

/// What a load makes of a relation: its name, display schema and columns are
/// new, its metadata and indices stay.
pub open spec fn loaded_table(
    t: Table,
    name: Seq<char>,
    header: Seq<Seq<char>>,
    retain: Seq<Seq<char>>,
    cells: Seq<Seq<Value>>,
) -> Table {
    Table { name, columns: loaded(header, retain, cells), display: retain, ..t }
}

/// What the first fields of a record give depends on those fields only.
pub proof fn lemma_row_part_prefix(
    header: Seq<Seq<char>>,
    a: Seq<Value>,
    b: Seq<Value>,
    k: Seq<char>,
    m: nat,
)
    requires
        m <= a.len(),
        m <= b.len(),
        forall|j: int| 0 <= j < m ==> a[j] == b[j],
    ensures
        row_part(header, a, k, m) == row_part(header, b, k, m),
    decreases m,
{
    if m > 0 {
        lemma_row_part_prefix(header, a, b, k, (m - 1) as nat);
    }
}

/// Beyond the end of a record there is nothing to give.
pub proof fn lemma_row_part_beyond(header: Seq<Seq<char>>, row: Seq<Value>, k: Seq<char>, m: nat)
    requires
        m >= row.len(),
    ensures
        row_part(header, row, k, m) == row_part(header, row, k, row.len()),
    decreases m,
{
    if m > row.len() {
        lemma_row_part_beyond(header, row, k, (m - 1) as nat);
    }
}

/// A column after the first records depends on those records only.
pub proof fn lemma_column_of_prefix(
    header: Seq<Seq<char>>,
    x: Seq<Seq<Value>>,
    y: Seq<Seq<Value>>,
    k: Seq<char>,
    n: nat,
)
    requires
        n <= x.len(),
        n <= y.len(),
        forall|j: int| 0 <= j < n ==> x[j] == y[j],
    ensures
        column_of(header, x, k, n) == column_of(header, y, k, n),
    decreases n,
{
    if n > 0 {
        lemma_column_of_prefix(header, x, y, k, (n - 1) as nat);
    }
}

/// What loading the bytes of a delimited text makes of the relation
/// `before`: `after` holds the columns of the text that are to be retained,
/// or is `before` itself where the text cannot be read, which gives
/// `ReadError`.
pub open spec fn csv_loaded<P: Fn(&str) -> Option<u64>>(
    parse_float: P,
    before: ColumnStoreRelation,
    after: ColumnStoreRelation,
    data: Seq<u8>,
    name: Seq<char>,
    retain: Seq<Seq<char>>,
    r: Result<(), RelationErrors>,
) -> bool {
    match r {
        Ok(_) => csv_header(data) is Some && csv_records(data) is Some && exists|cells: Seq<Seq<Value>>|
            read_cells(parse_float, csv_header(data)->0, retain, csv_records(data)->0, cells)
                && after@ == #[trigger] loaded_table(before@, name, csv_header(data)->0, retain, cells),
        Err(e) => (csv_header(data) is None || csv_records(data) is None) && after == before && (
        e matches RelationErrors::ReadError(s) && s@ == "Error reading csv"@),
    }
}

/// Whether `name` is one of the names of a list.
fn listed_name(list: &Vec<&str>, name: &str) -> (r: bool)
    ensures
        r == slice_texts(list@).contains(name@),
{
    let mut i: usize = 0;
    while i < list.len()
        invariant
            i <= list.len(),
            forall|j: int| 0 <= j < i ==> slice_texts(list@)[j] != name@,
        decreases list.len() - i,
    {
        if str_eq(list[i], name) {
            assert(slice_texts(list@)[i as int] == name@);
            return true;
        }
        i += 1;
    }
    false
}

/// An empty column for each header that is to be retained.
fn empty_columns(header: &Vec<String>, select_columns: &Vec<&str>) -> (r: TextMap<Vec<DataType>>)
    ensures
        forall|k: Seq<char>|
            r@.contains_key(k) <==> (texts(header@).contains(k) && slice_texts(
                select_columns@,
            ).contains(k)),
        forall|k: Seq<char>| r@.contains_key(k) ==> (#[trigger] r@[k])@.len() == 0,
{
    let ghost names = texts(header@);
    let ghost retain = slice_texts(select_columns@);
    let mut out: TextMap<Vec<DataType>> = TextMap::new();
    let mut c: usize = 0;
    while c < header.len()
        invariant
            c <= header.len(),
            names == texts(header@),
            retain == slice_texts(select_columns@),
            forall|k: Seq<char>| #[trigger]
                out@.contains_key(k) <==> (names.take(c as int).contains(k) && retain.contains(k)),
            forall|k: Seq<char>| out@.contains_key(k) ==> (#[trigger] out@[k])@.len() == 0,
        decreases header.len() - c,
    {
        let ghost held = out@;
        let ghost earlier = names.take(c as int);
        let ghost here = names[c as int];
        assert(here == header@[c as int]@);
        if listed_name(select_columns, header[c].as_str()) {
            out.insert(header[c].clone(), Vec::new());
        }
        c += 1;
        proof {
            let upto = names.take(c as int);
            assert(upto =~= earlier.push(here));
            assert forall|k: Seq<char>| upto.contains(k) <==> (earlier.contains(k) || k == here) by {
                if earlier.contains(k) {
                    let j = choose|j: int| 0 <= j < earlier.len() && earlier[j] == k;
                    assert(upto[j] == k);
                }
                if k == here {
                    assert(upto[c - 1] == k);
                }
            }
            assert forall|k: Seq<char>| #[trigger]
                out@.contains_key(k) <==> (upto.contains(k) && retain.contains(k)) by {
                assert(held.contains_key(k) <==> (earlier.contains(k) && retain.contains(k)));
                assert(upto.contains(k) <==> (earlier.contains(k) || k == here));
            }
            assert forall|k: Seq<char>| out@.contains_key(k) implies (#[trigger] out@[k])@.len()
                == 0 by {
                if held.contains_key(k) {
                    assert(held[k]@.len() == 0);
                }
            }
        }
    }
    assert(names.take(c as int) =~= names);
    out
}

impl ColumnStoreRelation {
    /// Fills the relation from a header and the records under it. The
    /// relation takes the name `table_name` and the display schema
    /// `select_columns`, and stores one column for each name of the header
    /// that the display schema lists. Each field that stands under such a
    /// name is read as a value, `parse_float` being what reads a text as a
    /// floating-point number, and appended to the column of that name,
    /// record by record. A field under any other name, and a field beyond
    /// the end of the header, is passed over. Metadata and indices stay.
    pub fn load_records<P: Fn(&str) -> Option<u64>>(
        &mut self,
        table_name: &str,
        header: &Vec<String>,
        records: &Vec<Vec<String>>,
        select_columns: Vec<&str>,
        parse_float: &P,
    )
        requires
            forall|t: &str| call_requires(*parse_float, (t,)),
        ensures
            exists|cells: Seq<Seq<Value>>|
                read_cells(
                    *parse_float,
                    texts(header@),
                    slice_texts(select_columns@),
                    rows_texts(records@),
                    cells,
                ) && final(self)@ == #[trigger] loaded_table(
                    old(self)@,
                    table_name@,
                    texts(header@),
                    slice_texts(select_columns@),
                    cells,
                ),
    {
        let ghost names = texts(header@);
        let ghost retain = slice_texts(select_columns@);
        let ghost fields = rows_texts(records@);
        let mut columns = empty_columns(header, &select_columns);
        let ghost mut cells: Seq<Seq<Value>> = Seq::empty();
        let mut r: usize = 0;
        while r < records.len()
            invariant
                r <= records.len(),
                names == texts(header@),
                retain == slice_texts(select_columns@),
                fields == rows_texts(records@),
                forall|t: &str| call_requires(*parse_float, (t,)),
                forall|k: Seq<char>|
                    columns@.contains_key(k) <==> (names.contains(k) && retain.contains(k)),
                cells.len() == r,
                read_cells(*parse_float, names, retain, fields.take(r as int), cells),
                forall|k: Seq<char>|
                    columns@.contains_key(k) ==> views((#[trigger] columns@[k])@) == column_of(
                        names,
                        cells,
                        k,
                        r as nat,
                    ),
            decreases records.len() - r,
        {
            let record = &records[r];
            let width = if record.len() < header.len() {
                record.len()
            } else {
                header.len()
            };
            let ghost mut row: Seq<Value> = Seq::empty();
            let ghost texts_of_record = texts(record@);
            assert(fields[r as int] == texts_of_record);
            let mut c: usize = 0;
            while c < width
                invariant
                    c <= width,
                    width <= record@.len(),
                    width <= header@.len(),
                    names == texts(header@),
                    retain == slice_texts(select_columns@),
                    texts_of_record == texts(record@),
                    forall|t: &str| call_requires(*parse_float, (t,)),
                    forall|k: Seq<char>|
                        columns@.contains_key(k) <==> (names.contains(k) && retain.contains(k)),
                    row.len() == c,
                    forall|j: int|
                        0 <= j < c && retain.contains(names[j]) ==> reads_as(
                            *parse_float,
                            texts_of_record[j],
                            #[trigger] row[j],
                        ),
                    forall|k: Seq<char>|
                        columns@.contains_key(k) ==> views((#[trigger] columns@[k])@) == column_of(
                            names,
                            cells,
                            k,
                            r as nat,
                        ) + row_part(names, row, k, c as nat),
                decreases width - c,
            {
                let ghost held = columns@;
                let ghost was = row;
                let ghost here = names[c as int];
                assert(here == header@[c as int]@);
                assert(texts_of_record[c as int] == record@[c as int]@);
                assert(names.contains(here));
                match columns.position(header[c].as_str()) {
                    Some(at) => {
                        let value = DataType::read(record[c].as_str(), parse_float);
                        let mut col = columns.replace_at(at, Vec::new());
                        let ghost before = col@;
                        col.push(value);
                        let ghost full = col;
                        let _ = columns.replace_at(at, col);
                        proof {
                            row = was.push(value@);
                            assert(columns@ =~= held.insert(here, full));
                            assert(views(full@) =~= views(before).push(value@));
                        }
                    },
                    None => {
                        proof {
                            row = was.push(Value::Integer(0));
                        }
                    },
                }
                c += 1;
                proof {
                    assert forall|k: Seq<char>| columns@.contains_key(k) implies views(
                        (#[trigger] columns@[k])@,
                    ) == column_of(names, cells, k, r as nat) + row_part(names, row, k, c as nat) by {
                        lemma_row_part_prefix(names, was, row, k, (c - 1) as nat);
                        assert(views(held[k]@) == column_of(names, cells, k, r as nat) + row_part(
                            names,
                            was,
                            k,
                            (c - 1) as nat,
                        ));
                        assert(row[c - 1] == row.last());
                        if k == here {
                            assert(views(columns@[k]@) =~= views(held[k]@).push(row[c - 1]));
                            assert(row_part(names, row, k, c as nat) == row_part(
                                names,
                                row,
                                k,
                                (c - 1) as nat,
                            ).push(row[c - 1]));
                            assert(views(columns@[k]@) =~= column_of(names, cells, k, r as nat)
                                + row_part(names, row, k, c as nat));
                        }
                    }
                }
            }
            proof {
                let before = cells;
                cells = before.push(row);
                assert(fields.take(r + 1) =~= fields.take(r as int).push(fields[r as int]));
                assert forall|k: Seq<char>| columns@.contains_key(k) implies views(
                    (#[trigger] columns@[k])@,
                ) == column_of(names, cells, k, (r + 1) as nat) by {
                    lemma_column_of_prefix(names, before, cells, k, r as nat);
                    lemma_row_part_beyond(names, row, k, names.len());
                }
                assert(read_cells(*parse_float, names, retain, fields.take(r + 1), cells)) by {
                    assert forall|i: int, j: int|
                        0 <= i < cells.len() && 0 <= j < cells[i].len() && retain.contains(
                            names[j],
                        ) implies reads_as(
                        *parse_float,
                        fields.take(r + 1)[i][j],
                        #[trigger] cells[i][j],
                    ) by {
                        if i < r {
                            assert(cells[i] == before[i]);
                            assert(fields.take(r + 1)[i] == fields.take(r as int)[i]);
                        }
                    }
                    assert forall|i: int| 0 <= i < cells.len() implies (#[trigger] cells[i]).len()
                        <= fields.take(r + 1)[i].len() && cells[i].len() <= names.len() && (
                    cells[i].len() == fields.take(r + 1)[i].len() || cells[i].len() == names.len()) by {
                        if i < r {
                            assert(cells[i] == before[i]);
                            assert(fields.take(r + 1)[i] == fields.take(r as int)[i]);
                        }
                    }
                }
            }
            r += 1;
        }
        let mut display: Vec<String> = Vec::new();
        let mut i: usize = 0;
        while i < select_columns.len()
            invariant
                i <= select_columns.len(),
                retain == slice_texts(select_columns@),
                texts(display@) == retain.take(i as int),
            decreases select_columns.len() - i,
        {
            let ghost shown = display@;
            display.push(select_columns[i].to_string());
            proof {
                assert(texts(display@) =~= texts(shown).push(select_columns@[i as int]@));
                assert(retain.take(i + 1) =~= retain.take(i as int).push(retain[i as int]));
            }
            i += 1;
        }
        self.name = table_name.to_string();
        self.select_columns = display;
        self.columns = columns;
        proof {
            assert(retain.take(i as int) =~= retain);
            assert(fields.take(r as int) =~= fields);
            let goal = loaded_table(old(self)@, table_name@, names, retain, cells);
            assert(self@.columns =~= goal.columns);
        }
    }

    /// Fills the relation from the bytes of a delimited text, of which the
    /// first record is the header. The separator is the comma; `delimiter`
    /// is not looked at. What is stored is what `load_records` stores of the
    /// header and the records of the text. Fails with `ReadError`, and
    /// changes nothing, exactly where the text cannot be read.
    pub fn load_csv<P: Fn(&str) -> Option<u64>>(
        &mut self,
        data: &[u8],
        table_name: &str,
        delimiter: &str,
        select_columns: Vec<&str>,
        parse_float: P,
    ) -> (r: Result<(), RelationErrors>)
        requires
            forall|t: &str| call_requires(parse_float, (t,)),
        ensures
            csv_loaded(
                parse_float,
                *old(self),
                *final(self),
                data@,
                table_name@,
                slice_texts(select_columns@),
                r,
            ),
    {
        let header = match read_header(data) {
            Ok(header) => header,
            Err(e) => {
                return Err(RelationErrors::from(e));
            },
        };
        let records = match read_records(data) {
            Ok(records) => records,
            Err(e) => {
                return Err(RelationErrors::from(e));
            },
        };
        self.load_records(table_name, &header, &records, select_columns, &parse_float);
        proof {
            let cells = choose|cells: Seq<Seq<Value>>|
                read_cells(
                    parse_float,
                    texts(header@),
                    slice_texts(select_columns@),
                    rows_texts(records@),
                    cells,
                ) && self@ == #[trigger] loaded_table(
                    old(self)@,
                    table_name@,
                    texts(header@),
                    slice_texts(select_columns@),
                    cells,
                );
            assert(csv_header(data@)->0 == texts(header@));
            assert(csv_records(data@)->0 == rows_texts(records@));
            assert(self@ == loaded_table(
                old(self)@,
                table_name@,
                csv_header(data@)->0,
                slice_texts(select_columns@),
                cells,
            ));
        }
        Ok(())
    }
}

/// The text that a relation shows in one row under one displayed column: the
/// canonical text of the value, or nothing where the column is not stored or
/// has no such row.
pub open spec fn shown(t: Table, column: Seq<char>, row: int) -> Seq<char> {
    if t.columns.contains_key(column) && 0 <= row < t.columns[column].len() {
        value_text(t.columns[column][row])
    } else {
        Seq::<char>::empty()
    }
}

/// The record of one row: what the relation shows under each displayed
/// column.
pub open spec fn record_of(t: Table, row: int) -> Seq<Seq<char>> {
    Seq::new(t.display.len(), |c: int| shown(t, t.display[c], row))
}

/// The records that a relation of `height` rows is persisted as: the display
/// schema as a header, unless it is empty, and then one record for each row.
pub open spec fn records_of(t: Table, height: nat) -> Seq<Seq<Seq<char>>> {
    (if t.display.len() > 0 {
        seq![t.display]
    } else {
        Seq::<Seq<Seq<char>>>::empty()
    }) + Seq::new(height, |r: int| record_of(t, r))
}

/// The bytes of the first `n` records, one record after the other, or `None`
/// where one of them cannot be written.
pub open spec fn csv_text(records: Seq<Seq<Seq<char>>>, n: nat) -> Option<Seq<u8>>
    decreases n,
{
    if n == 0 {
        Some(Seq::<u8>::empty())
    } else {
        match (csv_text(records, (n - 1) as nat), csv_line(records[n - 1])) {
            (Some(before), Some(line)) => Some(before + line),
            _ => None,
        }
    }
}

/// What persisting the relation `t` gives: the bytes of its records, or
/// `WriteError` exactly where a record cannot be written.
pub open spec fn saved(t: Table, r: Result<Vec<u8>, RelationErrors>) -> bool {
    exists|height: nat|
        tallest(t.columns, height) && match r {
            Ok(bytes) => csv_text(#[trigger] records_of(t, height), records_of(t, height).len())
                == Some(bytes@),
            Err(e) => csv_text(#[trigger] records_of(t, height), records_of(t, height).len()) is None
                && e is WriteError,
        }
}

impl ColumnStoreRelation {
    /// The records that the relation is persisted as: the display schema as
    /// a header, unless it is empty, and one record for each row up to the
    /// last row of the longest stored column, with the canonical text of the
    /// value under each displayed column, or an empty field where there is
    /// no value.
    pub fn to_records(&self) -> (r: Vec<Vec<String>>)
        ensures
            exists|height: nat|
                tallest(self@.columns, height) && rows_texts(r@) == #[trigger] records_of(
                    self@,
                    height,
                ),
    {
        let height = longest(&self.columns);
        let mut out: Vec<Vec<String>> = Vec::new();
        let ghost t = self@;
        if self.select_columns.len() > 0 {
            out.push(crate::relation::copy_names(&self.select_columns));
        }
        let ghost head = rows_texts(out@);
        assert(head =~= (if t.display.len() > 0 {
            seq![t.display]
        } else {
            Seq::<Seq<Seq<char>>>::empty()
        }));
        let mut row: usize = 0;
        while row < height
            invariant
                row <= height,
                t == self@,
                rows_texts(out@) == head + Seq::new(row as nat, |r: int| record_of(t, r)),
            decreases height - row,
        {
            let mut record: Vec<String> = Vec::new();
            let mut c: usize = 0;
            while c < self.select_columns.len()
                invariant
                    c <= self.select_columns@.len(),
                    t == self@,
                    texts(record@) == Seq::new(c as nat, |j: int| shown(t, t.display[j], row as int)),
                decreases self.select_columns.len() - c,
            {
                let ghost before = record@;
                let text = match self.columns.get(self.select_columns[c].as_str()) {
                    Some(col) => if row < col.len() {
                        col[row].to_str()
                    } else {
                        String::new()
                    },
                    None => String::new(),
                };
                proof {
                    let name = t.display[c as int];
                    assert(name == self.select_columns@[c as int]@);
                    if self.columns@.contains_key(name) {
                        assert(t.columns[name] == views(self.columns@[name]@));
                        if row < self.columns@[name]@.len() {
                            assert(t.columns[name][row as int] == self.columns@[name]@[row as int]@);
                        }
                    }
                    assert(text@ == shown(t, name, row as int));
                }
                record.push(text);
                proof {
                    assert(texts(record@) =~= texts(before).push(text@));
                    assert(texts(record@) =~= Seq::new(
                        (c + 1) as nat,
                        |j: int| shown(t, t.display[j], row as int),
                    ));
                }
                c += 1;
            }
            let ghost held = out@;
            assert(texts(record@) =~= record_of(t, row as int));
            out.push(record);
            proof {
                assert(rows_texts(out@) =~= rows_texts(held).push(record_of(t, row as int)));
                assert(rows_texts(out@) =~= head + Seq::new(
                    (row + 1) as nat,
                    |r: int| record_of(t, r),
                ));
            }
            row += 1;
        }
        proof {
            assert(rows_texts(out@) =~= records_of(t, height as nat));
        }
        out
    }

    /// The bytes of the delimited text that the relation is persisted as:
    /// its records, as `to_records` gives them, written one after the
    /// other. Fails with `WriteError` exactly where a record cannot be
    /// written.
    pub fn save(&self) -> (r: Result<Vec<u8>, RelationErrors>)
        ensures
            saved(self@, r),
    {
        let records = self.to_records();
        let ghost height = choose|height: nat|
            tallest(self@.columns, height) && rows_texts(records@) == #[trigger] records_of(
                self@,
                height,
            );
        let ghost lines = rows_texts(records@);
        let mut out: Vec<u8> = Vec::new();
        let mut i: usize = 0;
        while i < records.len()
            invariant
                i <= records.len(),
                lines == rows_texts(records@),
                tallest(self@.columns, height),
                lines == records_of(self@, height),
                csv_text(lines, i as nat) == Some(out@),
            decreases records.len() - i,
        {
            assert(lines[i as int] == texts(records@[i as int]@));
            match write_line(&records[i]) {
                Ok(bytes) => {
                    let mut k: usize = 0;
                    let ghost before = out@;
                    while k < bytes.len()
                        invariant
                            k <= bytes.len(),
                            out@ == before + bytes@.take(k as int),
                        decreases bytes.len() - k,
                    {
                        out.push(bytes[k]);
                        assert(bytes@.take(k + 1) =~= bytes@.take(k as int).push(bytes@[k as int]));
                        k += 1;
                    }
                    assert(bytes@.take(k as int) =~= bytes@);
                },
                Err(e) => {
                    proof {
                        assert(csv_line(lines[(i + 1) - 1]) is None);
                        assert(csv_text(lines, (i + 1) as nat) is None);
                        lemma_csv_text_fails(lines, (i + 1) as nat, lines.len());
                    }
                    return Err(RelationErrors::WriteError(error_text(&e)));
                },
            }
            i += 1;
        }
        Ok(out)
    }
}

/// Where the first records cannot be written, the records cannot be
/// written.
pub proof fn lemma_csv_text_fails(records: Seq<Seq<Seq<char>>>, k: nat, n: nat)
    requires
        k <= n,
        csv_text(records, k) is None,
    ensures
        csv_text(records, n) is None,
    decreases n - k,
{
    if k < n {
        lemma_csv_text_fails(records, k, (n - 1) as nat);
    }
}

} // verus!
