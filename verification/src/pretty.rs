use vstd::prelude::*;
use vstd::string::{StrSliceExecFns, StringExecFns};
use vstd::utf8::encode_utf8;
use crate::dtype::{views, DataType, Value};
use crate::ieee::{fixed, fixed_text};
use crate::index::{longest, tallest};
use crate::interface::{texts, ColumnStoreRelation, Table};
use crate::text::{i32_text, int_text};

verus! {

/// The text of a value in a table for display: an integer in decimal, a
/// double with two digits behind the point, a text as itself.
pub open spec fn cell_text(v: Value) -> Seq<char> {
    match v {
        Value::Text(s) => s,
        Value::Integer(i) => int_text(i as int),
        Value::Float(b) => fixed_text(b, 2),
    }
}

/// The greater of two numbers.
pub open spec fn larger(a: nat, b: nat) -> nat {
    if a >= b {
        a
    } else {
        b
    }
}

/// The width of a column for display after its first `n` values: the
/// length in bytes of the longest of its name and the texts of those values.
pub open spec fn widest(col: Seq<Value>, name: Seq<char>, n: nat) -> nat
    decreases n,
{
    if n == 0 {
        encode_utf8(name).len()
    } else {
        larger(widest(col, name, (n - 1) as nat), encode_utf8(cell_text(col[n - 1])).len())
    }
}

/// `n` times the character `c`.
pub open spec fn run_of(c: char, n: nat) -> Seq<char> {
    Seq::new(n, |i: int| c)
}

/// A text with blanks behind it up to `width` characters; the text itself
/// where it is longer.
pub open spec fn padded_to(text: Seq<char>, width: nat) -> Seq<char> {
    if text.len() >= width {
        text
    } else {
        text + run_of(' ', (width - text.len()) as nat)
    }
}

/// One cell of a line of the table: a blank, the text padded to the width of
/// its column, a blank and a bar.
pub open spec fn cell_of(text: Seq<char>, width: nat) -> Seq<char> {
    seq![' '] + padded_to(text, width) + seq![' ', '│']
}

/// The text that a relation shows in one row of one column of the table.
pub open spec fn cell_at(t: Table, column: Seq<char>, row: int) -> Seq<char> {
    if 0 <= row < t.columns[column].len() {
        cell_text(t.columns[column][row])
    } else {
        Seq::<char>::empty()
    }
}

/// The width of a stored column of a relation for display.
pub open spec fn width_of(t: Table, column: Seq<char>) -> nat {
    widest(t.columns[column], column, t.columns[column].len())
}

/// The width that a list of widths gives to the displayed column at place
/// `c`: zero where the list is too short.
pub open spec fn width_at(widths: Seq<usize>, c: int) -> nat {
    if 0 <= c < widths.len() {
        widths[c] as nat
    } else {
        0
    }
}

/// Whether a list holds, for each displayed column that is stored, the
/// width of that column.
pub open spec fn fits(t: Table, widths: Seq<usize>) -> bool {
    &&& widths.len() == t.display.len()
    &&& forall|c: int|
        0 <= c < widths.len() && t.columns.contains_key(t.display[c]) ==> #[trigger] widths[c]
            == width_of(t, t.display[c])
}

/// The cells of row `row` under the first `n` displayed columns, a column
/// that is not stored having none.
pub open spec fn cells_of(t: Table, widths: Seq<usize>, row: int, n: nat) -> Seq<char>
    decreases n,
{
    if n == 0 {
        Seq::<char>::empty()
    } else if t.columns.contains_key(t.display[n - 1]) {
        cells_of(t, widths, row, (n - 1) as nat) + cell_of(
            cell_at(t, t.display[n - 1], row),
            width_at(widths, n - 1),
        )
    } else {
        cells_of(t, widths, row, (n - 1) as nat)
    }
}

/// The line of the table for row `row`: a bar, the cells of the row, and the
/// end of the line.
pub open spec fn row_line(t: Table, widths: Seq<usize>, row: int) -> Seq<char> {
    seq!['│'] + cells_of(t, widths, row, t.display.len()) + seq!['\n']
}

/// The cells of the header line under the first `n` displayed columns.
pub open spec fn header_cells(t: Table, widths: Seq<usize>, n: nat) -> Seq<char>
    decreases n,
{
    if n == 0 {
        Seq::<char>::empty()
    } else if t.columns.contains_key(t.display[n - 1]) {
        header_cells(t, widths, (n - 1) as nat) + cell_of(t.display[n - 1], width_at(widths, n - 1))
    } else {
        header_cells(t, widths, (n - 1) as nat)
    }
}

/// The strokes of a rule of the table over the first `n` displayed columns,
/// with `joint` wherever two columns meet.
pub open spec fn strokes(t: Table, widths: Seq<usize>, joint: char, n: nat) -> Seq<char>
    decreases n,
{
    if n == 0 {
        Seq::<char>::empty()
    } else if t.columns.contains_key(t.display[n - 1]) {
        let before = strokes(t, widths, joint, (n - 1) as nat);
        (if before.len() > 0 {
            before.push(joint)
        } else {
            before
        }) + run_of('─', width_at(widths, n - 1) + 2)
    } else {
        strokes(t, widths, joint, (n - 1) as nat)
    }
}

/// A rule of the table between the corners `left` and `right`.
pub open spec fn rule(t: Table, widths: Seq<usize>, left: char, joint: char, right: char) -> Seq<
    char,
> {
    seq![left] + strokes(t, widths, joint, t.display.len()) + seq![right, '\n']
}

/// The lines of the first `n` rows.
pub open spec fn row_lines(t: Table, widths: Seq<usize>, n: nat) -> Seq<char>
    decreases n,
{
    if n == 0 {
        Seq::<char>::empty()
    } else {
        row_lines(t, widths, (n - 1) as nat) + row_line(t, widths, n - 1)
    }
}

/// The table that shows a relation of `height` rows: a rule, the names of
/// the displayed columns that are stored, a rule, one line for each row, and
/// a rule.
pub open spec fn table_of(t: Table, widths: Seq<usize>, height: nat) -> Seq<char> {
    rule(t, widths, '┌', '┬', '┐') + seq!['│'] + header_cells(t, widths, t.display.len()) + seq![
        '\n',
    ] + rule(t, widths, '├', '┼', '┤') + row_lines(t, widths, height) + rule(
        t,
        widths,
        '└',
        '┴',
        '┘',
    )
}

/// Whether `text` is the table that shows the relation `t`, with each
/// column as wide as it has to be and a line for each row of the longest
/// stored column.
pub open spec fn draws(t: Table, text: Seq<char>) -> bool {
    exists|widths: Seq<usize>, height: nat|
        fits(t, widths) && tallest(t.columns, height) && text == #[trigger] table_of(t, widths, height)
}

impl DataType {
    /// The text of this value in a table for display.
    pub fn shown(&self) -> (r: String)
        ensures
            r@ == cell_text(self@),
    {
        match self {
            DataType::Int(i) => i32_text(*i),
            DataType::Float(b) => fixed(*b, 2),
            DataType::String(s) => s.clone(),
        }
    }
}

/// The width of a column for display: the length in bytes of the longest of
/// its name and the texts of its values. Always succeeds.
pub fn calculate_max_width(vec: &Vec<DataType>, column_name: &str) -> (r: Result<usize, &'static str>)
    ensures
        r matches Ok(width) && width == widest(views(vec@), column_name@, vec@.len()),
{
    let ghost col = views(vec@);
    let mut most: usize = column_name.as_bytes().len();
    let mut i: usize = 0;
    while i < vec.len()
        invariant
            i <= vec.len(),
            col == views(vec@),
            most == widest(col, column_name@, i as nat),
        decreases vec.len() - i,
    {
        assert(col[i as int] == vec@[i as int]@);
        let text = vec[i].shown();
        let len = text.as_str().as_bytes().len();
        if len > most {
            most = len;
        }
        i += 1;
    }
    Ok(most)
}

/// Writes `n` times the text of one character at the end of `out`.
fn push_run(out: &mut String, piece: &str, n: usize, Ghost(c): Ghost<char>)
    requires
        piece@ == seq![c],
    ensures
        final(out)@ == old(out)@ + run_of(c, n as nat),
{
    let mut i: usize = 0;
    assert(out@ =~= old(out)@ + run_of(c, 0));
    while i < n
        invariant
            i <= n,
            piece@ == seq![c],
            out@ == old(out)@ + run_of(c, i as nat),
        decreases n - i,
    {
        out.append(piece);
        assert(out@ =~= old(out)@ + run_of(c, (i + 1) as nat));
        i += 1;
    }
}

/// Writes one cell of a line of the table at the end of `out`.
fn push_cell(out: &mut String, text: &str, width: usize)
    ensures
        final(out)@ == old(out)@ + cell_of(text@, width as nat),
{
    proof {
        reveal_strlit(" ");
        reveal_strlit(" │");
    }
    assert(" "@ =~= seq![' ']);
    out.append(" ");
    out.append(text);
    let len = text.unicode_len();
    if len < width {
        push_run(out, " ", width - len, Ghost(' '));
    }
    out.append(" │");
    assert(out@ =~= old(out)@ + cell_of(text@, width as nat));
}

/// The width at place `c` of a list of widths, zero where the list is too
/// short.
fn width_in(widths: &Vec<usize>, c: usize) -> (r: usize)
    ensures
        r == width_at(widths@, c as int),
{
    if c < widths.len() {
        widths[c]
    } else {
        0
    }
}

impl ColumnStoreRelation {
    /// For each displayed column its width for display, zero for one that is
    /// not stored.
    pub fn column_widths(&self) -> (r: Vec<usize>)
        ensures
            fits(self@, r@),
    {
        let ghost t = self@;
        let mut out: Vec<usize> = Vec::new();
        let mut c: usize = 0;
        while c < self.select_columns.len()
            invariant
                c <= self.select_columns@.len(),
                t == self@,
                out@.len() == c,
                forall|k: int|
                    0 <= k < c && t.columns.contains_key(t.display[k]) ==> #[trigger] out@[k]
                        == width_of(t, t.display[k]),
            decreases self.select_columns.len() - c,
        {
            let name = self.select_columns[c].as_str();
            assert(t.display[c as int] == name@);
            let width = match self.columns.get(name) {
                Some(col) => {
                    assert(t.columns[name@] == views(col@));
                    match calculate_max_width(col, name) {
                        Ok(width) => width,
                        Err(_) => 0,
                    }
                },
                None => 0,
            };
            out.push(width);
            c += 1;
        }
        out
    }

    /// The line of the table for row `row`, the displayed column at place
    /// `c` being `widths[c]` wide.
    pub fn render_row(&self, row: usize, widths: &Vec<usize>) -> (r: String)
        ensures
            r@ == row_line(self@, widths@, row as int),
    {
        proof {
            reveal_strlit("│");
            reveal_strlit("\n");
        }
        let ghost t = self@;
        let mut out = "│".to_string();
        let mut c: usize = 0;
        assert(out@ =~= seq!['│'] + cells_of(t, widths@, row as int, 0));
        while c < self.select_columns.len()
            invariant
                c <= self.select_columns@.len(),
                t == self@,
                out@ == seq!['│'] + cells_of(t, widths@, row as int, c as nat),
            decreases self.select_columns.len() - c,
        {
            let name = self.select_columns[c].as_str();
            assert(t.display[c as int] == name@);
            match self.columns.get(name) {
                Some(col) => {
                    assert(t.columns[name@] == views(col@));
                    let text = if row < col.len() {
                        assert(views(col@)[row as int] == col@[row as int]@);
                        col[row].shown()
                    } else {
                        String::new()
                    };
                    push_cell(&mut out, text.as_str(), width_in(widths, c));
                    assert(out@ =~= seq!['│'] + cells_of(t, widths@, row as int, (c + 1) as nat));
                },
                None => {},
            }
            c += 1;
        }
        out.append("\n");
        assert(out@ =~= row_line(t, widths@, row as int));
        out
    }

    /// The header line of the table.
    pub fn render_header(&self, widths: &Vec<usize>) -> (r: String)
        ensures
            r@ == seq!['│'] + header_cells(self@, widths@, self@.display.len()) + seq!['\n'],
    {
        proof {
            reveal_strlit("│");
            reveal_strlit("\n");
        }
        let ghost t = self@;
        let mut out = "│".to_string();
        let mut c: usize = 0;
        assert(out@ =~= seq!['│'] + header_cells(t, widths@, 0));
        while c < self.select_columns.len()
            invariant
                c <= self.select_columns@.len(),
                t == self@,
                out@ == seq!['│'] + header_cells(t, widths@, c as nat),
            decreases self.select_columns.len() - c,
        {
            let name = self.select_columns[c].as_str();
            assert(t.display[c as int] == name@);
            if self.columns.contains_key(name) {
                push_cell(&mut out, name, width_in(widths, c));
                assert(out@ =~= seq!['│'] + header_cells(t, widths@, (c + 1) as nat));
            }
            c += 1;
        }
        out.append("\n");
        out
    }

    /// A rule of the table: the text `left`, a stroke for each character of
    /// each column and two more, the text `joint` wherever two columns meet,
    /// the text `right`, and the end of the line. Each of the three texts is
    /// one character.
    pub fn render_rule(&self, widths: &Vec<usize>, left: &str, joint: &str, right: &str) -> (out: String)
        requires
            left@.len() == 1,
            joint@.len() == 1,
            right@.len() == 1,
        ensures
            out@ == rule(self@, widths@, left@[0], joint@[0], right@[0]),
    {
        proof {
            reveal_strlit("─");
            reveal_strlit("\n");
        }
        let ghost t = self@;
        let ghost l = left@[0];
        let ghost j = joint@[0];
        let ghost r = right@[0];
        assert(left@ =~= seq![l]);
        assert(joint@ =~= seq![j]);
        assert(right@ =~= seq![r]);
        let mut out = left.to_string();
        let mut any = false;
        let mut c: usize = 0;
        assert(out@ =~= seq![l] + strokes(t, widths@, j, 0));
        while c < self.select_columns.len()
            invariant
                c <= self.select_columns@.len(),
                t == self@,
                joint@ == seq![j],
                out@ == seq![l] + strokes(t, widths@, j, c as nat),
                any == (strokes(t, widths@, j, c as nat).len() > 0),
            decreases self.select_columns.len() - c,
        {
            let name = self.select_columns[c].as_str();
            assert(t.display[c as int] == name@);
            if self.columns.contains_key(name) {
                let width = width_in(widths, c);
                if any {
                    out.append(joint);
                }
                let ghost before = out@;
                proof {
                    reveal_strlit("─");
                }
                assert("─"@ =~= seq!['─']);
                push_run(&mut out, "─", width, Ghost('─'));
                out.append("─");
                out.append("─");
                assert(out@ =~= before + run_of('─', width as nat + 2));
                any = true;
                assert(out@ =~= seq![l] + strokes(t, widths@, j, (c + 1) as nat));
            }
            c += 1;
        }
        out.append(right);
        out.append("\n");
        assert(out@ =~= rule(t, widths@, l, j, r));
        out
    }

    /// The table that shows the relation: a rule, the names of the displayed
    /// columns that are stored, a rule, one line for each row up to the last
    /// row of the longest stored column, and a rule. A column is as wide as
    /// the longest of its name and its texts take bytes; a double is shown
    /// with two digits behind the point.
    pub fn render(&self) -> (r: String)
        ensures
            draws(self@, r@),
    {
        proof {
            reveal_strlit("┌");
            reveal_strlit("┬");
            reveal_strlit("┐");
            reveal_strlit("├");
            reveal_strlit("┼");
            reveal_strlit("┤");
            reveal_strlit("└");
            reveal_strlit("┴");
            reveal_strlit("┘");
        }
        let ghost t = self@;
        let widths = self.column_widths();
        let height = longest(&self.columns);
        let mut out = self.render_rule(&widths, "┌", "┬", "┐");
        out.append(self.render_header(&widths).as_str());
        out.append(self.render_rule(&widths, "├", "┼", "┤").as_str());
        let ghost head = out@;
        let mut row: usize = 0;
        assert(out@ =~= head + row_lines(t, widths@, 0));
        while row < height
            invariant
                row <= height,
                t == self@,
                out@ == head + row_lines(t, widths@, row as nat),
            decreases height - row,
        {
            out.append(self.render_row(row, &widths).as_str());
            assert(out@ =~= head + row_lines(t, widths@, (row + 1) as nat));
            row += 1;
        }
        out.append(self.render_rule(&widths, "└", "┴", "┘").as_str());
        assert(out@ =~= table_of(t, widths@, height as nat));
        out
    }
}

} // verus!
