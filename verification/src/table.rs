//! The input table: a header of unique column names over rows of texts.

use vstd::prelude::*;
use crate::text::find_text;

verus! {

/// What a table is in contracts: its column names and its rows, each row one
/// text per column.
pub struct TableView {
    pub header: Seq<Seq<char>>,
    pub rows: Seq<Seq<Seq<char>>>,
}

impl TableView {
    /// No column name occurs twice, and every row has one value per column.
    pub open spec fn wf(self) -> bool {
        &&& self.header.no_duplicates()
        &&& forall|r: int| 0 <= r < self.rows.len() ==> (#[trigger] self.rows[r]).len()
            == self.header.len()
    }

    /// The position of the column called `name`.
    pub open spec fn column_of(self, name: Seq<char>) -> int {
        self.header.index_of(name)
    }

    /// The values that row `r` holds in the columns called `names`, in the order
    /// of `names`.
    pub open spec fn project(self, r: int, names: Seq<Seq<char>>) -> Seq<Seq<char>> {
        Seq::new(names.len(), |k: int| self.rows[r][self.column_of(names[k])])
    }

    /// The projection of every row on `names`, in row order.
    pub open spec fn projections(self, names: Seq<Seq<char>>) -> Seq<Seq<Seq<char>>> {
        Seq::new(self.rows.len(), |r: int| self.project(r, names))
    }
}

/// Why a header and rows do not form a table.
#[derive(Clone, Copy, Debug, PartialEq, Eq, Structural)]
pub enum TableError {
    /// The name at `column` already stands at an earlier position of the header.
    DuplicateColumn { column: usize },
    /// Row `row` does not hold one value per column.
    RaggedRow { row: usize },
}

/// A table in normalized form. Once built it is only read.
#[derive(Clone, Debug, PartialEq, Eq)]
pub struct InputTable {
    header: Vec<String>,
    rows: Vec<Vec<String>>,
}

impl View for InputTable {
    type V = TableView;

    closed spec fn view(&self) -> TableView {
        TableView { header: self.header.deep_view(), rows: self.rows.deep_view() }
    }
}

impl InputTable {
    /// The invariant of a table, stated over its view.
    pub open spec fn wf(&self) -> bool {
        self@.wf()
    }

    /// Builds a table from a header and rows.
    ///
    /// Fails on the first header position that repeats an earlier name; with a
    /// sound header, on the first row whose width differs from the header's.
    pub fn new(header: Vec<String>, rows: Vec<Vec<String>>) -> (r: Result<InputTable, TableError>)
        ensures
            r is Ok <==> (TableView { header: header.deep_view(), rows: rows.deep_view() }).wf(),
            match r {
                Ok(t) => t.wf() && t@.header == header.deep_view() && t@.rows == rows.deep_view(),
                Err(TableError::DuplicateColumn { column }) => {
                    &&& column < header.len()
                    &&& header.deep_view().take(column as int).no_duplicates()
                    &&& header.deep_view().take(column as int).contains(
                        header.deep_view()[column as int],
                    )
                },
                Err(TableError::RaggedRow { row }) => {
                    &&& header.deep_view().no_duplicates()
                    &&& row < rows.len()
                    &&& rows.deep_view()[row as int].len() != header.len()
                    &&& forall|q: int|
                        0 <= q < row ==> (#[trigger] rows.deep_view()[q]).len() == header.len()
                },
            },
    {
        let mut c: usize = 0;
        while c < header.len()
            invariant
                c <= header.len(),
                header.deep_view().take(c as int).no_duplicates(),
            decreases header.len() - c,
        {
            let mut p: usize = 0;
            while p < c
                invariant
                    p <= c,
                    c < header.len(),
                    header.deep_view().take(c as int).no_duplicates(),
                    forall|q: int| 0 <= q < p ==> header.deep_view()[q] != header.deep_view()[c as int],
                decreases c - p,
            {
                if header[p] == header[c] {
                    proof {
                        let before = header.deep_view().take(c as int);
                        assert(before[p as int] == header.deep_view()[c as int]);
                    }
                    return Err(TableError::DuplicateColumn { column: c });
                }
                p += 1;
            }
            c += 1;
        }
        proof {
            assert(header.deep_view().take(header.len() as int) =~= header.deep_view());
        }
        let mut r: usize = 0;
        while r < rows.len()
            invariant
                r <= rows.len(),
                header.deep_view().no_duplicates(),
                forall|q: int|
                    0 <= q < r ==> (#[trigger] rows.deep_view()[q]).len() == header.len(),
            decreases rows.len() - r,
        {
            if rows[r].len() != header.len() {
                proof {
                    let view = TableView { header: header.deep_view(), rows: rows.deep_view() };
                    assert(view.rows[r as int].len() != view.header.len());
                }
                return Err(TableError::RaggedRow { row: r });
            }
            r += 1;
        }
        Ok(InputTable { header, rows })
    }

    /// The column names, in column order.
    pub fn header(&self) -> (h: &Vec<String>)
        ensures
            h.deep_view() == self@.header,
    {
        &self.header
    }

    /// The rows, in input order.
    pub fn rows(&self) -> (r: &Vec<Vec<String>>)
        ensures
            r.deep_view() == self@.rows,
    {
        &self.rows
    }

    /// The number of rows.
    pub fn num_rows(&self) -> (n: usize)
        ensures
            n == self@.rows.len(),
    {
        self.rows.len()
    }

    /// The number of columns.
    pub fn num_columns(&self) -> (n: usize)
        ensures
            n == self@.header.len(),
    {
        self.header.len()
    }

    /// The position of the column called `name`, if the table has one.
    pub fn column_index(&self, name: &String) -> (r: Option<usize>)
        requires
            self.wf(),
        ensures
            match r {
                Some(c) => self@.header.contains(name@) && c == self@.column_of(name@) && c
                    < self@.header.len(),
                None => !self@.header.contains(name@),
            },
    {
        find_text(&self.header, name)
    }

    /// The value of row `r` in column `c`.
    pub fn value(&self, r: usize, c: usize) -> (v: &String)
        requires
            self.wf(),
            r < self@.rows.len(),
            c < self@.header.len(),
        ensures
            v@ == self@.rows[r as int][c as int],
    {
        proof {
            assert(self@.rows[r as int].len() == self@.header.len());
        }
        &self.rows[r][c]
    }
}

} // verus!
