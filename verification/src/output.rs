//! Table assembly: the crosstab as rows of keys and cells under a header, and
//! its flat records for a writer.

use vstd::prelude::*;
use crate::cells::{CellStore, CellStoreView};
use crate::header::{HeaderLayout, Slot};
use crate::text::clone_texts;

verus! {

/// An output row in contracts: its row key and one cell per slot, absent where
/// no input row had the row key together with the slot's column key.
pub struct OutputRowView {
    pub key: Seq<Seq<char>>,
    pub cells: Seq<Option<Seq<char>>>,
}

/// The crosstab in contracts.
pub struct OutputView {
    /// The names of the row-key columns.
    pub key_names: Seq<Seq<char>>,
    /// The header rows of the columns after the row keys, top row first.
    pub header: Seq<Seq<Seq<char>>>,
    /// The rows, one per row key.
    pub rows: Seq<OutputRowView>,
}

/// One row of the crosstab.
#[derive(Clone, Debug, PartialEq, Eq)]
pub struct OutputRow {
    /// The values of the row-key columns.
    pub key: Vec<String>,
    /// The cells after the row key, in slot order; `None` marks an empty cell.
    pub cells: Vec<Option<String>>,
}

impl DeepView for OutputRow {
    type V = OutputRowView;

    open spec fn deep_view(&self) -> OutputRowView {
        OutputRowView { key: self.key.deep_view(), cells: self.cells.deep_view() }
    }
}

/// The crosstab: the row-key column names, the header rows of the other
/// columns, and one row per row key.
#[derive(Clone, Debug, PartialEq, Eq)]
pub struct OutputTable {
    pub key_names: Vec<String>,
    pub header: Vec<Vec<String>>,
    pub rows: Vec<OutputRow>,
}

impl DeepView for OutputTable {
    type V = OutputView;

    open spec fn deep_view(&self) -> OutputView {
        OutputView {
            key_names: self.key_names.deep_view(),
            header: self.header.deep_view(),
            rows: self.rows.deep_view(),
        }
    }
}

/// Every slot names a column key and a value column of the store.
pub open spec fn slots_fit(slots: Seq<Slot>, store: CellStoreView) -> bool {
    forall|p: int|
        0 <= p < slots.len() ==> (#[trigger] slots[p]).col_key < store.col_keys.len()
            && slots[p].value_col < store.value_cols.len()
}

/// The output row of row key `i`: the key, then for each slot the stored value
/// of its column key and value column.
pub open spec fn output_row(store: CellStoreView, slots: Seq<Slot>, i: int) -> OutputRowView {
    OutputRowView {
        key: store.row_keys[i],
        cells: Seq::new(
            slots.len(),
            |p: int| store.value(i, slots[p].col_key as int, slots[p].value_col as int),
        ),
    }
}

/// The output rows: one per row key, in key order.
pub open spec fn output_rows(store: CellStoreView, slots: Seq<Slot>) -> Seq<OutputRowView> {
    Seq::new(store.row_keys.len(), |i: int| output_row(store, slots, i))
}

/// The cells of the output row of row key `i`.
fn assemble_cells(store: &CellStore, slots: &Vec<Slot>, i: usize) -> (cells: Vec<Option<String>>)
    requires
        store.wf(),
        slots_fit(slots@, store@),
        i < store@.row_keys.len(),
    ensures
        cells.deep_view() == output_row(store@, slots@, i as int).cells,
{
    let mut cells: Vec<Option<String>> = Vec::new();
    let mut p: usize = 0;
    while p < slots.len()
        invariant
            p <= slots.len(),
            store.wf(),
            slots_fit(slots@, store@),
            i < store@.row_keys.len(),
            cells.len() == p,
            forall|q: int|
                0 <= q < p ==> (#[trigger] cells.deep_view()[q]) == store@.value(
                    i as int,
                    slots[q].col_key as int,
                    slots[q].value_col as int,
                ),
        decreases slots.len() - p,
    {
        let slot = slots[p];
        let ghost prior = cells.deep_view();
        match store.cell(i, slot.col_key) {
            Some(c) => {
                proof {
                    assert(c.values.deep_view()[slot.value_col as int]
                        == c.values[slot.value_col as int]@);
                }
                let value = c.values[slot.value_col].clone();
                cells.push(Some(value));
                proof {
                    assert(cells.deep_view() =~= prior.push(Some(value@)));
                }
            },
            None => {
                cells.push(None);
                proof {
                    assert(cells.deep_view() =~= prior.push(None));
                }
            },
        }
        p += 1;
    }
    cells
}

/// Puts the crosstab together: one row per row key of the store, in key order,
/// each with its key and one cell per slot of the layout, under the layout's
/// header rows. A cell for which the store holds nothing is left empty.
pub fn assemble(key_names: Vec<String>, layout: HeaderLayout, store: &CellStore) -> (out: OutputTable)
    requires
        store.wf(),
        slots_fit(layout.slots@, store@),
    ensures
        out.deep_view().key_names == key_names.deep_view(),
        out.deep_view().header == layout.rows.deep_view(),
        out.deep_view().rows == output_rows(store@, layout.slots@),
{
    let mut rows: Vec<OutputRow> = Vec::new();
    let n = store.row_keys().len();
    let mut i: usize = 0;
    while i < n
        invariant
            i <= n,
            n == store@.row_keys.len(),
            store.wf(),
            slots_fit(layout.slots@, store@),
            rows.len() == i,
            forall|q: int|
                0 <= q < i ==> (#[trigger] rows.deep_view()[q]) == output_row(
                    store@,
                    layout.slots@,
                    q,
                ),
        decreases n - i,
    {
        let ghost prior = rows.deep_view();
        let keys = store.row_keys();
        let key = clone_texts(&keys[i]);
        let cells = assemble_cells(store, &layout.slots, i);
        let row = OutputRow { key, cells };
        rows.push(row);
        proof {
            assert(rows.deep_view() =~= prior.push(output_row(store@, layout.slots@, i as int)));
        }
        i += 1;
    }
    OutputTable { key_names, header: layout.rows, rows }
}

/// A cell as a writer shows it: its text, or nothing for an empty cell.
pub open spec fn shown(cell: Option<Seq<char>>) -> Seq<char> {
    match cell {
        Some(v) => v,
        None => Seq::empty(),
    }
}

impl OutputView {
    /// Header record `m`: the row-key positions, then header row `m`. The last
    /// header record carries the row-key column names; the records above it
    /// leave those positions blank.
    pub open spec fn header_record(self, m: int) -> Seq<Seq<char>> {
        Seq::new(
            self.key_names.len(),
            |q: int|
                if m == self.header.len() - 1 {
                    self.key_names[q]
                } else {
                    Seq::empty()
                },
        ) + self.header[m]
    }

    /// Data record `i`: the row key, then the cells as shown.
    pub open spec fn data_record(self, i: int) -> Seq<Seq<char>> {
        self.rows[i].key + Seq::new(
            self.rows[i].cells.len(),
            |p: int| shown(self.rows[i].cells[p]),
        )
    }

    /// All records: the header records, then one data record per row.
    pub open spec fn records(self) -> Seq<Seq<Seq<char>>> {
        Seq::new(self.header.len(), |m: int| self.header_record(m)) + Seq::new(
            self.rows.len(),
            |i: int| self.data_record(i),
        )
    }
}

impl OutputTable {
    /// Header record `m`.
    fn header_record(&self, m: usize) -> (rec: Vec<String>)
        requires
            m < self.header.len(),
        ensures
            rec.deep_view() == self.deep_view().header_record(m as int),
    {
        let mut rec: Vec<String> = Vec::new();
        let last = m + 1 == self.header.len();
        let mut q: usize = 0;
        while q < self.key_names.len()
            invariant
                q <= self.key_names.len(),
                m < self.header.len(),
                last == (m == self.header.len() - 1),
                rec.len() == q,
                forall|a: int|
                    0 <= a < q ==> (#[trigger] rec.deep_view()[a]) == (if last {
                        self.key_names.deep_view()[a]
                    } else {
                        Seq::empty()
                    }),
            decreases self.key_names.len() - q,
        {
            let ghost prior = rec.deep_view();
            let text = if last {
                self.key_names[q].clone()
            } else {
                String::new()
            };
            rec.push(text);
            proof {
                assert(rec.deep_view() =~= prior.push(text@));
            }
            q += 1;
        }
        let mut p: usize = 0;
        let ghost keys = rec.deep_view();
        while p < self.header[m].len()
            invariant
                p <= self.header[m as int].len(),
                m < self.header.len(),
                rec.deep_view() == keys + self.header[m as int].deep_view().take(p as int),
            decreases self.header[m as int].len() - p,
        {
            let ghost prior = rec.deep_view();
            rec.push(self.header[m][p].clone());
            proof {
                assert(rec.deep_view() =~= prior.push(self.header[m as int][p as int]@));
                assert(rec.deep_view() =~= keys + self.header[m as int].deep_view().take(
                    p as int + 1,
                ));
            }
            p += 1;
        }
        proof {
            assert(self.header[m as int].deep_view().take(self.header[m as int].len() as int)
                =~= self.header[m as int].deep_view());
        }
        rec
    }

    /// Data record `i`.
    fn data_record(&self, i: usize) -> (rec: Vec<String>)
        requires
            i < self.rows.len(),
        ensures
            rec.deep_view() == self.deep_view().data_record(i as int),
    {
        let row = &self.rows[i];
        let mut rec = clone_texts(&row.key);
        let ghost key = rec.deep_view();
        let mut p: usize = 0;
        while p < row.cells.len()
            invariant
                p <= row.cells.len(),
                rec.deep_view() == key + Seq::new(
                    p as nat,
                    |a: int| shown(row.cells.deep_view()[a]),
                ),
            decreases row.cells.len() - p,
        {
            let ghost prior = rec.deep_view();
            let text = match &row.cells[p] {
                Some(v) => v.clone(),
                None => String::new(),
            };
            rec.push(text);
            proof {
                assert(rec.deep_view() =~= prior.push(text@));
                assert(rec.deep_view() =~= key + Seq::new(
                    (p + 1) as nat,
                    |a: int| shown(row.cells.deep_view()[a]),
                ));
            }
            p += 1;
        }
        rec
    }

    /// The crosstab as records of texts for a writer of delimited text: the
    /// header records, then one record per row, empty cells as empty texts.
    pub fn records(&self) -> (recs: Vec<Vec<String>>)
        ensures
            recs.deep_view() == self.deep_view().records(),
    {
        let mut recs: Vec<Vec<String>> = Vec::new();
        let ghost v = self.deep_view();
        let mut m: usize = 0;
        while m < self.header.len()
            invariant
                m <= self.header.len(),
                v == self.deep_view(),
                recs.deep_view() == Seq::new(m as nat, |a: int| v.header_record(a)),
            decreases self.header.len() - m,
        {
            let ghost prior = recs.deep_view();
            let rec = self.header_record(m);
            recs.push(rec);
            proof {
                assert(recs.deep_view() =~= prior.push(v.header_record(m as int)));
            }
            m += 1;
        }
        let ghost head = recs.deep_view();
        let mut i: usize = 0;
        while i < self.rows.len()
            invariant
                i <= self.rows.len(),
                v == self.deep_view(),
                head == Seq::new(v.header.len(), |a: int| v.header_record(a)),
                recs.deep_view() == head + Seq::new(i as nat, |a: int| v.data_record(a)),
            decreases self.rows.len() - i,
        {
            let ghost prior = recs.deep_view();
            let rec = self.data_record(i);
            recs.push(rec);
            proof {
                assert(recs.deep_view() =~= prior.push(v.data_record(i as int)));
                assert(recs.deep_view() =~= head + Seq::new(
                    (i + 1) as nat,
                    |a: int| v.data_record(a),
                ));
            }
            i += 1;
        }
        recs
    }
}

} // verus!
