//! The crosstab of a table: validation, key extraction, cell resolution, header
//! building and assembly in one call.

use vstd::prelude::*;
use crate::cells::{
    cell_store, collisions_of, resolve_cells, CellStoreView, Collision, Resolution,
};
use crate::header::{build_header, header_rows, lemma_slot_in_range, slots, HeaderFormat};
use crate::keys::{extract_keys, key_order, lemma_first_seen_members};
use crate::output::{assemble, output_rows, OutputRowView, OutputTable, OutputView};
use crate::schema::{missing_columns, validate, ColumnSpec, ColumnSpecView, MissingColumn};
use crate::table::{InputTable, TableView};
use crate::text::clone_texts;

verus! {

/// The crosstab of table `t` under request `s` with header format `format`.
///
/// Its rows are the distinct row keys in first-seen order. After the row key,
/// a row has one cell per slot: for each distinct column key in first-seen
/// order, one per value column of the request.
pub open spec fn crosstab_of(t: TableView, s: ColumnSpecView, format: HeaderFormat) -> OutputView {
    let store = cell_store(t, s);
    OutputView {
        key_names: s.row_keys,
        header: header_rows(format, s.col_keys, store.col_keys, s.value_cols),
        rows: crosstab_rows(store),
    }
}

/// The rows of the crosstab over a cell store. Cell `p` of a row is value
/// column `p % nv` of column key `p / nv`, where `nv` is the number of value
/// columns.
pub open spec fn crosstab_rows(store: CellStoreView) -> Seq<OutputRowView> {
    let nv = store.value_cols.len() as int;
    Seq::new(
        store.row_keys.len(),
        |i: int|
            OutputRowView {
                key: store.row_keys[i],
                cells: Seq::new(
                    store.col_keys.len() * store.value_cols.len(),
                    |p: int| store.value(i, p / nv, p % nv),
                ),
            },
    )
}

/// A crosstab and the collisions met while filling it.
#[derive(Clone, Debug, PartialEq, Eq)]
pub struct Crosstab {
    pub table: OutputTable,
    /// The cells to which more than one input row was written. Not an error:
    /// each such cell shows the value of the first row.
    pub collisions: Vec<Collision>,
}

/// Every key of a key order has one component per key column.
pub proof fn lemma_key_widths(t: TableView, names: Seq<Seq<char>>)
    ensures
        forall|j: int|
            0 <= j < key_order(t, names).len() ==> (#[trigger] key_order(t, names)[j]).len()
                == names.len(),
{
    lemma_first_seen_members(t.projections(names));
    assert forall|j: int| 0 <= j < key_order(t, names).len() implies (#[trigger] key_order(
        t,
        names,
    )[j]).len() == names.len() by {
        let key = key_order(t, names)[j];
        assert(key_order(t, names).contains(key));
    }
}

/// Cross-tabulates `table`. Which columns are row keys, column keys and values
/// says `spec`; how the header is laid out says `format`.
///
/// Fails, before anything is computed, if `spec` names a column that the table
/// lacks, with the list of all such names. Otherwise the result is determined by
/// the views of the three arguments alone. Collisions do not stop the work: they
/// are reported beside the table.
pub fn crosstab(table: &InputTable, spec: &ColumnSpec, format: HeaderFormat) -> (r: Result<
    Crosstab,
    Vec<MissingColumn>,
>)
    requires
        table.wf(),
    ensures
        match r {
            Ok(c) => {
                &&& spec@.present_in(table@.header)
                &&& c.table.deep_view() == crosstab_of(table@, spec@, format)
                &&& c.collisions.deep_view() == collisions_of(table@, spec@)
            },
            Err(missing) => missing.len() > 0 && missing.deep_view() == missing_columns(
                table@.header,
                spec@,
            ),
        },
        r is Ok <==> spec@.present_in(table@.header),
{
    match validate(table, spec) {
        Err(missing) => Err(missing),
        Ok(()) => {
            let keys = extract_keys(table, spec);
            let key_columns = spec.col_keys();
            proof {
                lemma_key_widths(table@, spec@.col_keys);
                assert forall|j: int| 0 <= j < keys.col_keys.len() implies (
                #[trigger] keys.col_keys[j]).len() == key_columns.len() by {
                    assert(keys.col_keys.deep_view()[j].len() == keys.col_keys[j].len());
                }
            }
            let layout = build_header(format, key_columns, &keys.col_keys, spec.value_cols());
            let Resolution { store, collisions } = resolve_cells(table, spec, keys);
            proof {
                let nc = store@.col_keys.len();
                let nv = store@.value_cols.len();
                assert forall|p: int| 0 <= p < slots(nc, nv).len() implies (#[trigger] slots(
                    nc,
                    nv,
                )[p]).col_key < nc && slots(nc, nv)[p].value_col < nv by {
                    lemma_slot_in_range(nc, nv, p);
                }
            }
            let key_names = clone_texts(spec.row_keys());
            let out = assemble(key_names, layout, &store);
            proof {
                let sl = slots(store@.col_keys.len(), store@.value_cols.len());
                assert forall|i: int| 0 <= i < store@.row_keys.len() implies (#[trigger] output_rows(
                    store@,
                    sl,
                )[i]) == crosstab_rows(store@)[i] by {
                    assert forall|p: int| 0 <= p < sl.len() implies output_rows(
                        store@,
                        sl,
                    )[i].cells[p] == crosstab_rows(store@)[i].cells[p] by {
                        lemma_slot_in_range(store@.col_keys.len(), store@.value_cols.len(), p);
                    }
                    assert(output_rows(store@, sl)[i].cells =~= crosstab_rows(store@)[i].cells);
                }
                assert(output_rows(store@, sl) =~= crosstab_rows(store@));
            }
            Ok(Crosstab { table: out, collisions })
        },
    }
}

} // verus!
