//! Header building: the order of the output columns that follow the row keys,
//! and their header rows in one of four formats.
//!
//! The columns stand column key by column key, in first-seen order; under each
//! column key stands one column per value column, in the order of the request.

use vstd::prelude::*;
use vstd::string::*;
use vstd::arithmetic::div_mod::{
    lemma_fundamental_div_mod, lemma_fundamental_div_mod_converse, lemma_mod_bound,
};
use crate::text::{clone_texts, join, join_texts, label_mark, separator};

verus! {

/// How the header of the output is laid out.
#[derive(Clone, Copy, Debug, PartialEq, Eq, Structural)]
pub enum HeaderFormat {
    /// One row; each name joins the column key's values and the value column's
    /// name with underscores.
    Flat,
    /// Two rows: the column key's values joined with underscores, then the
    /// value column's name.
    TwoRow,
    /// One row per key column, holding that column's value, then a row with the
    /// value column's name.
    PerKey,
    /// As `PerKey`, with each key value written as `name=value`.
    PerKeyLabelled,
}

impl HeaderFormat {
    /// The format that a code selects: 1 to 4 in the order of the variants.
    pub open spec fn of_code(code: u8) -> Option<HeaderFormat> {
        if code == 1 {
            Some(HeaderFormat::Flat)
        } else if code == 2 {
            Some(HeaderFormat::TwoRow)
        } else if code == 3 {
            Some(HeaderFormat::PerKey)
        } else if code == 4 {
            Some(HeaderFormat::PerKeyLabelled)
        } else {
            None
        }
    }

    /// The format that `code` selects; none for a code outside 1 to 4.
    pub fn from_code(code: u8) -> (r: Option<HeaderFormat>)
        ensures
            r == Self::of_code(code),
            r is Some <==> 1 <= code <= 4,
    {
        if code == 1 {
            Some(HeaderFormat::Flat)
        } else if code == 2 {
            Some(HeaderFormat::TwoRow)
        } else if code == 3 {
            Some(HeaderFormat::PerKey)
        } else if code == 4 {
            Some(HeaderFormat::PerKeyLabelled)
        } else {
            None
        }
    }

    /// The code that selects this format.
    pub fn code(self) -> (c: u8)
        ensures
            Self::of_code(c) == Some(self),
    {
        match self {
            HeaderFormat::Flat => 1,
            HeaderFormat::TwoRow => 2,
            HeaderFormat::PerKey => 3,
            HeaderFormat::PerKeyLabelled => 4,
        }
    }
}

/// One output column after the row keys: the position of its column key in the
/// key order and of its value column in the request.
#[derive(Clone, Copy, Debug, PartialEq, Eq, Structural)]
pub struct Slot {
    pub col_key: usize,
    pub value_col: usize,
}

/// The slot of output column `p` when every column key has `nv` value columns.
pub open spec fn slot_at(p: int, nv: int) -> Slot {
    Slot { col_key: (p / nv) as usize, value_col: (p % nv) as usize }
}

/// The slots of `nc` column keys with `nv` value columns each: `nc * nv` of
/// them, those of one column key side by side.
pub open spec fn slots(nc: nat, nv: nat) -> Seq<Slot> {
    Seq::new(nc * nv, |p: int| slot_at(p, nv as int))
}

/// The number of header rows of a format over `nk` key columns.
pub open spec fn header_height(format: HeaderFormat, nk: nat) -> nat {
    match format {
        HeaderFormat::Flat => 1,
        HeaderFormat::TwoRow => 2,
        HeaderFormat::PerKey => nk + 1,
        HeaderFormat::PerKeyLabelled => nk + 1,
    }
}

/// The text of header row `m` above the column of `col_key` and `value_col`.
pub open spec fn header_cell(
    format: HeaderFormat,
    key_names: Seq<Seq<char>>,
    col_key: Seq<Seq<char>>,
    value_col: Seq<char>,
    m: int,
) -> Seq<char> {
    match format {
        HeaderFormat::Flat => join(col_key.push(value_col), separator()),
        HeaderFormat::TwoRow => if m == 0 {
            join(col_key, separator())
        } else {
            value_col
        },
        HeaderFormat::PerKey => if m < key_names.len() {
            col_key[m]
        } else {
            value_col
        },
        HeaderFormat::PerKeyLabelled => if m < key_names.len() {
            key_names[m] + label_mark() + col_key[m]
        } else {
            value_col
        },
    }
}

/// Header row `m`: one text per output column, in slot order.
pub open spec fn header_row(
    format: HeaderFormat,
    key_names: Seq<Seq<char>>,
    col_keys: Seq<Seq<Seq<char>>>,
    value_cols: Seq<Seq<char>>,
    m: int,
) -> Seq<Seq<char>> {
    Seq::new(
        col_keys.len() * value_cols.len(),
        |p: int|
            header_cell(
                format,
                key_names,
                col_keys[p / (value_cols.len() as int)],
                value_cols[p % (value_cols.len() as int)],
                m,
            ),
    )
}

/// The header rows of a format, top row first.
pub open spec fn header_rows(
    format: HeaderFormat,
    key_names: Seq<Seq<char>>,
    col_keys: Seq<Seq<Seq<char>>>,
    value_cols: Seq<Seq<char>>,
) -> Seq<Seq<Seq<char>>> {
    Seq::new(
        header_height(format, key_names.len()),
        |m: int| header_row(format, key_names, col_keys, value_cols, m),
    )
}

/// Output column `j * nv + k` is value column `k` of column key `j`.
pub proof fn lemma_slot_position(j: int, k: int, nv: int)
    requires
        0 <= j,
        0 <= k < nv,
    ensures
        (j * nv + k) / nv == j,
        (j * nv + k) % nv == k,
        (j + 1) * nv == j * nv + nv,
        0 <= j * nv,
{
    lemma_fundamental_div_mod_converse(j * nv + k, nv, j, k);
    assert((j + 1) * nv == j * nv + nv) by (nonlinear_arith);
    assert(0 <= j * nv) by (nonlinear_arith)
        requires
            0 <= j,
            0 <= nv,
    ;
}

/// Slot `p` of `nc` column keys and `nv` value columns names one of each.
pub proof fn lemma_slot_in_range(nc: nat, nv: nat, p: int)
    requires
        nc <= usize::MAX,
        nv <= usize::MAX,
        0 <= p < nc * nv,
    ensures
        slot_at(p, nv as int).col_key == p / (nv as int),
        slot_at(p, nv as int).value_col == p % (nv as int),
        0 <= p / (nv as int) < nc,
        0 <= p % (nv as int) < nv,
{
    let v = nv as int;
    let c = nc as int;
    assert(v > 0) by (nonlinear_arith)
        requires
            0 <= p < c * v,
            0 <= c,
            0 <= v,
    ;
    lemma_fundamental_div_mod(p, v);
    lemma_mod_bound(p, v);
    assert(0 <= p / v < c) by (nonlinear_arith)
        requires
            0 <= p < c * v,
            v > 0,
            p == v * (p / v) + p % v,
            0 <= p % v < v,
    ;
}

/// The column layout of the output after the row keys.
#[derive(Clone, Debug, PartialEq, Eq)]
pub struct HeaderLayout {
    /// What each column holds, in output order.
    pub slots: Vec<Slot>,
    /// The header rows, top row first, each with one text per column.
    pub rows: Vec<Vec<String>>,
}

/// The slots of `nc` column keys with `nv` value columns each.
pub fn build_slots(nc: usize, nv: usize) -> (out: Vec<Slot>)
    ensures
        out@ == slots(nc as nat, nv as nat),
{
    let mut out: Vec<Slot> = Vec::new();
    let mut j: usize = 0;
    while j < nc
        invariant
            j <= nc,
            out.len() == j * nv,
            forall|p: int| 0 <= p < out.len() ==> (#[trigger] out[p]) == slot_at(p, nv as int),
        decreases nc - j,
    {
        let mut k: usize = 0;
        while k < nv
            invariant
                k <= nv,
                j < nc,
                out.len() == j * nv + k,
                forall|p: int| 0 <= p < out.len() ==> (#[trigger] out[p]) == slot_at(p, nv as int),
            decreases nv - k,
        {
            proof {
                lemma_slot_position(j as int, k as int, nv as int);
            }
            out.push(Slot { col_key: j, value_col: k });
            k += 1;
        }
        proof {
            assert((j + 1) * nv == j * nv + nv) by (nonlinear_arith);
        }
        j += 1;
    }
    out
}

/// The text of header row `m` above the column of `col_key` and `value_col`.
pub fn header_text(
    format: HeaderFormat,
    key_names: &Vec<String>,
    col_key: &Vec<String>,
    value_col: &String,
    m: usize,
) -> (s: String)
    requires
        col_key.len() == key_names.len(),
    ensures
        s@ == header_cell(format, key_names.deep_view(), col_key.deep_view(), value_col@, m as int),
{
    proof {
        reveal_strlit("_");
        reveal_strlit("=");
        assert("_"@ =~= separator());
    }
    match format {
        HeaderFormat::Flat => {
            let mut parts = clone_texts(col_key);
            let ghost prior = parts.deep_view();
            parts.push(value_col.clone());
            proof {
                assert(parts.deep_view() =~= prior.push(value_col@));
            }
            join_texts(&parts, "_")
        },
        HeaderFormat::TwoRow => {
            if m == 0 {
                join_texts(col_key, "_")
            } else {
                value_col.clone()
            }
        },
        HeaderFormat::PerKey => {
            if m < key_names.len() {
                col_key[m].clone()
            } else {
                value_col.clone()
            }
        },
        HeaderFormat::PerKeyLabelled => {
            if m < key_names.len() {
                let mut s = key_names[m].clone();
                s.append("=");
                s.append(col_key[m].as_str());
                s
            } else {
                value_col.clone()
            }
        },
    }
}

/// Header row `m` of a format: one text per output column, in slot order.
pub fn build_header_row(
    format: HeaderFormat,
    key_names: &Vec<String>,
    col_keys: &Vec<Vec<String>>,
    value_cols: &Vec<String>,
    m: usize,
) -> (row: Vec<String>)
    requires
        forall|j: int| 0 <= j < col_keys.len() ==> (#[trigger] col_keys[j]).len() == key_names.len(),
    ensures
        row.deep_view() == header_row(
            format,
            key_names.deep_view(),
            col_keys.deep_view(),
            value_cols.deep_view(),
            m as int,
        ),
{
    let nc = col_keys.len();
    let nv = value_cols.len();
    let mut row: Vec<String> = Vec::new();
    let mut j: usize = 0;
    while j < nc
        invariant
            j <= nc,
            nc == col_keys.len(),
            nv == value_cols.len(),
            forall|q: int| 0 <= q < col_keys.len() ==> (#[trigger] col_keys[q]).len() == key_names.len(),
            row.len() == j * nv,
            forall|p: int|
                0 <= p < row.len() ==> (#[trigger] row.deep_view()[p]) == header_cell(
                    format,
                    key_names.deep_view(),
                    col_keys.deep_view()[p / (nv as int)],
                    value_cols.deep_view()[p % (nv as int)],
                    m as int,
                ),
        decreases nc - j,
    {
        let mut k: usize = 0;
        while k < nv
            invariant
                k <= nv,
                j < nc,
                nc == col_keys.len(),
                nv == value_cols.len(),
                col_keys[j as int].len() == key_names.len(),
                row.len() == j * nv + k,
                forall|p: int|
                    0 <= p < row.len() ==> (#[trigger] row.deep_view()[p]) == header_cell(
                        format,
                        key_names.deep_view(),
                        col_keys.deep_view()[p / (nv as int)],
                        value_cols.deep_view()[p % (nv as int)],
                        m as int,
                    ),
            decreases nv - k,
        {
            proof {
                lemma_slot_position(j as int, k as int, nv as int);
            }
            let ghost prior = row.deep_view();
            let text = header_text(format, key_names, &col_keys[j], &value_cols[k], m);
            row.push(text);
            proof {
                assert(row.deep_view() =~= prior.push(text@));
            }
            k += 1;
        }
        proof {
            assert((j + 1) * nv == j * nv + nv) by (nonlinear_arith);
        }
        j += 1;
    }
    proof {
        assert(row.deep_view() =~= header_row(
            format,
            key_names.deep_view(),
            col_keys.deep_view(),
            value_cols.deep_view(),
            m as int,
        ));
    }
    row
}

/// Lays out the output columns for the column keys `col_keys`, whose components
/// belong to the key columns `key_names`, and the value columns `value_cols`.
pub fn build_header(
    format: HeaderFormat,
    key_names: &Vec<String>,
    col_keys: &Vec<Vec<String>>,
    value_cols: &Vec<String>,
) -> (layout: HeaderLayout)
    requires
        forall|j: int| 0 <= j < col_keys.len() ==> (#[trigger] col_keys[j]).len() == key_names.len(),
    ensures
        layout.slots@ == slots(col_keys.len() as nat, value_cols.len() as nat),
        layout.rows.deep_view() == header_rows(
            format,
            key_names.deep_view(),
            col_keys.deep_view(),
            value_cols.deep_view(),
        ),
{
    let slots = build_slots(col_keys.len(), value_cols.len());
    let mut rows: Vec<Vec<String>> = Vec::new();
    let ghost kn = key_names.deep_view();
    let ghost cks = col_keys.deep_view();
    let ghost vcs = value_cols.deep_view();
    match format {
        HeaderFormat::Flat => {
            rows.push(build_header_row(format, key_names, col_keys, value_cols, 0));
        },
        HeaderFormat::TwoRow => {
            rows.push(build_header_row(format, key_names, col_keys, value_cols, 0));
            rows.push(build_header_row(format, key_names, col_keys, value_cols, 1));
        },
        _ => {
            let nk = key_names.len();
            let mut m: usize = 0;
            while m < nk
                invariant
                    m <= nk,
                    nk == key_names.len(),
                    kn == key_names.deep_view(),
                    cks == col_keys.deep_view(),
                    vcs == value_cols.deep_view(),
                    forall|j: int|
                        0 <= j < col_keys.len() ==> (#[trigger] col_keys[j]).len()
                            == key_names.len(),
                    rows.len() == m,
                    forall|q: int|
                        0 <= q < m ==> (#[trigger] rows.deep_view()[q]) == header_row(
                            format,
                            kn,
                            cks,
                            vcs,
                            q,
                        ),
                decreases nk - m,
            {
                let ghost prior = rows.deep_view();
                let row = build_header_row(format, key_names, col_keys, value_cols, m);
                rows.push(row);
                proof {
                    assert(rows.deep_view() =~= prior.push(header_row(format, kn, cks, vcs, m as int)));
                }
                m += 1;
            }
            let ghost prior = rows.deep_view();
            let row = build_header_row(format, key_names, col_keys, value_cols, nk);
            rows.push(row);
            proof {
                assert(rows.deep_view() =~= prior.push(header_row(format, kn, cks, vcs, nk as int)));
            }
        },
    }
    HeaderLayout { slots, rows }
}

} // verus!
