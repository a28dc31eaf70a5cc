//! What holds of every crosstab.

use vstd::prelude::*;
use crate::cells::{
    addresses, cell_at, cell_store, collisions_of, first_row, rows_at, CellView, CollisionView,
};
use crate::header::{lemma_slot_position, HeaderFormat};
use crate::keys::{
    first_seen, is_first_at, key_order, lemma_first_seen_distinct, lemma_first_seen_len,
    lemma_first_seen_members, lemma_first_seen_order,
};
use crate::output::OutputTable;
use crate::pivot::crosstab_of;
use crate::schema::ColumnSpecView;
use crate::table::TableView;

verus! {

/// The first row of a pair of keys is the first position at which the input
/// carries them; there is none exactly if no input row carries them.
pub proof fn lemma_first_row(
    t: TableView,
    s: ColumnSpecView,
    rk: Seq<Seq<char>>,
    ck: Seq<Seq<char>>,
)
    ensures
        match first_row(t, s, rk, ck) {
            Some(r) => is_first_at(addresses(t, s), (rk, ck), r),
            None => !addresses(t, s).contains((rk, ck)),
        },
{
    addresses(t, s).index_of_first_ensures((rk, ck));
}

/// The crosstab has one row for each distinct row key of the input, and its
/// rows carry those keys in first-seen order.
pub proof fn lemma_row_count(t: TableView, s: ColumnSpecView, format: HeaderFormat)
    ensures
        crosstab_of(t, s, format).rows.len() == t.projections(s.row_keys).to_set().len(),
        forall|i: int|
            0 <= i < crosstab_of(t, s, format).rows.len() ==> (#[trigger] crosstab_of(
                t,
                s,
                format,
            ).rows[i]).key == key_order(t, s.row_keys)[i],
{
    lemma_first_seen_len(t.projections(s.row_keys));
}

/// Of two rows of the crosstab, the upper one has the key that the input shows
/// first.
pub proof fn lemma_row_order(
    t: TableView,
    s: ColumnSpecView,
    format: HeaderFormat,
    a: int,
    b: int,
    i: int,
    j: int,
)
    requires
        0 <= a < b < crosstab_of(t, s, format).rows.len(),
        is_first_at(t.projections(s.row_keys), crosstab_of(t, s, format).rows[a].key, i),
        is_first_at(t.projections(s.row_keys), crosstab_of(t, s, format).rows[b].key, j),
    ensures
        i < j,
{
    lemma_first_seen_order(t.projections(s.row_keys), a, b, i, j);
}

/// After the row key, every row of the crosstab and every header row has as
/// many columns as the input has distinct column keys, times the number of
/// value columns.
pub proof fn lemma_column_count(t: TableView, s: ColumnSpecView, format: HeaderFormat)
    ensures
        forall|i: int|
            0 <= i < crosstab_of(t, s, format).rows.len() ==> (#[trigger] crosstab_of(
                t,
                s,
                format,
            ).rows[i]).cells.len() == t.projections(s.col_keys).to_set().len()
                * s.value_cols.len(),
        forall|m: int|
            0 <= m < crosstab_of(t, s, format).header.len() ==> (#[trigger] crosstab_of(
                t,
                s,
                format,
            ).header[m]).len() == t.projections(s.col_keys).to_set().len() * s.value_cols.len(),
{
    lemma_first_seen_len(t.projections(s.col_keys));
}

/// What a cell of the crosstab holds. The cell of row key `i`, column key `j`
/// and value column `k` stands at position `j * nv + k` after the row key,
/// `nv` being the number of value columns. It holds the value that the first
/// input row with both keys has in that value column, and is empty if the input
/// has no such row.
pub proof fn lemma_cell_content(
    t: TableView,
    s: ColumnSpecView,
    format: HeaderFormat,
    i: int,
    j: int,
    k: int,
)
    requires
        0 <= i < key_order(t, s.row_keys).len(),
        0 <= j < key_order(t, s.col_keys).len(),
        0 <= k < s.value_cols.len(),
    ensures
        0 <= j * s.value_cols.len() + k < crosstab_of(t, s, format).rows[i].cells.len(),
        crosstab_of(t, s, format).rows[i].cells[j * s.value_cols.len() + k] == (match first_row(
            t,
            s,
            key_order(t, s.row_keys)[i],
            key_order(t, s.col_keys)[j],
        ) {
            Some(r) => Some(t.rows[r][t.column_of(s.value_cols[k])]),
            None => None,
        }),
{
    let nv = s.value_cols.len() as int;
    let nc = key_order(t, s.col_keys).len() as int;
    lemma_slot_position(j, k, nv);
    assert(j * nv + k < nc * nv) by (nonlinear_arith)
        requires
            0 <= j < nc,
            0 <= k < nv,
    ;
    lemma_first_row(t, s, key_order(t, s.row_keys)[i], key_order(t, s.col_keys)[j]);
}

/// A row key that no input row pairs with a column key has empty cells under
/// that column key, one for each value column.
pub proof fn lemma_missing_combination(
    t: TableView,
    s: ColumnSpecView,
    format: HeaderFormat,
    i: int,
    j: int,
    k: int,
)
    requires
        0 <= i < key_order(t, s.row_keys).len(),
        0 <= j < key_order(t, s.col_keys).len(),
        0 <= k < s.value_cols.len(),
        forall|r: int|
            0 <= r < t.rows.len() ==> !(t.project(r, s.row_keys) == key_order(t, s.row_keys)[i]
                && t.project(r, s.col_keys) == key_order(t, s.col_keys)[j]),
    ensures
        crosstab_of(t, s, format).rows[i].cells[j * s.value_cols.len() + k] is None,
{
    lemma_cell_content(t, s, format, i, j, k);
    let rk = key_order(t, s.row_keys)[i];
    let ck = key_order(t, s.col_keys)[j];
    lemma_first_row(t, s, rk, ck);
    if first_row(t, s, rk, ck) is Some {
        let r = first_row(t, s, rk, ck)->0;
        assert(addresses(t, s)[r] == (rk, ck));
        assert(t.project(r, s.row_keys) == rk);
    }
}

/// What the cell store of a table holds under an address whose value column
/// the request names: the value that the first input row with the two keys has
/// in that column, and the number of input rows with these keys; nothing if
/// the input has no such row.
pub proof fn lemma_store_entry(
    t: TableView,
    s: ColumnSpecView,
    rk: Seq<Seq<char>>,
    ck: Seq<Seq<char>>,
    v: Seq<char>,
)
    requires
        s.value_cols.contains(v),
    ensures
        cell_store(t, s).entry(rk, ck, v) == (match first_row(t, s, rk, ck) {
            Some(r) => Some((t.rows[r][t.column_of(v)], rows_at(t, s, rk, ck))),
            None => None,
        }),
{
    let st = cell_store(t, s);
    lemma_first_row(t, s, rk, ck);
    lemma_first_seen_members(t.projections(s.row_keys));
    lemma_first_seen_members(t.projections(s.col_keys));
    lemma_first_seen_distinct(t.projections(s.row_keys));
    lemma_first_seen_distinct(t.projections(s.col_keys));
    s.value_cols.index_of_first_ensures(v);
    match first_row(t, s, rk, ck) {
        Some(r) => {
            assert(t.projections(s.row_keys)[r] == rk);
            assert(t.projections(s.col_keys)[r] == ck);
            assert(st.row_keys.contains(rk));
            assert(st.col_keys.contains(ck));
            let i = st.row_keys.index_of(rk);
            let j = st.col_keys.index_of(ck);
            assert(st.cells[i][j] == cell_at(t, s, rk, ck));
        },
        None => {
            if st.row_keys.contains(rk) && st.col_keys.contains(ck) {
                let i = st.row_keys.index_of(rk);
                let j = st.col_keys.index_of(ck);
                assert(st.cells[i][j] == cell_at(t, s, rk, ck));
            }
        },
    }
}

/// Two runs on the same input give the same table, text for text, and so the
/// same records.
pub proof fn lemma_runs_agree(
    t: TableView,
    s: ColumnSpecView,
    format: HeaderFormat,
    first: OutputTable,
    second: OutputTable,
)
    requires
        first.deep_view() == crosstab_of(t, s, format),
        second.deep_view() == crosstab_of(t, s, format),
    ensures
        first.deep_view() == second.deep_view(),
        first.deep_view().records() == second.deep_view().records(),
{
}

/// No two entries of `s` have the same key.
spec fn keys_distinct<T, K>(s: Seq<T>, key: spec_fn(T) -> K) -> bool {
    forall|p: int, q: int| 0 <= p < q < s.len() ==> key(#[trigger] s[p]) != key(#[trigger] s[q])
}

/// No entry of `a` has the key of an entry of `b`.
spec fn keys_apart<T, K>(a: Seq<T>, b: Seq<T>, key: spec_fn(T) -> K) -> bool {
    forall|p: int, q: int|
        0 <= p < a.len() && 0 <= q < b.len() ==> key(#[trigger] a[p]) != key(#[trigger] b[q])
}

/// The lists of `ss` written one after the other hold what the lists hold, and
/// no key twice if no list does and no two lists share one.
proof fn lemma_flatten_keys<T, K>(ss: Seq<Seq<T>>, key: spec_fn(T) -> K)
    requires
        forall|a: int| 0 <= a < ss.len() ==> keys_distinct(#[trigger] ss[a], key),
        forall|a: int, b: int|
            0 <= a < b < ss.len() ==> keys_apart(#[trigger] ss[a], #[trigger] ss[b], key),
    ensures
        keys_distinct(ss.flatten(), key),
        forall|x: T|
            #[trigger] ss.flatten().contains(x) <==> exists|a: int|
                0 <= a < ss.len() && (#[trigger] ss[a]).contains(x),
    decreases ss.len(),
{
    if ss.len() == 0 {
        assert(ss.flatten() =~= Seq::<T>::empty());
    } else {
        let front = ss.drop_last();
        let last = ss.last();
        let flat = front.flatten();
        assert(ss =~= front.push(last));
        front.lemma_flatten_push(last);
        assert(ss.flatten() =~= flat + last);
        assert forall|a: int| 0 <= a < front.len() implies keys_distinct(
            #[trigger] front[a],
            key,
        ) by {
            assert(front[a] == ss[a]);
        }
        assert forall|a: int, b: int| 0 <= a < b < front.len() implies keys_apart(
            #[trigger] front[a],
            #[trigger] front[b],
            key,
        ) by {
            assert(front[a] == ss[a] && front[b] == ss[b]);
        }
        lemma_flatten_keys(front, key);
        assert forall|x: T| #[trigger]
            ss.flatten().contains(x) <==> exists|a: int|
                0 <= a < ss.len() && (#[trigger] ss[a]).contains(x) by {
            if ss.flatten().contains(x) {
                let p = choose|p: int| 0 <= p < ss.flatten().len() && ss.flatten()[p] == x;
                if p < flat.len() {
                    assert(flat[p] == x);
                    assert(flat.contains(x));
                    let a = choose|a: int| 0 <= a < front.len() && (#[trigger] front[a]).contains(x);
                    assert(ss[a].contains(x));
                } else {
                    assert(last[p - flat.len()] == x);
                    assert(ss[ss.len() - 1].contains(x));
                }
            }
            if exists|a: int| 0 <= a < ss.len() && (#[trigger] ss[a]).contains(x) {
                let a = choose|a: int| 0 <= a < ss.len() && (#[trigger] ss[a]).contains(x);
                if a < front.len() {
                    assert(front[a].contains(x));
                    assert(flat.contains(x));
                    let p = choose|p: int| 0 <= p < flat.len() && flat[p] == x;
                    assert(ss.flatten()[p] == x);
                } else {
                    let q = choose|q: int| 0 <= q < last.len() && last[q] == x;
                    assert(ss.flatten()[flat.len() + q] == x);
                }
            }
        }
        assert forall|p: int, q: int| 0 <= p < q < ss.flatten().len() implies key(
            #[trigger] ss.flatten()[p],
        ) != key(#[trigger] ss.flatten()[q]) by {
            if q < flat.len() {
                assert(flat[p] == ss.flatten()[p] && flat[q] == ss.flatten()[q]);
            } else if p >= flat.len() {
                assert(last[p - flat.len()] == ss.flatten()[p]);
                assert(last[q - flat.len()] == ss.flatten()[q]);
                assert(keys_distinct(ss[ss.len() - 1], key));
            } else {
                let x = flat[p];
                assert(flat.contains(x));
                let a = choose|a: int| 0 <= a < front.len() && (#[trigger] front[a]).contains(x);
                let u = choose|u: int| 0 <= u < front[a].len() && front[a][u] == x;
                assert(keys_apart(ss[a], ss[ss.len() - 1], key));
                assert(ss[a][u] == x);
                assert(last[q - flat.len()] == ss.flatten()[q]);
            }
        }
    }
}

/// The address of a collision: its row key, its column key and its value
/// column.
pub open spec fn address_of(c: CollisionView) -> (Seq<Seq<char>>, Seq<Seq<char>>, Seq<char>) {
    (c.row_key, c.col_key, c.value_col)
}

/// An item that stands at two places of a sequence is counted at least twice.
proof fn lemma_two_occurrences<T>(s: Seq<T>, a: int, b: int)
    requires
        0 <= a < b < s.len(),
        s[a] == s[b],
    ensures
        s.to_multiset().count(s[a]) >= 2,
{
    let rest = s.remove(b);
    vstd::seq_lib::to_multiset_remove(s, b);
    assert(rest[a] == s[a]);
    assert(rest.contains(s[a]));
    vstd::seq_lib::to_multiset_contains(rest, s[a]);
}

/// The collision law. Where two input rows carry the same row key and column
/// key, the cell of these keys holds the values of the first input row that
/// carries them, and for each value column the collisions list exactly one
/// entry with the cell's address, whose excess is the number of rows with
/// these keys less one.
pub proof fn lemma_collision(t: TableView, s: ColumnSpecView, r1: int, r2: int, k: int)
    requires
        0 <= r1 < r2 < t.rows.len(),
        addresses(t, s)[r1] == addresses(t, s)[r2],
        0 <= k < s.value_cols.len(),
    ensures
        ({
            let rk = t.project(r1, s.row_keys);
            let ck = t.project(r1, s.col_keys);
            let v = s.value_cols[k];
            let cs = collisions_of(t, s);
            &&& first_row(t, s, rk, ck) is Some
            &&& first_row(t, s, rk, ck)->0 <= r1
            &&& rows_at(t, s, rk, ck) >= 2
            &&& cell_at(t, s, rk, ck) == Some(
                CellView {
                    values: t.project(first_row(t, s, rk, ck)->0, s.value_cols),
                    rows: rows_at(t, s, rk, ck),
                },
            )
            &&& exists|p: int|
                0 <= p < cs.len() && #[trigger] cs[p] == (CollisionView {
                    row_key: rk,
                    col_key: ck,
                    value_col: v,
                    extra: (rows_at(t, s, rk, ck) - 1) as nat,
                }) && forall|q: int|
                    0 <= q < cs.len() && address_of(#[trigger] cs[q]) == (rk, ck, v) ==> q == p
        }),
{
    let rk = t.project(r1, s.row_keys);
    let ck = t.project(r1, s.col_keys);
    let v = s.value_cols[k];
    let all = addresses(t, s);
    let st = cell_store(t, s);
    let cs = collisions_of(t, s);
    let key = |c: CollisionView| address_of(c);
    assert(all[r1] == (rk, ck));
    lemma_first_row(t, s, rk, ck);
    lemma_two_occurrences(all, r1, r2);
    let rows = rows_at(t, s, rk, ck);
    // The place of the cell in the store.
    lemma_first_seen_members(t.projections(s.row_keys));
    lemma_first_seen_members(t.projections(s.col_keys));
    lemma_first_seen_distinct(t.projections(s.row_keys));
    lemma_first_seen_distinct(t.projections(s.col_keys));
    assert(t.projections(s.row_keys)[r1] == rk);
    assert(t.projections(s.col_keys)[r1] == ck);
    assert(t.projections(s.row_keys).contains(rk));
    assert(t.projections(s.col_keys).contains(ck));
    assert(st.row_keys.contains(rk));
    assert(st.col_keys.contains(ck));
    let i = choose|i: int| 0 <= i < st.row_keys.len() && st.row_keys[i] == rk;
    let j = choose|j: int| 0 <= j < st.col_keys.len() && st.col_keys[j] == ck;
    assert(st.cells[i][j] == cell_at(t, s, rk, ck));
    // The place of the value column among the distinct names.
    let names = first_seen(s.value_cols);
    lemma_first_seen_members(s.value_cols);
    lemma_first_seen_distinct(s.value_cols);
    assert(s.value_cols.contains(v));
    assert(names.contains(v));
    let x = choose|x: int| 0 <= x < names.len() && names[x] == v;
    let wanted = CollisionView {
        row_key: rk,
        col_key: ck,
        value_col: v,
        extra: (rows - 1) as nat,
    };
    assert(st.cell_collisions(i, j)[x] == wanted);
    assert(st.cell_collisions(i, j).contains(wanted));
    // Within a row of the store.
    let by_col = |a: int| Seq::new(st.col_keys.len(), |b: int| st.cell_collisions(a, b));
    assert forall|a: int| 0 <= a < st.row_keys.len() implies keys_distinct(
        #[trigger] st.row_collisions(a),
        key,
    ) && (forall|e: CollisionView| #[trigger]
        st.row_collisions(a).contains(e) <==> exists|b: int|
            0 <= b < st.col_keys.len() && (#[trigger] by_col(a)[b]).contains(e)) by {
        let fam = by_col(a);
        assert forall|b: int| 0 <= b < fam.len() implies keys_distinct(#[trigger] fam[b], key) by {
            assert(fam[b] == st.cell_collisions(a, b));
        }
        assert forall|b: int, c: int| 0 <= b < c < fam.len() implies keys_apart(
            #[trigger] fam[b],
            #[trigger] fam[c],
            key,
        ) by {
            assert(fam[b] == st.cell_collisions(a, b));
            assert(fam[c] == st.cell_collisions(a, c));
            assert(st.col_keys[b] != st.col_keys[c]);
        }
        lemma_flatten_keys(fam, key);
    }
    // Over the whole store.
    let fam = Seq::new(st.row_keys.len(), |a: int| st.row_collisions(a));
    assert forall|a: int| 0 <= a < fam.len() implies keys_distinct(#[trigger] fam[a], key) by {
        assert(fam[a] == st.row_collisions(a));
    }
    assert forall|a: int, c: int| 0 <= a < c < fam.len() implies keys_apart(
        #[trigger] fam[a],
        #[trigger] fam[c],
        key,
    ) by {
        assert(fam[a] == st.row_collisions(a));
        assert(fam[c] == st.row_collisions(c));
        assert(st.row_keys[a] != st.row_keys[c]);
        assert forall|p: int, q: int| 0 <= p < fam[a].len() && 0 <= q < fam[c].len() implies key(
            #[trigger] fam[a][p],
        ) != key(#[trigger] fam[c][q]) by {
            let e = fam[a][p];
            let f = fam[c][q];
            assert(st.row_collisions(a).contains(e));
            assert(st.row_collisions(c).contains(f));
            let b = choose|b: int| 0 <= b < st.col_keys.len() && (#[trigger] by_col(a)[b]).contains(e);
            let d = choose|d: int| 0 <= d < st.col_keys.len() && (#[trigger] by_col(c)[d]).contains(f);
            assert(by_col(a)[b] == st.cell_collisions(a, b));
            assert(by_col(c)[d] == st.cell_collisions(c, d));
            let left = st.cell_collisions(a, b);
            let right = st.cell_collisions(c, d);
            let u = choose|u: int| 0 <= u < left.len() && left[u] == e;
            let w = choose|w: int| 0 <= w < right.len() && right[w] == f;
            assert(left[u].row_key == st.row_keys[a]);
            assert(right[w].row_key == st.row_keys[c]);
        }
    }
    lemma_flatten_keys(fam, key);
    assert(cs == fam.flatten());
    assert(by_col(i)[j] == st.cell_collisions(i, j));
    assert(st.row_collisions(i).contains(wanted));
    assert(fam[i] == st.row_collisions(i));
    assert(cs.contains(wanted));
    let p = choose|p: int| 0 <= p < cs.len() && cs[p] == wanted;
    assert forall|q: int| 0 <= q < cs.len() && address_of(#[trigger] cs[q]) == (rk, ck, v) implies q
        == p by {
        assert(key(cs[q]) == key(cs[p]));
        if q < p {
            assert(key(cs[q]) != key(cs[p]));
        }
        if p < q {
            assert(key(cs[p]) != key(cs[q]));
        }
    }
}

} // verus!
