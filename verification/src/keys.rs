//! Key extraction: the distinct row keys and column keys of a table, each in
//! the order in which the input first shows them.

use vstd::prelude::*;
use crate::schema::ColumnSpec;
use crate::table::{InputTable, TableView};
use crate::text::{find_text, same_texts};

verus! {

/// The distinct items of `s`, each at the place of its first occurrence.
pub open spec fn first_seen<T>(s: Seq<T>) -> Seq<T>
    decreases s.len(),
{
    if s.len() == 0 {
        Seq::empty()
    } else {
        let prior = first_seen(s.drop_last());
        if prior.contains(s.last()) {
            prior
        } else {
            prior.push(s.last())
        }
    }
}

/// `i` is the first position at which `s` holds `x`.
pub open spec fn is_first_at<T>(s: Seq<T>, x: T, i: int) -> bool {
    &&& 0 <= i < s.len()
    &&& s[i] == x
    &&& forall|j: int| 0 <= j < i ==> s[j] != x
}

/// `first_seen` keeps exactly the items of the sequence.
pub proof fn lemma_first_seen_members<T>(s: Seq<T>)
    ensures
        forall|x: T| #[trigger] first_seen(s).contains(x) <==> s.contains(x),
    decreases s.len(),
{
    if s.len() > 0 {
        let p = s.drop_last();
        let l = s.last();
        let f = first_seen(p);
        lemma_first_seen_members(p);
        assert forall|x: T| #[trigger] first_seen(s).contains(x) <==> s.contains(x) by {
            if s.contains(x) {
                let i = choose|i: int| 0 <= i < s.len() && s[i] == x;
                if i < s.len() - 1 {
                    assert(p[i] == x);
                }
            }
            if !f.contains(l) {
                let g = f.push(l);
                if f.contains(x) {
                    let i = choose|i: int| 0 <= i < f.len() && f[i] == x;
                    assert(g[i] == x);
                }
                assert(g[f.len() as int] == l);
            }
        }
    }
}

/// `first_seen` holds no item twice.
pub proof fn lemma_first_seen_distinct<T>(s: Seq<T>)
    ensures
        first_seen(s).no_duplicates(),
    decreases s.len(),
{
    if s.len() > 0 {
        lemma_first_seen_distinct(s.drop_last());
    }
}

/// `first_seen` has as many items as the sequence has distinct ones.
pub proof fn lemma_first_seen_len<T>(s: Seq<T>)
    ensures
        first_seen(s).len() == s.to_set().len(),
{
    lemma_first_seen_members(s);
    lemma_first_seen_distinct(s);
    first_seen(s).unique_seq_to_set();
    assert(first_seen(s).to_set() =~= s.to_set());
}

/// What has been seen after `n` items stays, in place, when more items follow.
pub proof fn lemma_first_seen_prefix<T>(s: Seq<T>, n: int)
    requires
        0 <= n <= s.len(),
    ensures
        first_seen(s.take(n)).is_prefix_of(first_seen(s)),
    decreases s.len(),
{
    if n == s.len() {
        assert(s.take(n) =~= s);
    } else {
        assert(s.take(n) =~= s.drop_last().take(n));
        lemma_first_seen_prefix(s.drop_last(), n);
    }
}

/// Items stand in `first_seen` in the order of their first occurrences.
pub proof fn lemma_first_seen_order<T>(s: Seq<T>, a: int, b: int, i: int, j: int)
    requires
        0 <= a < b < first_seen(s).len(),
        is_first_at(s, first_seen(s)[a], i),
        is_first_at(s, first_seen(s)[b], j),
    ensures
        i < j,
    decreases s.len(),
{
    let p = s.drop_last();
    let f = first_seen(p);
    let x = first_seen(s)[a];
    let y = first_seen(s)[b];
    lemma_first_seen_members(p);
    assert(f.contains(x));
    if b < f.len() {
        assert(f.contains(y));
        assert(is_first_at(p, x, i));
        assert(is_first_at(p, y, j));
        lemma_first_seen_order(p, a, b, i, j);
    } else {
        if j < p.len() {
            assert(p[j] == y);
        }
    }
}

/// `idx` holds, for each name of `names`, the position of its column in `t`.
pub(crate) open spec fn resolves(t: TableView, names: Seq<Seq<char>>, idx: Seq<usize>) -> bool {
    &&& idx.len() == names.len()
    &&& forall|k: int|
        0 <= k < idx.len() ==> (#[trigger] idx[k]) < t.header.len() && idx[k] == t.column_of(
            names[k],
        )
}

/// The values of `row` at the positions `idx`.
pub(crate) open spec fn picked(row: Seq<Seq<char>>, idx: Seq<usize>) -> Seq<Seq<char>> {
    Seq::new(idx.len(), |k: int| row[idx[k] as int])
}

/// Picking by resolved positions is projecting by names.
pub(crate) proof fn lemma_picked_is_project(t: TableView, names: Seq<Seq<char>>, idx: Seq<usize>, r: int)
    requires
        resolves(t, names, idx),
    ensures
        picked(t.rows[r], idx) == t.project(r, names),
{
}

/// The positions of the columns called `names`.
pub(crate) fn resolve(table: &InputTable, names: &Vec<String>) -> (idx: Vec<usize>)
    requires
        table.wf(),
        forall|k: int|
            0 <= k < names.len() ==> table@.header.contains(#[trigger] names.deep_view()[k]),
    ensures
        resolves(table@, names.deep_view(), idx@),
{
    let mut idx: Vec<usize> = Vec::new();
    let mut k: usize = 0;
    while k < names.len()
        invariant
            k <= names.len(),
            table.wf(),
            forall|q: int|
                0 <= q < names.len() ==> table@.header.contains(#[trigger] names.deep_view()[q]),
            idx.len() == k,
            forall|q: int|
                0 <= q < k ==> (#[trigger] idx[q]) < table@.header.len() && idx[q]
                    == table@.column_of(names.deep_view()[q]),
        decreases names.len() - k,
    {
        proof {
            assert(table@.header.contains(names.deep_view()[k as int]));
        }
        match table.column_index(&names[k]) {
            Some(c) => {
                idx.push(c);
            },
            None => {
                assert(false);
            },
        }
        k += 1;
    }
    idx
}

/// The values of row `r` at the positions `idx`, as a key of its own.
pub(crate) fn pick(table: &InputTable, r: usize, idx: &Vec<usize>) -> (key: Vec<String>)
    requires
        table.wf(),
        r < table@.rows.len(),
        forall|k: int| 0 <= k < idx.len() ==> (#[trigger] idx[k]) < table@.header.len(),
    ensures
        key.deep_view() == picked(table@.rows[r as int], idx@),
{
    let mut key: Vec<String> = Vec::new();
    let mut k: usize = 0;
    while k < idx.len()
        invariant
            k <= idx.len(),
            table.wf(),
            r < table@.rows.len(),
            forall|q: int| 0 <= q < idx.len() ==> (#[trigger] idx[q]) < table@.header.len(),
            key.len() == k,
            forall|q: int|
                0 <= q < k ==> key.deep_view()[q] == table@.rows[r as int][idx[q] as int],
        decreases idx.len() - k,
    {
        let ghost prior = key.deep_view();
        key.push(table.value(r, idx[k]).clone());
        proof {
            assert(key.deep_view() =~= prior.push(table@.rows[r as int][idx[k as int] as int]));
        }
        k += 1;
    }
    key
}

/// Tells whether `key` holds the values of row `r` at the positions `idx`.
pub(crate) fn is_key_of(key: &Vec<String>, table: &InputTable, r: usize, idx: &Vec<usize>) -> (b: bool)
    requires
        table.wf(),
        r < table@.rows.len(),
        forall|k: int| 0 <= k < idx.len() ==> (#[trigger] idx[k]) < table@.header.len(),
    ensures
        b == (key.deep_view() == picked(table@.rows[r as int], idx@)),
{
    if key.len() != idx.len() {
        proof {
            assert(key.deep_view().len() != picked(table@.rows[r as int], idx@).len());
        }
        return false;
    }
    let mut k: usize = 0;
    while k < idx.len()
        invariant
            k <= idx.len(),
            key.len() == idx.len(),
            table.wf(),
            r < table@.rows.len(),
            forall|q: int| 0 <= q < idx.len() ==> (#[trigger] idx[q]) < table@.header.len(),
            forall|q: int|
                0 <= q < k ==> key.deep_view()[q] == table@.rows[r as int][idx[q] as int],
        decreases idx.len() - k,
    {
        if key[k] != *table.value(r, idx[k]) {
            proof {
                assert(key.deep_view()[k as int] != picked(table@.rows[r as int], idx@)[k as int]);
            }
            return false;
        }
        k += 1;
    }
    proof {
        assert(key.deep_view() =~= picked(table@.rows[r as int], idx@));
    }
    true
}

/// The first position at which `keys` holds the values of row `r` at `idx`.
pub(crate) fn key_position(keys: &Vec<Vec<String>>, table: &InputTable, r: usize, idx: &Vec<usize>) -> (p:
    Option<usize>)
    requires
        table.wf(),
        r < table@.rows.len(),
        forall|k: int| 0 <= k < idx.len() ==> (#[trigger] idx[k]) < table@.header.len(),
    ensures
        match p {
            Some(i) => is_first_at(keys.deep_view(), picked(table@.rows[r as int], idx@), i as int),
            None => !keys.deep_view().contains(picked(table@.rows[r as int], idx@)),
        },
{
    let mut i: usize = 0;
    while i < keys.len()
        invariant
            i <= keys.len(),
            table.wf(),
            r < table@.rows.len(),
            forall|k: int| 0 <= k < idx.len() ==> (#[trigger] idx[k]) < table@.header.len(),
            forall|j: int|
                0 <= j < i ==> keys.deep_view()[j] != picked(table@.rows[r as int], idx@),
        decreases keys.len() - i,
    {
        if is_key_of(&keys[i], table, r, idx) {
            return Some(i);
        }
        i += 1;
    }
    None
}

/// The distinct projections of the rows on the positions `idx`, in first-seen
/// order.
pub(crate) fn distinct_keys(table: &InputTable, idx: &Vec<usize>) -> (keys: Vec<Vec<String>>)
    requires
        table.wf(),
        forall|k: int| 0 <= k < idx.len() ==> (#[trigger] idx[k]) < table@.header.len(),
    ensures
        keys.deep_view() == first_seen(
            Seq::new(table@.rows.len(), |r: int| picked(table@.rows[r], idx@)),
        ),
{
    let ghost all = Seq::new(table@.rows.len(), |r: int| picked(table@.rows[r], idx@));
    let mut keys: Vec<Vec<String>> = Vec::new();
    let n = table.num_rows();
    let mut r: usize = 0;
    while r < n
        invariant
            r <= n,
            n == table@.rows.len(),
            table.wf(),
            forall|k: int| 0 <= k < idx.len() ==> (#[trigger] idx[k]) < table@.header.len(),
            all == Seq::new(table@.rows.len(), |r: int| picked(table@.rows[r], idx@)),
            keys.deep_view() == first_seen(all.take(r as int)),
        decreases n - r,
    {
        proof {
            assert(all.take(r as int + 1).drop_last() =~= all.take(r as int));
        }
        if key_position(&keys, table, r, idx).is_none() {
            let key = pick(table, r, idx);
            keys.push(key);
        }
        r += 1;
    }
    proof {
        assert(all.take(n as int) =~= all);
    }
    keys
}

/// The distinct texts of `list`, in first-seen order.
pub fn distinct_texts(list: &Vec<String>) -> (out: Vec<String>)
    ensures
        out.deep_view() == first_seen(list.deep_view()),
{
    let mut out: Vec<String> = Vec::new();
    let mut k: usize = 0;
    while k < list.len()
        invariant
            k <= list.len(),
            out.deep_view() == first_seen(list.deep_view().take(k as int)),
        decreases list.len() - k,
    {
        proof {
            assert(list.deep_view().take(k as int + 1).drop_last() =~= list.deep_view().take(
                k as int,
            ));
        }
        if find_text(&out, &list[k]).is_none() {
            out.push(list[k].clone());
        }
        k += 1;
    }
    proof {
        assert(list.deep_view().take(list.len() as int) =~= list.deep_view());
    }
    out
}

/// The first position at which `keys` holds `key`.
pub fn find_key(keys: &Vec<Vec<String>>, key: &Vec<String>) -> (p: Option<usize>)
    ensures
        match p {
            Some(i) => is_first_at(keys.deep_view(), key.deep_view(), i as int),
            None => !keys.deep_view().contains(key.deep_view()),
        },
{
    let mut i: usize = 0;
    while i < keys.len()
        invariant
            i <= keys.len(),
            forall|j: int| 0 <= j < i ==> keys.deep_view()[j] != key.deep_view(),
        decreases keys.len() - i,
    {
        if same_texts(&keys[i], key) {
            return Some(i);
        }
        i += 1;
    }
    None
}

/// The row keys and the column keys of a table, each list without repeats and
/// in first-seen order.
#[derive(Clone, Debug, PartialEq, Eq)]
pub struct KeyOrders {
    pub row_keys: Vec<Vec<String>>,
    pub col_keys: Vec<Vec<String>>,
}

/// The distinct row keys of `t` under `names`, in first-seen order.
pub open spec fn key_order(t: TableView, names: Seq<Seq<char>>) -> Seq<Seq<Seq<char>>> {
    first_seen(t.projections(names))
}

/// Scans the table once per role and collects its distinct row keys and its
/// distinct column keys, each in the order of first appearance.
pub fn extract_keys(table: &InputTable, spec: &ColumnSpec) -> (keys: KeyOrders)
    requires
        table.wf(),
        spec@.present_in(table@.header),
    ensures
        keys.row_keys.deep_view() == key_order(table@, spec@.row_keys),
        keys.col_keys.deep_view() == key_order(table@, spec@.col_keys),
{
    let ridx = resolve(table, spec.row_keys());
    let cidx = resolve(table, spec.col_keys());
    let row_keys = distinct_keys(table, &ridx);
    let col_keys = distinct_keys(table, &cidx);
    proof {
        lemma_projections_by_positions(table@, spec@.row_keys, ridx@);
        lemma_projections_by_positions(table@, spec@.col_keys, cidx@);
    }
    KeyOrders { row_keys, col_keys }
}

/// Picking every row by resolved positions gives the projections by names.
pub(crate) proof fn lemma_projections_by_positions(t: TableView, names: Seq<Seq<char>>, idx: Seq<usize>)
    requires
        resolves(t, names, idx),
    ensures
        Seq::new(t.rows.len(), |r: int| picked(t.rows[r], idx)) == t.projections(names),
{
    assert forall|r: int| 0 <= r < t.rows.len() implies picked(t.rows[r], idx) == t.project(
        r,
        names,
    ) by {
        lemma_picked_is_project(t, names, idx, r);
    }
}

} // verus!
