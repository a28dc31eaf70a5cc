//! Cell resolution: which input row fills each cell of the crosstab, and how
//! many rows competed for it.
//!
//! A cell belongs to one row key and one column key. The first input row that
//! carries both fills it; later rows with the same keys are counted and their
//! values dropped.

use vstd::prelude::*;
use crate::keys::{
    distinct_texts, find_key, first_seen, key_order, key_position, lemma_first_seen_distinct,
    lemma_first_seen_members, lemma_picked_is_project, pick, resolve, resolves, KeyOrders,
};
use crate::schema::{ColumnSpec, ColumnSpecView};
use crate::table::{InputTable, TableView};
use crate::text::{clone_texts, find_text};

verus! {

/// The row key and the column key of every input row, in row order.
pub open spec fn addresses(t: TableView, s: ColumnSpecView) -> Seq<
    (Seq<Seq<char>>, Seq<Seq<char>>),
> {
    Seq::new(t.rows.len(), |r: int| (t.project(r, s.row_keys), t.project(r, s.col_keys)))
}

/// The first input row that carries row key `rk` and column key `ck`.
pub open spec fn first_row(
    t: TableView,
    s: ColumnSpecView,
    rk: Seq<Seq<char>>,
    ck: Seq<Seq<char>>,
) -> Option<int> {
    addresses(t, s).index_of_first((rk, ck))
}

/// The number of input rows that carry row key `rk` and column key `ck`.
pub open spec fn rows_at(
    t: TableView,
    s: ColumnSpecView,
    rk: Seq<Seq<char>>,
    ck: Seq<Seq<char>>,
) -> nat {
    addresses(t, s).to_multiset().count((rk, ck))
}

/// A filled cell in contracts: one value per value column, and the number of
/// rows that were written to it.
pub struct CellView {
    pub values: Seq<Seq<char>>,
    pub rows: nat,
}

/// The cell of `rk` and `ck`: empty if no input row has these keys, else the
/// values of the first such row and the number of such rows.
pub open spec fn cell_at(
    t: TableView,
    s: ColumnSpecView,
    rk: Seq<Seq<char>>,
    ck: Seq<Seq<char>>,
) -> Option<CellView> {
    match first_row(t, s, rk, ck) {
        Some(f) => Some(
            CellView { values: t.project(f, s.value_cols), rows: rows_at(t, s, rk, ck) },
        ),
        None => None,
    }
}

/// The cell of `rk` and `ck` when only the rows with the addresses `seen` have
/// been read.
spec fn cell_in(
    t: TableView,
    s: ColumnSpecView,
    seen: Seq<(Seq<Seq<char>>, Seq<Seq<char>>)>,
    rk: Seq<Seq<char>>,
    ck: Seq<Seq<char>>,
) -> Option<CellView> {
    match seen.index_of_first((rk, ck)) {
        Some(f) => Some(
            CellView {
                values: t.project(f, s.value_cols),
                rows: seen.to_multiset().count((rk, ck)),
            },
        ),
        None => None,
    }
}

/// What reading one more row does to a cell: a row with other keys leaves it
/// as it is, the first row with its keys fills it, a later one is counted.
proof fn lemma_cell_step(
    t: TableView,
    s: ColumnSpecView,
    r: int,
    rk: Seq<Seq<char>>,
    ck: Seq<Seq<char>>,
)
    requires
        0 <= r < t.rows.len(),
    ensures
        cell_in(t, s, addresses(t, s).take(r + 1), rk, ck) == (if addresses(t, s)[r] == (rk, ck) {
            match cell_in(t, s, addresses(t, s).take(r), rk, ck) {
                Some(c) => Some(CellView { values: c.values, rows: c.rows + 1 }),
                None => Some(CellView { values: t.project(r, s.value_cols), rows: 1 }),
            }
        } else {
            cell_in(t, s, addresses(t, s).take(r), rk, ck)
        }),
        match cell_in(t, s, addresses(t, s).take(r), rk, ck) {
            Some(c) => 1 <= c.rows <= r,
            None => true,
        },
{
    let all = addresses(t, s);
    let seen = all.take(r);
    let next = all.take(r + 1);
    let a = all[r];
    let x = (rk, ck);
    assert(next =~= seen.push(a));
    vstd::seq_lib::to_multiset_build(seen, a);
    vstd::seq_lib::to_multiset_contains(seen, x);
    vstd::seq_lib::to_multiset_len(seen);
    seen.index_of_first_ensures(x);
    next.index_of_first_ensures(x);
    if seen.index_of_first(x) is None && a == x {
        assert(next[r] == x);
    }
}

/// A filled cell: the values of the row that wrote it first, one per value
/// column, and the number of rows that were written to it.
#[derive(Clone, Debug, PartialEq, Eq)]
pub struct Cell {
    pub values: Vec<String>,
    pub rows: usize,
}

impl DeepView for Cell {
    type V = CellView;

    open spec fn deep_view(&self) -> CellView {
        CellView { values: self.values.deep_view(), rows: self.rows as nat }
    }
}

/// A cell that received more than one row.
#[derive(Clone, Debug, PartialEq, Eq)]
pub struct Collision {
    pub row_key: Vec<String>,
    pub col_key: Vec<String>,
    pub value_col: String,
    /// The number of rows whose value was dropped.
    pub extra: usize,
}

/// A collision in contracts.
pub struct CollisionView {
    pub row_key: Seq<Seq<char>>,
    pub col_key: Seq<Seq<char>>,
    pub value_col: Seq<char>,
    pub extra: nat,
}

impl DeepView for Collision {
    type V = CollisionView;

    open spec fn deep_view(&self) -> CollisionView {
        CollisionView {
            row_key: self.row_key.deep_view(),
            col_key: self.col_key.deep_view(),
            value_col: self.value_col@,
            extra: self.extra as nat,
        }
    }
}

/// What a cell store is in contracts: the row keys, the column keys, the value
/// column names, and for each row key and column key the cell or its absence.
pub struct CellStoreView {
    pub row_keys: Seq<Seq<Seq<char>>>,
    pub col_keys: Seq<Seq<Seq<char>>>,
    pub value_cols: Seq<Seq<char>>,
    pub cells: Seq<Seq<Option<CellView>>>,
}

impl CellStoreView {
    /// No key stands twice, there is one slot per row key and column key, and a
    /// filled cell holds one value per value column and at least one row.
    pub open spec fn wf(self) -> bool {
        &&& self.row_keys.no_duplicates()
        &&& self.col_keys.no_duplicates()
        &&& self.cells.len() == self.row_keys.len()
        &&& forall|i: int|
            0 <= i < self.cells.len() ==> (#[trigger] self.cells[i]).len() == self.col_keys.len()
        &&& forall|i: int, j: int|
            0 <= i < self.row_keys.len() && 0 <= j < self.col_keys.len() ==> match (
            #[trigger] self.cells[i][j]) {
                Some(c) => c.values.len() == self.value_cols.len() && c.rows >= 1,
                None => true,
            }
    }

    /// The value stored for row key `i`, column key `j` and value column `k`.
    pub open spec fn value(self, i: int, j: int, k: int) -> Option<Seq<char>> {
        match self.cells[i][j] {
            Some(c) => Some(c.values[k]),
            None => None,
        }
    }

    /// What is stored under the address of row key `rk`, column key `ck` and
    /// value column `v`: the value and the number of rows written, or nothing.
    pub open spec fn entry(self, rk: Seq<Seq<char>>, ck: Seq<Seq<char>>, v: Seq<char>) -> Option<
        (Seq<char>, nat),
    > {
        if self.row_keys.contains(rk) && self.col_keys.contains(ck) && self.value_cols.contains(v) {
            match self.cells[self.row_keys.index_of(rk)][self.col_keys.index_of(ck)] {
                Some(c) => Some((c.values[self.value_cols.index_of_first(v)->0], c.rows)),
                None => None,
            }
        } else {
            None
        }
    }

    /// The collisions of one cell: none if fewer than two rows were written to
    /// it, else one for each distinct value column name, in first-seen order.
    pub open spec fn cell_collisions(self, i: int, j: int) -> Seq<CollisionView> {
        match self.cells[i][j] {
            Some(c) => if c.rows >= 2 {
                first_seen(self.value_cols).map_values(
                    |v: Seq<char>|
                        CollisionView {
                            row_key: self.row_keys[i],
                            col_key: self.col_keys[j],
                            value_col: v,
                            extra: (c.rows - 1) as nat,
                        },
                )
            } else {
                Seq::empty()
            },
            None => Seq::empty(),
        }
    }

    /// The collisions of the cells of row key `i`, in column key order.
    pub open spec fn row_collisions(self, i: int) -> Seq<CollisionView> {
        Seq::new(self.col_keys.len(), |j: int| self.cell_collisions(i, j)).flatten()
    }

    /// All collisions, in the order of the cells in the output: by row key,
    /// then by column key, then by value column.
    pub open spec fn collisions(self) -> Seq<CollisionView> {
        Seq::new(self.row_keys.len(), |i: int| self.row_collisions(i)).flatten()
    }
}

/// The cell store of a table under a request.
pub open spec fn cell_store(t: TableView, s: ColumnSpecView) -> CellStoreView {
    let row_keys = key_order(t, s.row_keys);
    let col_keys = key_order(t, s.col_keys);
    CellStoreView {
        row_keys,
        col_keys,
        value_cols: s.value_cols,
        cells: Seq::new(
            row_keys.len(),
            |i: int| Seq::new(col_keys.len(), |j: int| cell_at(t, s, row_keys[i], col_keys[j])),
        ),
    }
}

/// The collisions of a table under a request.
pub open spec fn collisions_of(t: TableView, s: ColumnSpecView) -> Seq<CollisionView> {
    cell_store(t, s).collisions()
}

/// The cell store of a table is well formed.
pub proof fn lemma_cell_store_wf(t: TableView, s: ColumnSpecView)
    ensures
        cell_store(t, s).wf(),
{
    let st = cell_store(t, s);
    lemma_first_seen_distinct(t.projections(s.row_keys));
    lemma_first_seen_distinct(t.projections(s.col_keys));
    assert forall|i: int, j: int|
        0 <= i < st.row_keys.len() && 0 <= j < st.col_keys.len() implies match (
    #[trigger] st.cells[i][j]) {
        Some(c) => c.values.len() == st.value_cols.len() && c.rows >= 1,
        None => true,
    } by {
        let x = (st.row_keys[i], st.col_keys[j]);
        addresses(t, s).index_of_first_ensures(x);
        vstd::seq_lib::to_multiset_contains(addresses(t, s), x);
    }
}

/// The cells of a crosstab, by row key and column key.
#[derive(Clone, Debug, PartialEq, Eq)]
pub struct CellStore {
    row_keys: Vec<Vec<String>>,
    col_keys: Vec<Vec<String>>,
    value_cols: Vec<String>,
    grid: Vec<Vec<Option<Cell>>>,
}

impl View for CellStore {
    type V = CellStoreView;

    closed spec fn view(&self) -> CellStoreView {
        CellStoreView {
            row_keys: self.row_keys.deep_view(),
            col_keys: self.col_keys.deep_view(),
            value_cols: self.value_cols.deep_view(),
            cells: self.grid.deep_view(),
        }
    }
}

/// A grid of `nr` by `nc` empty slots.
fn empty_grid(nr: usize, nc: usize) -> (grid: Vec<Vec<Option<Cell>>>)
    ensures
        grid.len() == nr,
        forall|i: int| 0 <= i < nr ==> (#[trigger] grid[i]).len() == nc,
        forall|i: int, j: int|
            0 <= i < nr && 0 <= j < nc ==> (#[trigger] grid.deep_view()[i][j]) is None,
{
    let mut grid: Vec<Vec<Option<Cell>>> = Vec::new();
    let mut i: usize = 0;
    while i < nr
        invariant
            i <= nr,
            grid.len() == i,
            forall|a: int| 0 <= a < i ==> (#[trigger] grid[a]).len() == nc,
            forall|a: int, b: int|
                0 <= a < i && 0 <= b < nc ==> (#[trigger] grid.deep_view()[a][b]) is None,
        decreases nr - i,
    {
        let mut row: Vec<Option<Cell>> = Vec::new();
        let mut j: usize = 0;
        while j < nc
            invariant
                j <= nc,
                row.len() == j,
                forall|b: int| 0 <= b < j ==> (#[trigger] row[b]) is None,
            decreases nc - j,
        {
            row.push(None);
            j += 1;
        }
        let ghost prior = grid.deep_view();
        grid.push(row);
        proof {
            assert forall|a: int, b: int| 0 <= a < i + 1 && 0 <= b < nc implies (
            #[trigger] grid.deep_view()[a][b]) is None by {
                if a < i {
                    assert(grid.deep_view()[a] == prior[a]);
                }
            }
        }
        i += 1;
    }
    grid
}

/// Fills the empty slot at `i`, `j` with a cell of one row.
fn put(grid: &mut Vec<Vec<Option<Cell>>>, i: usize, j: usize, values: Vec<String>)
    requires
        i < old(grid).len(),
        j < old(grid)[i as int].len(),
    ensures
        final(grid).len() == old(grid).len(),
        forall|a: int| 0 <= a < old(grid).len() ==> (#[trigger] final(grid)[a]).len() == old(grid)[a].len(),
        final(grid).deep_view()[i as int][j as int] == Some(
            CellView { values: values.deep_view(), rows: 1 },
        ),
        forall|a: int, b: int|
            0 <= a < old(grid).len() && 0 <= b < old(grid)[a].len() && (a != i || b != j) ==> (
            #[trigger] final(grid).deep_view()[a][b]) == old(grid).deep_view()[a][b],
{
    grid[i][j] = Some(Cell { values, rows: 1 });
}

/// Counts one more row for the filled cell at `i`, `j`.
fn bump(grid: &mut Vec<Vec<Option<Cell>>>, i: usize, j: usize)
    requires
        i < old(grid).len(),
        j < old(grid)[i as int].len(),
        old(grid).deep_view()[i as int][j as int] is Some,
        old(grid).deep_view()[i as int][j as int]->0.rows < usize::MAX,
    ensures
        final(grid).len() == old(grid).len(),
        forall|a: int| 0 <= a < old(grid).len() ==> (#[trigger] final(grid)[a]).len() == old(grid)[a].len(),
        final(grid).deep_view()[i as int][j as int] == Some(
            CellView {
                values: old(grid).deep_view()[i as int][j as int]->0.values,
                rows: old(grid).deep_view()[i as int][j as int]->0.rows + 1,
            },
        ),
        forall|a: int, b: int|
            0 <= a < old(grid).len() && 0 <= b < old(grid)[a].len() && (a != i || b != j) ==> (
            #[trigger] final(grid).deep_view()[a][b]) == old(grid).deep_view()[a][b],
{
    match &mut grid[i][j] {
        Some(c) => {
            c.rows = c.rows + 1;
        },
        None => {},
    }
}

impl CellStore {
    /// The invariant of a cell store, stated over its view.
    pub open spec fn wf(&self) -> bool {
        self@.wf()
    }

    /// The row keys, in first-seen order.
    pub fn row_keys(&self) -> (keys: &Vec<Vec<String>>)
        ensures
            keys.deep_view() == self@.row_keys,
    {
        &self.row_keys
    }

    /// The column keys, in first-seen order.
    pub fn col_keys(&self) -> (keys: &Vec<Vec<String>>)
        ensures
            keys.deep_view() == self@.col_keys,
    {
        &self.col_keys
    }

    /// The value column names, as the request gave them.
    pub fn value_cols(&self) -> (names: &Vec<String>)
        ensures
            names.deep_view() == self@.value_cols,
    {
        &self.value_cols
    }

    /// The cell of row key `i` and column key `j`, if any row was filed there.
    pub fn cell(&self, i: usize, j: usize) -> (c: Option<&Cell>)
        requires
            self.wf(),
            i < self@.row_keys.len(),
            j < self@.col_keys.len(),
        ensures
            c.deep_view() == self@.cells[i as int][j as int],
    {
        proof {
            assert(self@.cells[i as int].len() == self@.col_keys.len());
        }
        match &self.grid[i][j] {
            Some(c) => Some(c),
            None => None,
        }
    }

    /// What is stored under an address: the value that was written first and the
    /// number of rows written to it; nothing if no row has these keys or the
    /// request has no such value column.
    pub fn lookup(&self, row_key: &Vec<String>, col_key: &Vec<String>, value_col: &String) -> (e:
        Option<(String, usize)>)
        requires
            self.wf(),
        ensures
            match e {
                Some((value, rows)) => self@.entry(row_key.deep_view(), col_key.deep_view(), value_col@)
                    == Some((value@, rows as nat)),
                None => self@.entry(row_key.deep_view(), col_key.deep_view(), value_col@) is None,
            },
    {
        let i = match find_key(&self.row_keys, row_key) {
            Some(i) => i,
            None => {
                return None;
            },
        };
        let j = match find_key(&self.col_keys, col_key) {
            Some(j) => j,
            None => {
                return None;
            },
        };
        let k = match find_text(&self.value_cols, value_col) {
            Some(k) => k,
            None => {
                return None;
            },
        };
        proof {
            self@.value_cols.index_of_first_ensures(value_col@);
        }
        match self.cell(i, j) {
            Some(c) => Some((c.values[k].clone(), c.rows)),
            None => None,
        }
    }

    /// The collisions of the cells up to, and without, column key `j` of row
    /// key `i`.
    spec fn collisions_before(self, i: int, j: int) -> Seq<CollisionView> {
        Seq::new(i as nat, |a: int| self@.row_collisions(a)).flatten() + Seq::new(
            j as nat,
            |b: int| self@.cell_collisions(i, b),
        ).flatten()
    }

    /// Appends the collisions of one cell to `out`.
    fn push_cell_collisions(&self, i: usize, j: usize, names: &Vec<String>, out: &mut Vec<Collision>)
        requires
            self.wf(),
            i < self@.row_keys.len(),
            j < self@.col_keys.len(),
            names.deep_view() == first_seen(self@.value_cols),
        ensures
            final(out).deep_view() == old(out).deep_view() + self@.cell_collisions(i as int, j as int),
    {
        let ghost base = out.deep_view();
        if let Some(c) = self.cell(i, j) {
            if c.rows >= 2 {
                let ghost tag = |v: Seq<char>|
                    CollisionView {
                        row_key: self@.row_keys[i as int],
                        col_key: self@.col_keys[j as int],
                        value_col: v,
                        extra: (self@.cells[i as int][j as int]->0.rows - 1) as nat,
                    };
                let extra = c.rows - 1;
                let mut k: usize = 0;
                while k < names.len()
                    invariant
                        k <= names.len(),
                        i < self.row_keys.len(),
                        j < self.col_keys.len(),
                        self@.row_keys == self.row_keys.deep_view(),
                        self@.col_keys == self.col_keys.deep_view(),
                        self@.cells[i as int][j as int] is Some,
                        extra == self@.cells[i as int][j as int]->0.rows - 1,
                        tag == (|v: Seq<char>|
                            CollisionView {
                                row_key: self@.row_keys[i as int],
                                col_key: self@.col_keys[j as int],
                                value_col: v,
                                extra: (self@.cells[i as int][j as int]->0.rows - 1) as nat,
                            }),
                        out.deep_view() == base + names.deep_view().take(k as int).map_values(
                            tag,
                        ),
                    decreases names.len() - k,
                {
                    let ghost prior = out.deep_view();
                    let row_key = clone_texts(&self.row_keys[i]);
                    let col_key = clone_texts(&self.col_keys[j]);
                    out.push(Collision { row_key, col_key, value_col: names[k].clone(), extra });
                    proof {
                        let name = names.deep_view()[k as int];
                        names.deep_view().lemma_take_succ_push(k as int);
                        names.deep_view().take(k as int).lemma_push_map_commute(tag, name);
                        assert(out.deep_view() =~= prior.push(tag(name)));
                        assert(out.deep_view() =~= base + names.deep_view().take(
                            k as int + 1,
                        ).map_values(tag));
                    }
                    k += 1;
                }
            }
        }
    }

    /// The cells that received more than one row, in the order of the cells in
    /// the output, each with the number of rows whose value was dropped. A value
    /// column that the request names more than once is reported once.
    pub fn collisions(&self) -> (out: Vec<Collision>)
        requires
            self.wf(),
        ensures
            out.deep_view() == self@.collisions(),
    {
        let names = distinct_texts(&self.value_cols);
        let mut out: Vec<Collision> = Vec::new();
        let nr = self.row_keys.len();
        let nc = self.col_keys.len();
        let mut i: usize = 0;
        proof {
            assert(Seq::new(0nat, |a: int| self@.row_collisions(a)) =~= Seq::<
                Seq<CollisionView>,
            >::empty());
        }
        while i < nr
            invariant
                i <= nr,
                self.wf(),
                nr == self@.row_keys.len(),
                nc == self@.col_keys.len(),
                names.deep_view() == first_seen(self@.value_cols),
                out.deep_view() == Seq::new(i as nat, |a: int| self@.row_collisions(a)).flatten(),
            decreases nr - i,
        {
            let mut j: usize = 0;
            proof {
                assert(Seq::new(0nat, |b: int| self@.cell_collisions(i as int, b)) =~= Seq::<
                    Seq<CollisionView>,
                >::empty());
            }
            while j < nc
                invariant
                    j <= nc,
                    i < nr,
                    self.wf(),
                    nr == self@.row_keys.len(),
                    nc == self@.col_keys.len(),
                    names.deep_view() == first_seen(self@.value_cols),
                    out.deep_view() == self.collisions_before(i as int, j as int),
                decreases nc - j,
            {
                self.push_cell_collisions(i, j, &names, &mut out);
                proof {
                    let upto = Seq::new(j as nat, |b: int| self@.cell_collisions(i as int, b));
                    let next = Seq::new((j + 1) as nat, |b: int| self@.cell_collisions(i as int, b));
                    assert(next =~= upto.push(self@.cell_collisions(i as int, j as int)));
                    upto.lemma_flatten_push(self@.cell_collisions(i as int, j as int));
                }
                j += 1;
            }
            proof {
                let upto = Seq::new(i as nat, |a: int| self@.row_collisions(a));
                let next = Seq::new((i + 1) as nat, |a: int| self@.row_collisions(a));
                assert(next =~= upto.push(self@.row_collisions(i as int)));
                upto.lemma_flatten_push(self@.row_collisions(i as int));
            }
            i += 1;
        }
        out
    }
}

/// What cell resolution gives: the filled store, and the cells that received
/// more than one row.
#[derive(Clone, Debug, PartialEq, Eq)]
pub struct Resolution {
    pub store: CellStore,
    /// A warning, not an error: each of these cells shows its first value.
    pub collisions: Vec<Collision>,
}

/// Reads the table row by row and files every row under its row key and its
/// column key. The first row filed under a pair of keys gives the cell its
/// values; each later one only adds to the cell's count and makes the cell a
/// collision.
pub fn resolve_cells(table: &InputTable, spec: &ColumnSpec, keys: KeyOrders) -> (res: Resolution)
    requires
        table.wf(),
        spec@.present_in(table@.header),
        keys.row_keys.deep_view() == key_order(table@, spec@.row_keys),
        keys.col_keys.deep_view() == key_order(table@, spec@.col_keys),
    ensures
        res.store@ == cell_store(table@, spec@),
        res.store.wf(),
        res.collisions.deep_view() == collisions_of(table@, spec@),
{
    let store = fill_store(table, spec, keys);
    let collisions = store.collisions();
    Resolution { store, collisions }
}

/// The cell store of the table, filled in one pass over its rows.
fn fill_store(table: &InputTable, spec: &ColumnSpec, keys: KeyOrders) -> (store: CellStore)
    requires
        table.wf(),
        spec@.present_in(table@.header),
        keys.row_keys.deep_view() == key_order(table@, spec@.row_keys),
        keys.col_keys.deep_view() == key_order(table@, spec@.col_keys),
    ensures
        store@ == cell_store(table@, spec@),
        store.wf(),
{
    let ridx = resolve(table, spec.row_keys());
    let cidx = resolve(table, spec.col_keys());
    let vidx = resolve(table, spec.value_cols());
    let nr = keys.row_keys.len();
    let nc = keys.col_keys.len();
    let mut grid = empty_grid(nr, nc);
    let n = table.num_rows();
    let ghost t = table@;
    let ghost s = spec@;
    let ghost all = addresses(t, s);
    let ghost rks = keys.row_keys.deep_view();
    let ghost cks = keys.col_keys.deep_view();
    proof {
        lemma_first_seen_distinct(t.projections(s.row_keys));
        lemma_first_seen_distinct(t.projections(s.col_keys));
        lemma_first_seen_members(t.projections(s.row_keys));
        lemma_first_seen_members(t.projections(s.col_keys));
        assert forall|a: int, b: int| 0 <= a < nr && 0 <= b < nc implies (
        #[trigger] grid.deep_view()[a][b]) == cell_in(t, s, all.take(0), rks[a], cks[b]) by {
            all.take(0).index_of_first_ensures((rks[a], cks[b]));
        }
    }
    let mut r: usize = 0;
    while r < n
        invariant
            r <= n,
            n == t.rows.len(),
            t == table@,
            s == spec@,
            all == addresses(t, s),
            rks == keys.row_keys.deep_view(),
            cks == keys.col_keys.deep_view(),
            rks == key_order(t, s.row_keys),
            cks == key_order(t, s.col_keys),
            rks.no_duplicates(),
            cks.no_duplicates(),
            forall|x: Seq<Seq<char>>| #[trigger]
                rks.contains(x) <==> t.projections(s.row_keys).contains(x),
            forall|x: Seq<Seq<char>>| #[trigger]
                cks.contains(x) <==> t.projections(s.col_keys).contains(x),
            table.wf(),
            resolves(t, s.row_keys, ridx@),
            resolves(t, s.col_keys, cidx@),
            resolves(t, s.value_cols, vidx@),
            nr == rks.len(),
            nc == cks.len(),
            grid.len() == nr,
            forall|a: int| 0 <= a < nr ==> (#[trigger] grid[a]).len() == nc,
            forall|a: int, b: int|
                0 <= a < nr && 0 <= b < nc ==> (#[trigger] grid.deep_view()[a][b]) == cell_in(
                    t,
                    s,
                    all.take(r as int),
                    rks[a],
                    cks[b],
                ),
        decreases n - r,
    {
        proof {
            lemma_picked_is_project(t, s.row_keys, ridx@, r as int);
            lemma_picked_is_project(t, s.col_keys, cidx@, r as int);
            lemma_picked_is_project(t, s.value_cols, vidx@, r as int);
            assert(t.projections(s.row_keys)[r as int] == t.project(r as int, s.row_keys));
            assert(t.projections(s.col_keys)[r as int] == t.project(r as int, s.col_keys));
        }
        let i = match key_position(&keys.row_keys, table, r, &ridx) {
            Some(i) => i,
            None => {
                assert(false);
                0
            },
        };
        let j = match key_position(&keys.col_keys, table, r, &cidx) {
            Some(j) => j,
            None => {
                assert(false);
                0
            },
        };
        proof {
            lemma_cell_step(t, s, r as int, rks[i as int], cks[j as int]);
            assert(grid.deep_view()[i as int][j as int] == grid[i as int][j as int].deep_view());
        }
        if grid[i][j].is_some() {
            bump(&mut grid, i, j);
        } else {
            let values = pick(table, r, &vidx);
            put(&mut grid, i, j, values);
        }
        proof {
            assert forall|a: int, b: int| 0 <= a < nr && 0 <= b < nc implies (
            #[trigger] grid.deep_view()[a][b]) == cell_in(
                t,
                s,
                all.take(r as int + 1),
                rks[a],
                cks[b],
            ) by {
                lemma_cell_step(t, s, r as int, rks[a], cks[b]);
            }
        }
        r += 1;
    }
    let value_cols = clone_texts(spec.value_cols());
    proof {
        assert(all.take(n as int) =~= all);
        assert(grid.deep_view() =~~= cell_store(t, s).cells);
        lemma_cell_store_wf(t, s);
    }
    CellStore { row_keys: keys.row_keys, col_keys: keys.col_keys, value_cols, grid }
}

} // verus!
