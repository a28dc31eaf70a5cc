//! The request for a crosstab, and its check against a table's header.

use vstd::prelude::*;
use crate::table::InputTable;
use crate::text::find_text;

verus! {

/// The role in which a request names a column.
#[derive(Clone, Copy, Debug, PartialEq, Eq, Structural)]
pub enum Role {
    /// Its values identify output rows.
    RowKey,
    /// Its values identify output column groups.
    ColKey,
    /// Its values fill the cells.
    Value,
}

/// What a request is in contracts: three lists of column names.
pub struct ColumnSpecView {
    pub row_keys: Seq<Seq<char>>,
    pub col_keys: Seq<Seq<char>>,
    pub value_cols: Seq<Seq<char>>,
}

impl ColumnSpecView {
    /// Every role names at least one column.
    pub open spec fn wf(self) -> bool {
        &&& self.row_keys.len() > 0
        &&& self.col_keys.len() > 0
        &&& self.value_cols.len() > 0
    }

    /// The names given in `role`.
    pub open spec fn names(self, role: Role) -> Seq<Seq<char>> {
        match role {
            Role::RowKey => self.row_keys,
            Role::ColKey => self.col_keys,
            Role::Value => self.value_cols,
        }
    }

    /// Every name of every role is a column of `header`.
    pub open spec fn present_in(self, header: Seq<Seq<char>>) -> bool {
        &&& forall|k: int| 0 <= k < self.row_keys.len() ==> header.contains(#[trigger] self.row_keys[k])
        &&& forall|k: int| 0 <= k < self.col_keys.len() ==> header.contains(#[trigger] self.col_keys[k])
        &&& forall|k: int|
            0 <= k < self.value_cols.len() ==> header.contains(#[trigger] self.value_cols[k])
    }
}

/// Which columns of a table are row keys, which are column keys and which hold
/// the values. A name may stand in several roles, and more than once in one:
/// each mention reads the column on its own.
#[derive(Clone, Debug, PartialEq, Eq)]
pub struct ColumnSpec {
    row_keys: Vec<String>,
    col_keys: Vec<String>,
    value_cols: Vec<String>,
}

impl View for ColumnSpec {
    type V = ColumnSpecView;

    closed spec fn view(&self) -> ColumnSpecView {
        ColumnSpecView {
            row_keys: self.row_keys.deep_view(),
            col_keys: self.col_keys.deep_view(),
            value_cols: self.value_cols.deep_view(),
        }
    }
}

impl ColumnSpec {
    /// The invariant of a request, stated over its view.
    pub open spec fn wf(&self) -> bool {
        self@.wf()
    }

    /// Builds a request. Fails with the first role, in the order row keys, column
    /// keys, values, that was given no name.
    pub fn new(row_keys: Vec<String>, col_keys: Vec<String>, value_cols: Vec<String>) -> (r: Result<
        ColumnSpec,
        Role,
    >)
        ensures
            r is Ok <==> row_keys.len() > 0 && col_keys.len() > 0 && value_cols.len() > 0,
            match r {
                Ok(s) => {
                    &&& s.wf()
                    &&& s@.row_keys == row_keys.deep_view()
                    &&& s@.col_keys == col_keys.deep_view()
                    &&& s@.value_cols == value_cols.deep_view()
                },
                Err(Role::RowKey) => row_keys.len() == 0,
                Err(Role::ColKey) => row_keys.len() > 0 && col_keys.len() == 0,
                Err(Role::Value) => row_keys.len() > 0 && col_keys.len() > 0 && value_cols.len()
                    == 0,
            },
    {
        if row_keys.len() == 0 {
            Err(Role::RowKey)
        } else if col_keys.len() == 0 {
            Err(Role::ColKey)
        } else if value_cols.len() == 0 {
            Err(Role::Value)
        } else {
            Ok(ColumnSpec { row_keys, col_keys, value_cols })
        }
    }

    /// The row-key column names.
    pub fn row_keys(&self) -> (names: &Vec<String>)
        ensures
            names.deep_view() == self@.row_keys,
    {
        &self.row_keys
    }

    /// The column-key column names.
    pub fn col_keys(&self) -> (names: &Vec<String>)
        ensures
            names.deep_view() == self@.col_keys,
    {
        &self.col_keys
    }

    /// The value column names.
    pub fn value_cols(&self) -> (names: &Vec<String>)
        ensures
            names.deep_view() == self@.value_cols,
    {
        &self.value_cols
    }
}

/// A name that a request uses and the table's header lacks.
#[derive(Clone, Debug, PartialEq, Eq)]
pub struct MissingColumn {
    pub role: Role,
    pub name: String,
}

/// A missing column in contracts.
pub struct MissingColumnView {
    pub role: Role,
    pub name: Seq<char>,
}

impl DeepView for MissingColumn {
    type V = MissingColumnView;

    open spec fn deep_view(&self) -> MissingColumnView {
        MissingColumnView { role: self.role, name: self.name@ }
    }
}

/// The names of `names` that `header` lacks, in the order of `names`, each
/// tagged with `role`.
pub open spec fn missing_in(header: Seq<Seq<char>>, role: Role, names: Seq<Seq<char>>) -> Seq<
    MissingColumnView,
> {
    names.filter(|n: Seq<char>| !header.contains(n)).map_values(
        |n: Seq<char>| MissingColumnView { role, name: n },
    )
}

/// Every name that the request uses and `header` lacks: those of the row keys,
/// then those of the column keys, then those of the values.
pub open spec fn missing_columns(header: Seq<Seq<char>>, spec: ColumnSpecView) -> Seq<
    MissingColumnView,
> {
    missing_in(header, Role::RowKey, spec.row_keys) + missing_in(header, Role::ColKey, spec.col_keys)
        + missing_in(header, Role::Value, spec.value_cols)
}

/// A request with nothing missing has all its names in the header, and the
/// other way round.
pub proof fn lemma_nothing_missing(header: Seq<Seq<char>>, spec: ColumnSpecView)
    ensures
        missing_columns(header, spec).len() == 0 <==> spec.present_in(header),
{
    lemma_missing_in_empty(header, Role::RowKey, spec.row_keys);
    lemma_missing_in_empty(header, Role::ColKey, spec.col_keys);
    lemma_missing_in_empty(header, Role::Value, spec.value_cols);
}

proof fn lemma_missing_in_empty(header: Seq<Seq<char>>, role: Role, names: Seq<Seq<char>>)
    ensures
        missing_in(header, role, names).len() == 0 <==> (forall|k: int|
            0 <= k < names.len() ==> header.contains(#[trigger] names[k])),
    decreases names.len(),
{
    reveal(Seq::filter);
    if names.len() > 0 {
        lemma_missing_in_empty(header, role, names.drop_last());
        if missing_in(header, role, names).len() == 0 {
            assert forall|k: int| 0 <= k < names.len() implies header.contains(
                #[trigger] names[k],
            ) by {
                if k < names.len() - 1 {
                    assert(names.drop_last()[k] == names[k]);
                }
            }
        }
    }
}

/// Appends to `out` the names of `names` that the table lacks.
fn collect_missing(table: &InputTable, role: Role, names: &Vec<String>, out: &mut Vec<MissingColumn>)
    ensures
        final(out).deep_view() == old(out).deep_view() + missing_in(
            table@.header,
            role,
            names.deep_view(),
        ),
{
    let ghost absent = |n: Seq<char>| !table@.header.contains(n);
    let ghost tag = |n: Seq<char>| MissingColumnView { role, name: n };
    let mut k: usize = 0;
    proof {
        reveal(Seq::filter);
        assert(out.deep_view() =~= old(out).deep_view() + missing_in(
            table@.header,
            role,
            names.deep_view().take(0),
        ));
    }
    while k < names.len()
        invariant
            k <= names.len(),
            absent == (|n: Seq<char>| !table@.header.contains(n)),
            tag == (|n: Seq<char>| MissingColumnView { role, name: n }),
            out.deep_view() == old(out).deep_view() + missing_in(
                table@.header,
                role,
                names.deep_view().take(k as int),
            ),
        decreases names.len() - k,
    {
        let found = find_text(table.header(), &names[k]);
        proof {
            let before = names.deep_view().take(k as int);
            let name = names.deep_view()[k as int];
            names.deep_view().lemma_take_succ_push(k as int);
            before.lemma_filter_push(name, absent);
            before.filter(absent).lemma_push_map_commute(tag, name);
        }
        if found.is_none() {
            let ghost prior = out.deep_view();
            out.push(MissingColumn { role, name: names[k].clone() });
            proof {
                assert(out.deep_view() =~= prior.push(
                    MissingColumnView { role, name: names.deep_view()[k as int] },
                ));
                assert(out.deep_view() =~= old(out).deep_view() + missing_in(
                    table@.header,
                    role,
                    names.deep_view().take(k as int + 1),
                ));
            }
        }
        k += 1;
    }
    proof {
        assert(names.deep_view().take(names.len() as int) =~= names.deep_view());
    }
}

/// Checks that the table has every column that the request names.
///
/// On failure the result lists every missing name, not only the first: those of
/// the row keys, then of the column keys, then of the values, each list in the
/// order of the request.
pub fn validate(table: &InputTable, spec: &ColumnSpec) -> (r: Result<(), Vec<MissingColumn>>)
    ensures
        match r {
            Ok(()) => spec@.present_in(table@.header),
            Err(missing) => missing.len() > 0 && missing.deep_view() == missing_columns(
                table@.header,
                spec@,
            ),
        },
        r is Ok <==> spec@.present_in(table@.header),
{
    let mut missing: Vec<MissingColumn> = Vec::new();
    collect_missing(table, Role::RowKey, spec.row_keys(), &mut missing);
    collect_missing(table, Role::ColKey, spec.col_keys(), &mut missing);
    collect_missing(table, Role::Value, spec.value_cols(), &mut missing);
    proof {
        lemma_nothing_missing(table@.header, spec@);
    }
    if missing.len() == 0 {
        Ok(())
    } else {
        Err(missing)
    }
}

} // verus!
