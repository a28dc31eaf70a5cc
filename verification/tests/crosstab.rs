use xtab::cells::Collision;
use xtab::header::HeaderFormat;
use xtab::output::{OutputRow, OutputTable};
use xtab::pivot::{crosstab, Crosstab};
use xtab::schema::{ColumnSpec, MissingColumn, Role};
use xtab::table::InputTable;

fn texts(items: &[&str]) -> Vec<String> {
    items.iter().map(|s| s.to_string()).collect()
}

fn table(header: &[&str], rows: &[&[&str]]) -> InputTable {
    InputTable::new(texts(header), rows.iter().map(|r| texts(r)).collect()).unwrap()
}

fn request(rows: &[&str], cols: &[&str], values: &[&str]) -> ColumnSpec {
    ColumnSpec::new(texts(rows), texts(cols), texts(values)).unwrap()
}

fn cells(items: &[Option<&str>]) -> Vec<Option<String>> {
    items.iter().map(|c| c.map(|s| s.to_string())).collect()
}

fn sales() -> InputTable {
    table(
        &["region", "month", "sales"],
        &[&["E", "Jan", "10"], &["E", "Feb", "20"], &["W", "Jan", "5"]],
    )
}

fn run(t: &InputTable, s: &ColumnSpec, f: HeaderFormat) -> Crosstab {
    crosstab(t, s, f).unwrap()
}

#[test]
fn end_to_end_flat() {
    let out = run(&sales(), &request(&["region"], &["month"], &["sales"]), HeaderFormat::Flat);
    let expected = OutputTable {
        key_names: texts(&["region"]),
        header: vec![texts(&["Jan_sales", "Feb_sales"])],
        rows: vec![
            OutputRow { key: texts(&["E"]), cells: cells(&[Some("10"), Some("20")]) },
            OutputRow { key: texts(&["W"]), cells: cells(&[Some("5"), None]) },
        ],
    };
    assert_eq!(out.table, expected);
    assert!(out.collisions.is_empty());
}

#[test]
fn end_to_end_records() {
    let out = run(&sales(), &request(&["region"], &["month"], &["sales"]), HeaderFormat::Flat);
    assert_eq!(
        out.table.records(),
        vec![
            texts(&["region", "Jan_sales", "Feb_sales"]),
            texts(&["E", "10", "20"]),
            texts(&["W", "5", ""]),
        ]
    );
}

#[test]
fn collision_keeps_first_value() {
    let t = table(
        &["region", "month", "sales"],
        &[&["E", "Jan", "10"], &["E", "Feb", "20"], &["W", "Jan", "5"], &["E", "Jan", "99"]],
    );
    let out = run(&t, &request(&["region"], &["month"], &["sales"]), HeaderFormat::Flat);
    assert_eq!(out.table.rows[0].key, texts(&["E"]));
    assert_eq!(out.table.rows[0].cells, cells(&[Some("10"), Some("20")]));
    assert_eq!(out.table.rows[1].cells, cells(&[Some("5"), None]));
    assert_eq!(
        out.collisions,
        vec![Collision {
            row_key: texts(&["E"]),
            col_key: texts(&["Jan"]),
            value_col: "sales".to_string(),
            extra: 1,
        }]
    );
}

#[test]
fn collision_counts_every_extra_row() {
    let t = table(
        &["k", "c", "v"],
        &[&["a", "x", "1"], &["a", "x", "2"], &["b", "x", "3"], &["a", "x", "4"], &["b", "x", "5"]],
    );
    let out = run(&t, &request(&["k"], &["c"], &["v"]), HeaderFormat::Flat);
    assert_eq!(out.table.rows[0].cells, cells(&[Some("1")]));
    assert_eq!(out.table.rows[1].cells, cells(&[Some("3")]));
    assert_eq!(out.collisions.len(), 2);
    assert_eq!(out.collisions[0].row_key, texts(&["a"]));
    assert_eq!(out.collisions[0].extra, 2);
    assert_eq!(out.collisions[1].row_key, texts(&["b"]));
    assert_eq!(out.collisions[1].extra, 1);
}

#[test]
fn collision_entry_per_value_column() {
    let t = table(
        &["k", "c", "v", "w"],
        &[&["a", "x", "1", "p"], &["a", "x", "2", "q"]],
    );
    let out = run(&t, &request(&["k"], &["c"], &["v", "w"]), HeaderFormat::Flat);
    assert_eq!(out.table.rows[0].cells, cells(&[Some("1"), Some("p")]));
    let names: Vec<&str> = out.collisions.iter().map(|c| c.value_col.as_str()).collect();
    assert_eq!(names, vec!["v", "w"]);
    assert!(out.collisions.iter().all(|c| c.extra == 1));
}

#[test]
fn repeated_value_column_is_reported_once() {
    let t = table(&["k", "c", "v"], &[&["a", "x", "1"], &["a", "x", "2"]]);
    let out = run(&t, &request(&["k"], &["c"], &["v", "v"]), HeaderFormat::Flat);
    assert_eq!(out.table.header, vec![texts(&["x_v", "x_v"])]);
    assert_eq!(out.table.rows[0].cells, cells(&[Some("1"), Some("1")]));
    assert_eq!(out.collisions.len(), 1);
    assert_eq!(out.collisions[0].value_col, "v");
    assert_eq!(out.collisions[0].extra, 1);
}

#[test]
fn row_count_is_number_of_distinct_row_keys() {
    let t = table(
        &["a", "b", "c", "v"],
        &[
            &["1", "x", "p", "10"],
            &["2", "x", "p", "11"],
            &["1", "y", "q", "12"],
            &["1", "x", "q", "13"],
            &["2", "x", "q", "14"],
        ],
    );
    let out = run(&t, &request(&["a", "b"], &["c"], &["v"]), HeaderFormat::Flat);
    let keys: Vec<Vec<String>> = out.table.rows.iter().map(|r| r.key.clone()).collect();
    assert_eq!(keys, vec![texts(&["1", "x"]), texts(&["2", "x"]), texts(&["1", "y"])]);
}

#[test]
fn column_count_is_column_keys_times_value_columns() {
    let t = table(
        &["k", "c", "v", "w"],
        &[&["a", "x", "1", "2"], &["a", "y", "3", "4"], &["b", "z", "5", "6"], &["b", "x", "7", "8"]],
    );
    let out = run(&t, &request(&["k"], &["c"], &["v", "w"]), HeaderFormat::Flat);
    assert_eq!(out.table.header.len(), 1);
    assert_eq!(
        out.table.header[0],
        texts(&["x_v", "x_w", "y_v", "y_w", "z_v", "z_w"])
    );
    for row in &out.table.rows {
        assert_eq!(row.cells.len(), 3 * 2);
    }
    assert_eq!(
        out.table.rows[0].cells,
        cells(&[Some("1"), Some("2"), Some("3"), Some("4"), None, None])
    );
    assert_eq!(
        out.table.rows[1].cells,
        cells(&[Some("7"), Some("8"), None, None, Some("5"), Some("6")])
    );
}

#[test]
fn column_order_is_first_seen_not_sorted() {
    let t = table(&["k", "c", "v"], &[&["a", "zeta", "1"], &["a", "alpha", "2"], &["a", "mid", "3"]]);
    let out = run(&t, &request(&["k"], &["c"], &["v"]), HeaderFormat::Flat);
    assert_eq!(out.table.header[0], texts(&["zeta_v", "alpha_v", "mid_v"]));
}

#[test]
fn same_input_gives_identical_output() {
    let t = table(
        &["region", "month", "sales"],
        &[&["E", "Jan", "10"], &["E", "Feb", "20"], &["W", "Jan", "5"], &["E", "Jan", "99"]],
    );
    let s = request(&["region"], &["month"], &["sales"]);
    for f in [HeaderFormat::Flat, HeaderFormat::TwoRow, HeaderFormat::PerKey, HeaderFormat::PerKeyLabelled] {
        let first = run(&t, &s, f);
        let second = run(&t, &s, f);
        assert_eq!(first, second);
        assert_eq!(first.table.records(), second.table.records());
    }
}

#[test]
fn missing_combination_is_empty_cell() {
    let out = run(&sales(), &request(&["region"], &["month"], &["sales"]), HeaderFormat::Flat);
    assert_eq!(out.table.rows[1].key, texts(&["W"]));
    assert_eq!(out.table.rows[1].cells[1], None);
}

#[test]
fn empty_input_value_is_not_a_missing_cell() {
    let t = table(&["k", "c", "v"], &[&["a", "x", ""], &["b", "y", "1"]]);
    let out = run(&t, &request(&["k"], &["c"], &["v"]), HeaderFormat::Flat);
    assert_eq!(out.table.rows[0].cells, cells(&[Some(""), None]));
    assert_eq!(out.table.rows[1].cells, cells(&[None, Some("1")]));
}

#[test]
fn table_without_rows() {
    let t = table(&["k", "c", "v"], &[]);
    let out = run(&t, &request(&["k"], &["c"], &["v"]), HeaderFormat::Flat);
    assert_eq!(out.table.key_names, texts(&["k"]));
    assert_eq!(out.table.header, vec![Vec::<String>::new()]);
    assert!(out.table.rows.is_empty());
    assert!(out.collisions.is_empty());
    assert_eq!(out.table.records(), vec![texts(&["k"])]);
}

#[test]
fn missing_columns_are_all_reported() {
    let r = crosstab(
        &sales(),
        &request(&["region", "nope"], &["when", "month"], &["sales", "amount"]),
        HeaderFormat::Flat,
    );
    assert_eq!(
        r,
        Err(vec![
            MissingColumn { role: Role::RowKey, name: "nope".to_string() },
            MissingColumn { role: Role::ColKey, name: "when".to_string() },
            MissingColumn { role: Role::Value, name: "amount".to_string() },
        ])
    );
}

#[test]
fn column_in_two_roles() {
    let t = table(&["k", "c", "v"], &[&["a", "x", "1"], &["b", "y", "2"]]);
    let out = run(&t, &request(&["k"], &["c"], &["c", "v"]), HeaderFormat::Flat);
    assert_eq!(out.table.header[0], texts(&["x_c", "x_v", "y_c", "y_v"]));
    assert_eq!(out.table.rows[0].cells, cells(&[Some("x"), Some("1"), None, None]));
    assert_eq!(out.table.rows[1].cells, cells(&[None, None, Some("y"), Some("2")]));
}

#[test]
fn two_row_header() {
    let t = table(
        &["k", "year", "month", "v", "w"],
        &[&["a", "2020", "Jan", "1", "2"], &["a", "2021", "Feb", "3", "4"]],
    );
    let out = run(&t, &request(&["k"], &["year", "month"], &["v", "w"]), HeaderFormat::TwoRow);
    assert_eq!(
        out.table.header,
        vec![
            texts(&["2020_Jan", "2020_Jan", "2021_Feb", "2021_Feb"]),
            texts(&["v", "w", "v", "w"]),
        ]
    );
    assert_eq!(
        out.table.records(),
        vec![
            texts(&["", "2020_Jan", "2020_Jan", "2021_Feb", "2021_Feb"]),
            texts(&["k", "v", "w", "v", "w"]),
            texts(&["a", "1", "2", "3", "4"]),
        ]
    );
}

#[test]
fn per_key_header() {
    let t = table(
        &["k", "year", "month", "v", "w"],
        &[&["a", "2020", "Jan", "1", "2"], &["a", "2021", "Feb", "3", "4"]],
    );
    let out = run(&t, &request(&["k"], &["year", "month"], &["v", "w"]), HeaderFormat::PerKey);
    assert_eq!(
        out.table.header,
        vec![
            texts(&["2020", "2020", "2021", "2021"]),
            texts(&["Jan", "Jan", "Feb", "Feb"]),
            texts(&["v", "w", "v", "w"]),
        ]
    );
}

#[test]
fn per_key_labelled_header() {
    let t = table(
        &["k", "year", "month", "v", "w"],
        &[&["a", "2020", "Jan", "1", "2"], &["a", "2021", "Feb", "3", "4"]],
    );
    let out =
        run(&t, &request(&["k"], &["year", "month"], &["v", "w"]), HeaderFormat::PerKeyLabelled);
    assert_eq!(
        out.table.header,
        vec![
            texts(&["year=2020", "year=2020", "year=2021", "year=2021"]),
            texts(&["month=Jan", "month=Jan", "month=Feb", "month=Feb"]),
            texts(&["v", "w", "v", "w"]),
        ]
    );
    assert_eq!(
        out.table.records(),
        vec![
            texts(&["", "year=2020", "year=2020", "year=2021", "year=2021"]),
            texts(&["", "month=Jan", "month=Jan", "month=Feb", "month=Feb"]),
            texts(&["k", "v", "w", "v", "w"]),
            texts(&["a", "1", "2", "3", "4"]),
        ]
    );
}

#[test]
fn flat_header_with_two_key_columns() {
    let t = table(
        &["k", "year", "month", "v"],
        &[&["a", "2020", "Jan", "1"], &["b", "2020", "Feb", "2"]],
    );
    let out = run(&t, &request(&["k"], &["year", "month"], &["v"]), HeaderFormat::Flat);
    assert_eq!(out.table.header, vec![texts(&["2020_Jan_v", "2020_Feb_v"])]);
}
