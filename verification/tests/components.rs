use xtab::args::{is_csv_name, split_list};
use xtab::cells::resolve_cells;
use xtab::header::{build_header, build_slots, header_text, HeaderFormat, Slot};
use xtab::keys::{distinct_texts, extract_keys, find_key};
use xtab::output::assemble;
use xtab::schema::{validate, ColumnSpec, MissingColumn, Role};
use xtab::table::{InputTable, TableError};
use xtab::text::{clone_texts, find_text, join_texts, same_texts};

fn texts(items: &[&str]) -> Vec<String> {
    items.iter().map(|s| s.to_string()).collect()
}

fn table(header: &[&str], rows: &[&[&str]]) -> InputTable {
    InputTable::new(texts(header), rows.iter().map(|r| texts(r)).collect()).unwrap()
}

fn request(rows: &[&str], cols: &[&str], values: &[&str]) -> ColumnSpec {
    ColumnSpec::new(texts(rows), texts(cols), texts(values)).unwrap()
}

#[test]
fn test_parse_args() {
    assert!(is_csv_name("outfile.csv"));
    assert!(is_csv_name("infile.csv"));
    assert_eq!(split_list("1,2,3"), texts(&["1", "2", "3"]));
    assert_eq!(HeaderFormat::from_code(1), Some(HeaderFormat::Flat));
    let spec = ColumnSpec::new(split_list("1,2,3"), split_list("1,2,3"), split_list("1,2,3")).unwrap();
    assert_eq!(spec.row_keys(), &texts(&["1", "2", "3"]));
    assert_eq!(spec.col_keys(), &texts(&["1", "2", "3"]));
    assert_eq!(spec.value_cols(), &texts(&["1", "2", "3"]));
}

#[test]
fn invalid_format_code() {
    assert_eq!(HeaderFormat::from_code(5), None);
    assert_eq!(HeaderFormat::from_code(0), None);
    assert_eq!(HeaderFormat::from_code(255), None);
}

#[test]
fn format_codes() {
    assert_eq!(HeaderFormat::from_code(1), Some(HeaderFormat::Flat));
    assert_eq!(HeaderFormat::from_code(2), Some(HeaderFormat::TwoRow));
    assert_eq!(HeaderFormat::from_code(3), Some(HeaderFormat::PerKey));
    assert_eq!(HeaderFormat::from_code(4), Some(HeaderFormat::PerKeyLabelled));
    for code in 1..=4u8 {
        assert_eq!(HeaderFormat::from_code(code).unwrap().code(), code);
    }
}

#[test]
fn split_list_cases() {
    assert_eq!(split_list("region"), texts(&["region"]));
    assert_eq!(split_list(""), texts(&[""]));
    assert_eq!(split_list("a,"), texts(&["a", ""]));
    assert_eq!(split_list(",a"), texts(&["", "a"]));
    assert_eq!(split_list("a,,b"), texts(&["a", "", "b"]));
    assert_eq!(split_list("a, b"), texts(&["a", " b"]));
    assert_eq!(split_list("größe,naïve"), texts(&["größe", "naïve"]));
}

#[test]
fn split_then_join_gives_the_text_back() {
    for arg in ["", "a", "a,b", ",", "a,,b,", "x y,z"] {
        assert_eq!(join_texts(&split_list(arg), ","), arg);
    }
}

#[test]
fn csv_names() {
    assert!(is_csv_name("out.csv"));
    assert!(is_csv_name(".csv"));
    assert!(is_csv_name("dir/ünï.csv"));
    assert!(!is_csv_name("out.CSV"));
    assert!(!is_csv_name("out.csv.txt"));
    assert!(!is_csv_name("csv"));
    assert!(!is_csv_name(""));
    assert!(!is_csv_name("outcsv"));
}

#[test]
fn join_texts_cases() {
    assert_eq!(join_texts(&texts(&[]), "_"), "");
    assert_eq!(join_texts(&texts(&["a"]), "_"), "a");
    assert_eq!(join_texts(&texts(&["a", "b", "c"]), "_"), "a_b_c");
    assert_eq!(join_texts(&texts(&["", ""]), "_"), "_");
    assert_eq!(join_texts(&texts(&["a", "b"]), ""), "ab");
}

#[test]
fn text_list_helpers() {
    let list = texts(&["a", "b", "a", "c"]);
    assert_eq!(find_text(&list, &"a".to_string()), Some(0));
    assert_eq!(find_text(&list, &"c".to_string()), Some(3));
    assert_eq!(find_text(&list, &"z".to_string()), None);
    assert!(same_texts(&list, &texts(&["a", "b", "a", "c"])));
    assert!(!same_texts(&list, &texts(&["a", "b", "a"])));
    assert!(!same_texts(&list, &texts(&["a", "b", "a", "d"])));
    assert_eq!(clone_texts(&list), list);
    assert_eq!(distinct_texts(&list), texts(&["a", "b", "c"]));
    assert_eq!(distinct_texts(&texts(&[])), texts(&[]));
}

#[test]
fn table_with_duplicate_column() {
    let r = InputTable::new(texts(&["a", "b", "a", "b"]), vec![]);
    assert_eq!(r, Err(TableError::DuplicateColumn { column: 2 }));
}

#[test]
fn table_with_ragged_row() {
    let r = InputTable::new(
        texts(&["a", "b"]),
        vec![texts(&["1", "2"]), texts(&["1"]), texts(&["1", "2", "3"])],
    );
    assert_eq!(r, Err(TableError::RaggedRow { row: 1 }));
}

#[test]
fn duplicate_column_is_reported_before_ragged_row() {
    let r = InputTable::new(texts(&["a", "a"]), vec![texts(&["1"])]);
    assert_eq!(r, Err(TableError::DuplicateColumn { column: 1 }));
}

#[test]
fn table_accessors() {
    let t = table(&["a", "b"], &[&["1", "2"], &["3", "4"]]);
    assert_eq!(t.num_rows(), 2);
    assert_eq!(t.num_columns(), 2);
    assert_eq!(t.header(), &texts(&["a", "b"]));
    assert_eq!(t.rows(), &vec![texts(&["1", "2"]), texts(&["3", "4"])]);
    assert_eq!(t.column_index(&"b".to_string()), Some(1));
    assert_eq!(t.column_index(&"c".to_string()), None);
    assert_eq!(t.value(1, 0), "3");
}

#[test]
fn empty_table() {
    let t = InputTable::new(vec![], vec![]).unwrap();
    assert_eq!(t.num_rows(), 0);
    assert_eq!(t.num_columns(), 0);
}

#[test]
fn request_with_empty_role() {
    assert_eq!(ColumnSpec::new(vec![], texts(&["c"]), texts(&["v"])), Err(Role::RowKey));
    assert_eq!(ColumnSpec::new(texts(&["k"]), vec![], texts(&["v"])), Err(Role::ColKey));
    assert_eq!(ColumnSpec::new(texts(&["k"]), texts(&["c"]), vec![]), Err(Role::Value));
    assert_eq!(ColumnSpec::new(vec![], vec![], vec![]), Err(Role::RowKey));
}

#[test]
fn validate_accepts_present_columns() {
    let t = table(&["k", "c", "v"], &[]);
    assert_eq!(validate(&t, &request(&["k"], &["c"], &["v"])), Ok(()));
    assert_eq!(validate(&t, &request(&["k", "k"], &["k"], &["k"])), Ok(()));
}

#[test]
fn validate_lists_missing_columns_in_request_order() {
    let t = table(&["k", "c", "v"], &[]);
    let r = validate(&t, &request(&["x", "k", "y"], &["c"], &["z", "x"]));
    assert_eq!(
        r,
        Err(vec![
            MissingColumn { role: Role::RowKey, name: "x".to_string() },
            MissingColumn { role: Role::RowKey, name: "y".to_string() },
            MissingColumn { role: Role::Value, name: "z".to_string() },
            MissingColumn { role: Role::Value, name: "x".to_string() },
        ])
    );
}

#[test]
fn keys_in_first_seen_order() {
    let t = table(
        &["k", "c", "v"],
        &[&["b", "y", "1"], &["a", "y", "2"], &["b", "x", "3"], &["c", "y", "4"], &["a", "x", "5"]],
    );
    let keys = extract_keys(&t, &request(&["k"], &["c"], &["v"]));
    assert_eq!(keys.row_keys, vec![texts(&["b"]), texts(&["a"]), texts(&["c"])]);
    assert_eq!(keys.col_keys, vec![texts(&["y"]), texts(&["x"])]);
    assert_eq!(find_key(&keys.row_keys, &texts(&["a"])), Some(1));
    assert_eq!(find_key(&keys.row_keys, &texts(&["z"])), None);
}

#[test]
fn keys_are_compared_component_by_component() {
    let t = table(
        &["a", "b", "c", "v"],
        &[&["x", "yz", "p", "1"], &["xy", "z", "p", "2"], &["x", "yz", "p", "3"]],
    );
    let keys = extract_keys(&t, &request(&["a", "b"], &["c"], &["v"]));
    assert_eq!(keys.row_keys, vec![texts(&["x", "yz"]), texts(&["xy", "z"])]);
}

#[test]
fn store_lookup_by_address() {
    let t = table(
        &["region", "month", "sales"],
        &[&["E", "Jan", "10"], &["E", "Feb", "20"], &["W", "Jan", "5"], &["E", "Jan", "99"]],
    );
    let s = request(&["region"], &["month"], &["sales"]);
    let resolution = resolve_cells(&t, &s, extract_keys(&t, &s));
    assert_eq!(resolution.collisions, resolution.store.collisions());
    let store = resolution.store;
    let sales = "sales".to_string();
    assert_eq!(store.lookup(&texts(&["E"]), &texts(&["Jan"]), &sales), Some(("10".to_string(), 2)));
    assert_eq!(store.lookup(&texts(&["E"]), &texts(&["Feb"]), &sales), Some(("20".to_string(), 1)));
    assert_eq!(store.lookup(&texts(&["W"]), &texts(&["Feb"]), &sales), None);
    assert_eq!(store.lookup(&texts(&["N"]), &texts(&["Jan"]), &sales), None);
    assert_eq!(store.lookup(&texts(&["E"]), &texts(&["Jan"]), &"month".to_string()), None);
    assert_eq!(store.row_keys(), &vec![texts(&["E"]), texts(&["W"])]);
    assert_eq!(store.col_keys(), &vec![texts(&["Jan"]), texts(&["Feb"])]);
    assert_eq!(store.value_cols(), &texts(&["sales"]));
    assert_eq!(store.cell(0, 0).unwrap().rows, 2);
    assert_eq!(store.cell(0, 0).unwrap().values, texts(&["10"]));
    assert!(store.cell(1, 1).is_none());
    assert_eq!(store.collisions().len(), 1);
}

#[test]
fn slots_stand_column_key_by_column_key() {
    assert_eq!(
        build_slots(2, 3),
        vec![
            Slot { col_key: 0, value_col: 0 },
            Slot { col_key: 0, value_col: 1 },
            Slot { col_key: 0, value_col: 2 },
            Slot { col_key: 1, value_col: 0 },
            Slot { col_key: 1, value_col: 1 },
            Slot { col_key: 1, value_col: 2 },
        ]
    );
    assert_eq!(build_slots(0, 3), vec![]);
    assert_eq!(build_slots(3, 0), vec![]);
}

#[test]
fn header_text_by_format() {
    let names = texts(&["year", "month"]);
    let key = texts(&["2020", "Jan"]);
    let v = "sales".to_string();
    assert_eq!(header_text(HeaderFormat::Flat, &names, &key, &v, 0), "2020_Jan_sales");
    assert_eq!(header_text(HeaderFormat::TwoRow, &names, &key, &v, 0), "2020_Jan");
    assert_eq!(header_text(HeaderFormat::TwoRow, &names, &key, &v, 1), "sales");
    assert_eq!(header_text(HeaderFormat::PerKey, &names, &key, &v, 0), "2020");
    assert_eq!(header_text(HeaderFormat::PerKey, &names, &key, &v, 1), "Jan");
    assert_eq!(header_text(HeaderFormat::PerKey, &names, &key, &v, 2), "sales");
    assert_eq!(header_text(HeaderFormat::PerKeyLabelled, &names, &key, &v, 0), "year=2020");
    assert_eq!(header_text(HeaderFormat::PerKeyLabelled, &names, &key, &v, 1), "month=Jan");
    assert_eq!(header_text(HeaderFormat::PerKeyLabelled, &names, &key, &v, 2), "sales");
}

#[test]
fn header_layout_and_assembly() {
    let t = table(&["k", "c", "v"], &[&["a", "x", "1"], &["b", "y", "2"]]);
    let s = request(&["k"], &["c"], &["v"]);
    let keys = extract_keys(&t, &s);
    let layout = build_header(HeaderFormat::Flat, s.col_keys(), &keys.col_keys, s.value_cols());
    assert_eq!(layout.rows, vec![texts(&["x_v", "y_v"])]);
    assert_eq!(layout.slots.len(), 2);
    let store = resolve_cells(&t, &s, keys).store;
    let out = assemble(texts(&["k"]), layout, &store);
    assert_eq!(out.rows.len(), 2);
    assert_eq!(out.rows[0].cells, vec![Some("1".to_string()), None]);
    assert_eq!(out.rows[1].cells, vec![None, Some("2".to_string())]);
}
