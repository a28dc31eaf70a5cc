use std::collections::HashMap;

use xtab::cells::Collision;
use xtab::header::HeaderFormat;
use xtab::pivot::crosstab;
use xtab::schema::ColumnSpec;
use xtab::table::InputTable;

struct Lcg(u64);

impl Lcg {
    fn next(&mut self, bound: u64) -> u64 {
        self.0 = self.0.wrapping_mul(6364136223846793005).wrapping_add(1442695040888963407);
        (self.0 >> 33) % bound
    }
}

fn texts(items: &[&str]) -> Vec<String> {
    items.iter().map(|s| s.to_string()).collect()
}

fn random_rows(seed: u64, n: usize) -> Vec<Vec<String>> {
    let mut g = Lcg(seed);
    (0..n)
        .map(|r| {
            vec![
                format!("a{}", g.next(4)),
                format!("b{}", g.next(3)),
                format!("c{}", g.next(5)),
                format!("d{}", g.next(2)),
                format!("v{}", r),
                format!("w{}", g.next(1000)),
            ]
        })
        .collect()
}

fn project(row: &[String], header: &[String], names: &[String]) -> Vec<String> {
    names.iter().map(|n| row[header.iter().position(|h| h == n).unwrap()].clone()).collect()
}

fn distinct(items: Vec<Vec<String>>) -> Vec<Vec<String>> {
    let mut out: Vec<Vec<String>> = Vec::new();
    for item in items {
        if !out.contains(&item) {
            out.push(item);
        }
    }
    out
}

fn check_against_model(rows: Vec<Vec<String>>, rk: &[&str], ck: &[&str], vc: &[&str]) {
    let header = texts(&["a", "b", "c", "d", "v", "w"]);
    let (rk, ck, vc) = (texts(rk), texts(ck), texts(vc));
    let table = InputTable::new(header.clone(), rows.clone()).unwrap();
    let spec = ColumnSpec::new(rk.clone(), ck.clone(), vc.clone()).unwrap();
    let out = crosstab(&table, &spec, HeaderFormat::Flat).unwrap();

    let row_keys = distinct(rows.iter().map(|r| project(r, &header, &rk)).collect());
    let col_keys = distinct(rows.iter().map(|r| project(r, &header, &ck)).collect());
    let mut first: HashMap<(Vec<String>, Vec<String>), usize> = HashMap::new();
    let mut count: HashMap<(Vec<String>, Vec<String>), usize> = HashMap::new();
    for (r, row) in rows.iter().enumerate() {
        let address = (project(row, &header, &rk), project(row, &header, &ck));
        first.entry(address.clone()).or_insert(r);
        *count.entry(address).or_insert(0) += 1;
    }

    assert_eq!(out.table.key_names, rk);
    assert_eq!(out.table.rows.len(), row_keys.len());
    assert_eq!(out.table.header.len(), 1);
    assert_eq!(out.table.header[0].len(), col_keys.len() * vc.len());
    let mut collisions: Vec<Collision> = Vec::new();
    let mut names: Vec<String> = Vec::new();
    for v in &vc {
        if !names.contains(v) {
            names.push(v.clone());
        }
    }
    for (i, key) in row_keys.iter().enumerate() {
        assert_eq!(&out.table.rows[i].key, key);
        assert_eq!(out.table.rows[i].cells.len(), col_keys.len() * vc.len());
        for (j, col) in col_keys.iter().enumerate() {
            let address = (key.clone(), col.clone());
            for (k, v) in vc.iter().enumerate() {
                let expected = first
                    .get(&address)
                    .map(|&r| project(&rows[r], &header, std::slice::from_ref(v))[0].clone());
                assert_eq!(out.table.rows[i].cells[j * vc.len() + k], expected);
                let mut parts = col.clone();
                parts.push(v.clone());
                assert_eq!(out.table.header[0][j * vc.len() + k], parts.join("_"));
            }
            if let Some(&n) = count.get(&address) {
                if n >= 2 {
                    for v in &names {
                        collisions.push(Collision {
                            row_key: key.clone(),
                            col_key: col.clone(),
                            value_col: v.clone(),
                            extra: n - 1,
                        });
                    }
                }
            }
        }
    }
    assert_eq!(out.collisions, collisions);
}

#[test]
fn agrees_with_a_plain_model_on_sparse_data() {
    check_against_model(random_rows(1, 12), &["a"], &["c"], &["v"]);
    check_against_model(random_rows(2, 12), &["a", "b"], &["c", "d"], &["v", "w"]);
}

#[test]
fn agrees_with_a_plain_model_on_dense_data() {
    check_against_model(random_rows(3, 300), &["a"], &["b"], &["v"]);
    check_against_model(random_rows(4, 300), &["a", "b"], &["c"], &["w", "v"]);
    check_against_model(random_rows(5, 300), &["d", "a"], &["b", "c"], &["v", "w", "v"]);
}

#[test]
fn agrees_with_a_plain_model_when_roles_share_columns() {
    check_against_model(random_rows(6, 100), &["a"], &["a", "b"], &["a", "v"]);
    check_against_model(random_rows(7, 100), &["v"], &["b"], &["w"]);
    check_against_model(random_rows(8, 100), &["b"], &["v"], &["w"]);
}

#[test]
fn larger_table() {
    let mut g = Lcg(9);
    let rows: Vec<Vec<String>> = (0..5000)
        .map(|r| {
            vec![
                format!("a{}", g.next(200)),
                "b".to_string(),
                format!("c{}", g.next(12)),
                "d".to_string(),
                format!("v{}", r),
                "w".to_string(),
            ]
        })
        .collect();
    check_against_model(rows, &["a"], &["c"], &["v"]);
}
