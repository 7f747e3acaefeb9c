use gridstore::{ColumnDef, GridStore, SortDir, StoreError, Value};

fn col(name: &str, kind: &str, primary_key: bool, indexed: bool) -> ColumnDef {
    ColumnDef { name: name.to_string(), kind: kind.to_string(), primary_key, indexed }
}

fn text(s: &str) -> Value {
    Value::Text(s.to_string())
}

fn num(x: f64) -> Value {
    Value::Number(x.to_bits())
}

fn rec(fields: Vec<(&str, Value)>) -> Vec<(String, Value)> {
    fields.into_iter().map(|(k, v)| (k.to_string(), v)).collect()
}

fn schema() -> Vec<ColumnDef> {
    vec![
        col("id", "string", true, false),
        col("sym", "string", false, true),
        col("px", "number", false, false),
    ]
}

fn setup() -> GridStore {
    let mut s = match GridStore::new(&schema()) {
        Ok(s) => s,
        Err(e) => panic!("schema refused: {:?}", e),
    };
    assert_eq!(s.insert(&rec(vec![("id", text("a")), ("sym", text("AAPL")), ("px", num(150.0))])), Ok(0));
    assert_eq!(s.insert(&rec(vec![("id", text("b")), ("sym", text("AMZN")), ("px", num(3400.0))])), Ok(1));
    assert_eq!(s.insert(&rec(vec![("id", text("c")), ("sym", text("APPLESAUCE")), ("px", num(2.0))])), Ok(2));
    s
}

fn id_of(record: &Vec<(String, Value)>) -> String {
    for (k, v) in record {
        if k == "id" {
            if let Value::Text(s) = v {
                return s.clone();
            }
        }
    }
    panic!("record without id");
}

fn visible_ids(s: &mut GridStore) -> Vec<String> {
    let n = s.view_count();
    s.get_visible_rows(0, n).iter().map(id_of).collect()
}

fn cell(s: &GridStore, row: u32, column: &str) -> Option<Value> {
    s.get_cell(row, column)
}

fn is_text(v: Option<Value>, expected: &str) -> bool {
    matches!(v, Some(Value::Text(ref t)) if t == expected)
}

fn is_num(v: Option<Value>, expected: f64) -> bool {
    matches!(v, Some(Value::Number(b)) if f64::from_bits(b) == expected)
}

fn is_null(v: Option<Value>) -> bool {
    matches!(v, Some(Value::Null))
}

#[test]
fn filter_and_sort_by_symbol() {
    let mut s = setup();
    s.set_filter("app");
    s.set_sort("sym", SortDir::Asc);
    // "AAPL" does not hold "app": only "APPLESAUCE" passes.
    assert_eq!(s.view_count(), 1);
    let rows = s.get_visible_rows(0, 2);
    let ids: Vec<String> = rows.iter().map(id_of).collect();
    assert_eq!(ids, vec!["c"]);
    s.set_filter("ap");
    assert_eq!(s.view_count(), 2);
    let ids: Vec<String> = s.get_visible_rows(0, 2).iter().map(id_of).collect();
    assert_eq!(ids, vec!["a", "c"]);
}

#[test]
fn filter_without_match_is_empty() {
    let mut s = setup();
    s.set_filter("zz");
    assert_eq!(s.view_count(), 0);
}

#[test]
fn short_filter_scans_in_row_order() {
    let mut s = setup();
    s.set_filter("a");
    assert_eq!(visible_ids(&mut s), vec!["a", "b", "c"]);
}

#[test]
fn update_moves_row_out_of_old_trigrams() {
    let mut s = setup();
    s.set_filter("app");
    s.set_sort("sym", SortDir::Asc);
    assert_eq!(s.view_count(), 1);
    assert_eq!(s.update("a", &rec(vec![("sym", text("ZZZZ"))])), Ok(()));
    s.set_filter("app");
    assert_eq!(visible_ids(&mut s), vec!["c"]);
    s.set_filter("zzz");
    assert_eq!(visible_ids(&mut s), vec!["a"]);
}

#[test]
fn deleted_id_stays_taken() {
    let mut s = setup();
    s.set_filter("app");
    s.set_sort("sym", SortDir::Asc);
    assert_eq!(s.insert(&rec(vec![("id", text("d")), ("sym", text("AAPL"))])), Ok(3));
    assert_eq!(s.delete("d"), Ok(()));
    assert_eq!(s.insert(&rec(vec![("id", text("d")), ("sym", text("AAPL"))])), Err(StoreError::DuplicateId));
}

#[test]
fn numeric_sort_is_stable_and_nan_goes_last() {
    let mut s = GridStore::new(&schema()).unwrap();
    s.insert(&rec(vec![("id", text("n")), ("px", num(f64::NAN))])).unwrap();
    s.insert(&rec(vec![("id", text("x")), ("px", num(5.0))])).unwrap();
    s.insert(&rec(vec![("id", text("y")), ("px", num(5.0))])).unwrap();
    s.set_sort("px", SortDir::Asc);
    let n = s.view_count();
    assert_eq!(s.view_indices(0, n), vec![1, 2, 0]);
    s.set_sort("px", SortDir::Desc);
    assert_eq!(s.view_indices(0, n), vec![0, 1, 2]);
}

#[test]
fn numbers_sort_by_value_across_signs() {
    let mut s = GridStore::new(&schema()).unwrap();
    for (i, x) in [3.5, -1.0, 0.0, -7.25, 100.0, -0.0].iter().enumerate() {
        let id = format!("r{}", i);
        s.insert(&rec(vec![("id", text(&id)), ("px", num(*x))])).unwrap();
    }
    s.set_sort("px", SortDir::Asc);
    let n = s.view_count();
    assert_eq!(s.view_indices(0, n), vec![3, 1, 2, 5, 0, 4]);
}

#[test]
fn strings_sort_bytewise_descending() {
    let mut s = setup();
    s.set_sort("sym", SortDir::Desc);
    assert_eq!(visible_ids(&mut s), vec!["c", "b", "a"]);
    s.set_sort("sym", SortDir::Unsorted);
    assert_eq!(visible_ids(&mut s), vec!["a", "b", "c"]);
}

#[test]
fn unknown_sort_column_keeps_row_order() {
    let mut s = setup();
    s.set_sort("nope", SortDir::Desc);
    assert_eq!(visible_ids(&mut s), vec!["a", "b", "c"]);
}

#[test]
fn filter_is_case_insensitive() {
    let mut s = setup();
    s.set_filter("APPLE");
    assert_eq!(visible_ids(&mut s), vec!["c"]);
    s.set_filter("aPl");
    assert_eq!(visible_ids(&mut s), vec!["a"]);
    s.set_filter("A");
    assert_eq!(visible_ids(&mut s), vec!["a", "b", "c"]);
    s.clear_filter();
    assert_eq!(s.view_count(), 3);
}

#[test]
fn filter_checks_each_indexed_column() {
    let cols = vec![
        col("id", "string", true, false),
        col("a", "string", false, true),
        col("b", "string", false, true),
    ];
    let mut s = GridStore::new(&cols).unwrap();
    s.insert(&rec(vec![("id", text("1")), ("a", text("foo")), ("b", text("bar"))])).unwrap();
    s.insert(&rec(vec![("id", text("2")), ("a", text("xbar")), ("b", text("q"))])).unwrap();
    s.set_filter("bar");
    assert_eq!(visible_ids_generic(&mut s), vec!["1", "2"]);
    s.set_filter("o b");
    assert_eq!(s.view_count(), 0);
}

fn visible_ids_generic(s: &mut GridStore) -> Vec<String> {
    visible_ids(s)
}

#[test]
fn deleted_rows_leave_the_view_and_the_count() {
    let mut s = setup();
    assert_eq!(s.row_count(), 3);
    assert_eq!(s.delete("b"), Ok(()));
    assert_eq!(s.row_count(), 2);
    assert_eq!(visible_ids(&mut s), vec!["a", "c"]);
    s.set_filter("amz");
    assert_eq!(s.view_count(), 0);
    assert_eq!(s.delete("b"), Err(StoreError::NotFound));
    assert_eq!(s.update("b", &rec(vec![("sym", text("AMZN"))])), Err(StoreError::NotFound));
}

#[test]
fn index_follows_inserts_updates_and_deletes() {
    let mut s = setup();
    s.set_filter("sauce");
    assert_eq!(visible_ids(&mut s), vec!["c"]);
    s.update("c", &rec(vec![("sym", text("PEAR"))])).unwrap();
    s.set_filter("sauce");
    assert_eq!(s.view_count(), 0);
    s.insert(&rec(vec![("id", text("e")), ("sym", text("Saucer"))])).unwrap();
    assert_eq!(visible_ids(&mut s), vec!["e"]);
    s.delete("e").unwrap();
    assert_eq!(s.view_count(), 0);
}

#[test]
fn repeated_reads_agree_and_same_filter_is_a_no_op() {
    let mut s = setup();
    s.set_filter("app");
    let first = s.view_indices(0, 10);
    let second = s.view_indices(0, 10);
    assert_eq!(first, second);
    s.set_filter("app");
    assert_eq!(s.view_indices(0, 10), first);
    s.set_filter("APP");
    assert_eq!(s.view_indices(0, 10), first);
}

#[test]
fn missing_fields_read_as_null() {
    let mut s = GridStore::new(&schema()).unwrap();
    s.insert(&rec(vec![("id", text("a"))])).unwrap();
    s.insert(&rec(vec![("id", text("b")), ("px", num(f64::NAN)), ("sym", Value::Null)])).unwrap();
    assert!(is_text(cell(&s, 0, "sym"), ""));
    assert!(is_null(cell(&s, 0, "px")));
    assert!(is_null(cell(&s, 1, "px")));
    assert!(is_text(cell(&s, 1, "sym"), ""));
    assert!(cell(&s, 0, "nope").is_none());
    assert!(is_null(cell(&s, 9, "px")));
}

#[test]
fn wrong_typed_fields_read_as_null() {
    let mut s = GridStore::new(&schema()).unwrap();
    s.insert(&rec(vec![("id", text("a")), ("sym", num(1.0)), ("px", text("7"))])).unwrap();
    assert!(is_text(cell(&s, 0, "sym"), ""));
    assert!(is_null(cell(&s, 0, "px")));
}

#[test]
fn empty_update_changes_no_cell() {
    let mut s = setup();
    assert_eq!(s.update("b", &rec(vec![])), Ok(()));
    assert!(is_text(cell(&s, 1, "sym"), "AMZN"));
    assert!(is_num(cell(&s, 1, "px"), 3400.0));
    assert!(is_text(cell(&s, 1, "id"), "b"));
}

#[test]
fn update_ignores_unknown_keys_and_the_primary_key() {
    let mut s = setup();
    let changes = rec(vec![("id", text("zz")), ("nope", text("x")), ("px", num(1.5))]);
    assert_eq!(s.update("a", &changes), Ok(()));
    assert!(is_text(cell(&s, 0, "id"), "a"));
    assert!(is_num(cell(&s, 0, "px"), 1.5));
    assert_eq!(s.update("zz", &rec(vec![])), Err(StoreError::NotFound));
}

#[test]
fn batch_update_counts_and_skips_unknown_ids() {
    let mut s = setup();
    let updates = vec![
        rec(vec![("id", text("a")), ("px", num(1.0))]),
        rec(vec![("id", text("nope")), ("px", num(2.0))]),
        rec(vec![("px", num(3.0))]),
        rec(vec![("id", text("c")), ("sym", text("XYZ"))]),
        rec(vec![("id", text("a")), ("px", num(4.0))]),
    ];
    assert_eq!(s.batch_update(&updates), 3);
    assert!(is_num(cell(&s, 0, "px"), 4.0));
    assert!(is_text(cell(&s, 2, "sym"), "XYZ"));
    s.set_filter("xyz");
    assert_eq!(visible_ids(&mut s), vec!["c"]);
    assert_eq!(s.batch_update(&vec![rec(vec![("id", text("q"))])]), 0);
}

#[test]
fn load_rows_keeps_the_prefix_before_a_failure() {
    let mut s = GridStore::new(&schema()).unwrap();
    let rows = vec![
        rec(vec![("id", text("a")), ("sym", text("AAPL"))]),
        rec(vec![("id", text("b"))]),
    ];
    assert_eq!(s.load_rows(&rows), Ok(2));
    let bad = vec![
        rec(vec![("id", text("c"))]),
        rec(vec![("sym", text("X"))]),
        rec(vec![("id", text("d"))]),
    ];
    assert_eq!(s.load_rows(&bad), Err(StoreError::MissingId));
    assert_eq!(s.row_count(), 3);
    let dup = vec![rec(vec![("id", text("e"))]), rec(vec![("id", text("a"))])];
    assert_eq!(s.load_rows(&dup), Err(StoreError::DuplicateId));
    assert_eq!(s.row_count(), 4);
}

#[test]
fn insert_without_text_id_fails() {
    let mut s = GridStore::new(&schema()).unwrap();
    assert_eq!(s.insert(&rec(vec![("sym", text("X"))])), Err(StoreError::MissingId));
    assert_eq!(s.insert(&rec(vec![("id", num(1.0))])), Err(StoreError::MissingId));
    assert_eq!(s.row_count(), 0);
}

#[test]
fn schema_errors() {
    assert_eq!(GridStore::new(&vec![]).err(), Some(StoreError::SchemaError));
    let no_key = vec![col("id", "string", false, false)];
    assert_eq!(GridStore::new(&no_key).err(), Some(StoreError::SchemaError));
    let two_keys = vec![col("id", "string", true, false), col("k", "string", true, false)];
    assert_eq!(GridStore::new(&two_keys).err(), Some(StoreError::SchemaError));
    let number_key = vec![col("id", "number", true, false)];
    assert_eq!(GridStore::new(&number_key).err(), Some(StoreError::SchemaError));
    let same_names = vec![col("id", "string", true, false), col("id", "number", false, false)];
    assert_eq!(GridStore::new(&same_names).err(), Some(StoreError::SchemaError));
    let bad_type = vec![col("id", "string", true, false), col("d", "date", false, false)];
    assert_eq!(GridStore::new(&bad_type).err(), Some(StoreError::TypeError));
}

#[test]
fn integer_is_a_number_column() {
    let cols = vec![col("id", "string", true, false), col("n", "integer", false, false)];
    let mut s = GridStore::new(&cols).unwrap();
    s.insert(&rec(vec![("id", text("a")), ("n", num(42.0))])).unwrap();
    assert!(is_num(cell(&s, 0, "n"), 42.0));
}

#[test]
fn column_names_in_order() {
    let s = setup();
    assert_eq!(s.column_names(), vec!["id", "sym", "px"]);
}

#[test]
fn get_rows_projects_records() {
    let s = setup();
    let rows = s.get_rows(&vec![2, 0, 7]);
    assert_eq!(rows.len(), 3);
    assert_eq!(id_of(&rows[0]), "c");
    assert_eq!(id_of(&rows[1]), "a");
    assert_eq!(rows[2].len(), 3);
    assert!(matches!(rows[2][2].1, Value::Null));
    assert_eq!(rows[0][0].0, "id");
    assert!(matches!(rows[0][2].1, Value::Number(b) if f64::from_bits(b) == 2.0));
}

#[test]
fn view_indices_are_clamped() {
    let mut s = setup();
    assert_eq!(s.view_indices(1, 10), vec![1, 2]);
    assert_eq!(s.view_indices(5, 2), Vec::<u32>::new());
    assert_eq!(s.view_indices(0, 0), Vec::<u32>::new());
    assert_eq!(s.view_indices(2, usize::MAX), vec![2]);
    assert_eq!(s.get_visible_rows(1, 1).len(), 1);
}

#[test]
fn clear_sort_restores_row_order() {
    let mut s = setup();
    s.set_sort("px", SortDir::Desc);
    assert_eq!(visible_ids(&mut s), vec!["b", "a", "c"]);
    s.clear_sort();
    assert_eq!(visible_ids(&mut s), vec!["a", "b", "c"]);
}

#[test]
fn non_ascii_text_is_kept_and_filtered() {
    let mut s = GridStore::new(&schema()).unwrap();
    s.insert(&rec(vec![("id", text("a")), ("sym", text("Crème Brûlée"))])).unwrap();
    s.insert(&rec(vec![("id", text("b")), ("sym", text("CREME"))])).unwrap();
    s.set_filter("crè");
    assert_eq!(visible_ids(&mut s), vec!["a"]);
    assert!(is_text(cell(&s, 0, "sym"), "Crème Brûlée"));
}

#[test]
fn empty_store_has_an_empty_view() {
    let mut s = GridStore::new(&schema()).unwrap();
    assert_eq!(s.view_count(), 0);
    assert_eq!(s.row_count(), 0);
    assert_eq!(s.view_indices(0, 5), Vec::<u32>::new());
    assert!(s.get_visible_rows(0, 5).is_empty());
    s.set_filter("abc");
    assert_eq!(s.view_count(), 0);
}

#[test]
fn filter_spanning_indexed_text_of_one_cell() {
    let mut s = setup();
    s.insert(&rec(vec![("id", text("f")), ("sym", text("big apple pie"))])).unwrap();
    s.set_filter("e p");
    assert_eq!(visible_ids(&mut s), vec!["f"]);
    s.set_filter("pie");
    assert_eq!(visible_ids(&mut s), vec!["f"]);
}
