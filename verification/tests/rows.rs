use mop::headers::clean_headers;
use mop::rows::{extend_headers, pad_record, reconcile, widest};

fn owned(fields: &[&str]) -> Vec<String> {
    fields.iter().map(|field| field.to_string()).collect()
}

fn read(data: &str) -> (Vec<String>, Vec<Vec<String>>) {
    let mut reader = csv::ReaderBuilder::new()
        .flexible(true)
        .has_headers(true)
        .from_reader(data.as_bytes());
    let headers = reader.headers().unwrap().clone();
    let raw: Vec<&str> = headers.iter().collect();
    let names = clean_headers(&raw);
    let mut records = Vec::new();
    for result in reader.records() {
        let record = result.unwrap();
        records.push(record.iter().map(|field| field.to_string()).collect());
    }
    (names, records)
}

#[test]
fn widest_is_the_greatest_field_count() {
    assert_eq!(widest(0, &Vec::new()), 0);
    assert_eq!(widest(3, &Vec::new()), 3);
    assert_eq!(widest(2, &vec![owned(&["a"]), owned(&["a", "b", "c"]), owned(&[])]), 3);
    assert_eq!(widest(5, &vec![owned(&["a"]), owned(&["a", "b", "c"])]), 5);
    assert_eq!(widest(0, &vec![owned(&["a"]), owned(&["a", "b"])]), 2);
}

#[test]
fn extend_headers_appends_made_up_names() {
    let mut headers = owned(&["name", "age"]);
    extend_headers(&mut headers, 4);
    assert_eq!(headers, vec!["name", "age", "x_1", "x_2"]);
}

#[test]
fn extend_headers_leaves_a_wide_row_alone() {
    let mut headers = owned(&["name", "age"]);
    extend_headers(&mut headers, 2);
    assert_eq!(headers, vec!["name", "age"]);
    extend_headers(&mut headers, 1);
    assert_eq!(headers, vec!["name", "age"]);
    extend_headers(&mut headers, 0);
    assert_eq!(headers, vec!["name", "age"]);
}

#[test]
fn extend_headers_passes_over_names_in_use() {
    let mut headers = owned(&["x_1", "a", "x_3"]);
    extend_headers(&mut headers, 6);
    assert_eq!(headers, vec!["x_1", "a", "x_3", "x_2", "x_4", "x_5"]);
}

#[test]
fn extend_headers_never_reuses_a_number() {
    let mut headers = owned(&["x_2"]);
    extend_headers(&mut headers, 3);
    assert_eq!(headers, vec!["x_2", "x_1", "x_3"]);
    let mut headers = Vec::new();
    extend_headers(&mut headers, 11);
    assert_eq!(
        headers,
        vec!["x_1", "x_2", "x_3", "x_4", "x_5", "x_6", "x_7", "x_8", "x_9", "x_10", "x_11"]
    );
}

#[test]
fn extend_headers_matches_names_exactly() {
    let mut headers = owned(&["X_1", "x_01"]);
    extend_headers(&mut headers, 3);
    assert_eq!(headers, vec!["X_1", "x_01", "x_1"]);
}

#[test]
fn pad_record_fills_with_empty_fields() {
    assert_eq!(pad_record(&owned(&["Alice"]), 3), vec!["Alice", "", ""]);
    assert_eq!(pad_record(&owned(&["Bob", "25"]), 3), vec!["Bob", "25", ""]);
    assert_eq!(pad_record(&owned(&[]), 2), vec!["", ""]);
}

#[test]
fn pad_record_never_cuts() {
    assert_eq!(pad_record(&owned(&["a", "b"]), 2), vec!["a", "b"]);
    assert_eq!(pad_record(&owned(&["a", "b", "c"]), 2), vec!["a", "b", "c"]);
    assert!(pad_record(&owned(&[]), 0).is_empty());
}

#[test]
fn rows_wider_than_the_header_extend_it() {
    let (mut headers, records) = read("name,age\nAlice,30,Engineer\nBob,25,Designer,New York");
    let rows = reconcile(&mut headers, &records);
    assert_eq!(headers, vec!["name", "age", "x_1", "x_2"]);
    assert_eq!(
        rows,
        vec![vec!["Alice", "30", "Engineer", ""], vec!["Bob", "25", "Designer", "New York"]]
    );
}

#[test]
fn rows_narrower_than_the_header_are_padded() {
    let (mut headers, records) = read("name,age,location\nAlice\nBob,25");
    let rows = reconcile(&mut headers, &records);
    assert_eq!(headers, vec!["name", "age", "location"]);
    assert_eq!(rows, vec![vec!["Alice", "", ""], vec!["Bob", "25", ""]]);
}

#[test]
fn empty_input_gives_empty_output() {
    let (mut headers, records) = read("");
    assert!(headers.is_empty());
    assert!(records.is_empty());
    let rows = reconcile(&mut headers, &records);
    assert!(headers.is_empty());
    assert!(rows.is_empty());
}

#[test]
fn every_row_gets_the_greatest_width() {
    let (mut headers, records) = read("a,,b\n1\n1,2,3,4,5\n\n1,2\n1,2,3,4,5,6,7");
    let width = widest(headers.len(), &records);
    assert_eq!(width, 7);
    let rows = reconcile(&mut headers, &records);
    assert_eq!(headers.len(), width);
    assert_eq!(rows.len(), records.len());
    for row in &rows {
        assert_eq!(row.len(), width);
    }
    assert_eq!(headers, vec!["a", "x_1", "b", "x_2", "x_3", "x_4", "x_5"]);
}

#[test]
fn made_up_header_and_extension_share_no_name() {
    let (mut headers, records) = read(",x_2,b\n1,2,3,4,5");
    assert_eq!(headers, vec!["x_1", "x_2", "b"]);
    let rows = reconcile(&mut headers, &records);
    assert_eq!(headers, vec!["x_1", "x_2", "b", "x_3", "x_4"]);
    assert_eq!(rows, vec![vec!["1", "2", "3", "4", "5"]]);
}
