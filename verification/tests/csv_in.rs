use nxs::convert::csv_in::{infer_schema, parse_csv_rows};
use nxs::convert::infer::{SIGIL_BOOL, SIGIL_FLOAT, SIGIL_INT, SIGIL_NULL, SIGIL_STRING};
use nxs::convert::{ConflictPolicy, ImportArgs, ImportFormat};
use nxs::error::NxsError;

fn rows(text: &str) -> Option<Vec<Vec<String>>> {
    parse_csv_rows(text)
}

fn v(cells: &[&[&str]]) -> Vec<Vec<String>> {
    cells.iter().map(|r| r.iter().map(|c| c.to_string()).collect()).collect()
}

#[test]
fn splits_lines_and_cells() {
    assert_eq!(rows("a,b\n1,2\n"), Some(v(&[&["a", "b"], &["1", "2"]])));
    assert_eq!(rows("a,b\r\n1,2"), Some(v(&[&["a", "b"], &["1", "2"]])));
    assert_eq!(rows("a,,c\n"), Some(v(&[&["a", "", "c"]])));
    assert_eq!(rows("a,\n"), Some(v(&[&["a", ""]])));
    assert_eq!(rows(""), Some(vec![]));
}

#[test]
fn skips_blank_lines() {
    assert_eq!(rows("a\n\n\nb\n"), Some(v(&[&["a"], &["b"]])));
}

#[test]
fn quoted_cells() {
    assert_eq!(rows("\"a,b\",\"say \"\"hi\"\"\"\n"), Some(v(&[&["a,b", "say \"hi\""]])));
    assert_eq!(rows("\"two\nlines\",x\n"), Some(v(&[&["two\nlines", "x"]])));
    assert_eq!(rows("\"\"\n"), Some(v(&[&[""]])));
    assert_eq!(rows("\"ab\"c,d\n"), Some(v(&[&["abc", "d"]])));
    assert_eq!(rows("\"open\n"), None);
}

fn args(conflict: ConflictPolicy) -> ImportArgs {
    ImportArgs { from: ImportFormat::Csv, conflict, ..Default::default() }
}

#[test]
fn infers_the_benchmark_schema() {
    let csv = "id,username,age,balance,active,created_at\n\
               0,user_0000,20,100.00,false,2026-04-30\n\
               1,user_0001,21,101.37,true,2026-04-30\n";
    let s = infer_schema(csv.as_bytes(), &args(ConflictPolicy::Error)).unwrap();
    let names: Vec<&str> = s.keys.iter().map(|k| k.name.as_str()).collect();
    assert_eq!(names, vec!["id", "username", "age", "balance", "active", "created_at"]);
    let sigils: Vec<u8> = s.keys.iter().map(|k| k.sigil).collect();
    assert_eq!(sigils, vec![SIGIL_INT, SIGIL_STRING, SIGIL_INT, SIGIL_FLOAT, SIGIL_BOOL, b'@']);
    assert!(s.keys.iter().all(|k| !k.optional));
    assert_eq!(s.records_merged, 2);
}

#[test]
fn short_rows_make_keys_optional() {
    let csv = "a,b\n1,2\n3\n";
    let s = infer_schema(csv.as_bytes(), &args(ConflictPolicy::Error)).unwrap();
    let optional: Vec<bool> = s.keys.iter().map(|k| k.optional).collect();
    assert_eq!(optional, vec![false, true]);
}

#[test]
fn empty_cells_are_null_observations() {
    let csv = "a,b\n1,\n2,\n";
    let s = infer_schema(csv.as_bytes(), &args(ConflictPolicy::Error)).unwrap();
    assert_eq!(s.keys[1].sigil, SIGIL_NULL);
}

#[test]
fn header_only_declares_the_keys() {
    let s = infer_schema(b"a,b\n", &args(ConflictPolicy::Error)).unwrap();
    let names: Vec<&str> = s.keys.iter().map(|k| k.name.as_str()).collect();
    assert_eq!(names, vec!["a", "b"]);
    assert!(s.keys.iter().all(|k| !k.optional && k.sigil == SIGIL_NULL));
    assert_eq!(s.records_merged, 0);
    let s = infer_schema(b"", &args(ConflictPolicy::Error)).unwrap();
    assert!(s.keys.is_empty());
}

#[test]
fn headers_become_the_keys_in_header_order() {
    let s = infer_schema(b"a,b,c\n1\n", &args(ConflictPolicy::Error)).unwrap();
    let names: Vec<&str> = s.keys.iter().map(|k| k.name.as_str()).collect();
    assert_eq!(names, vec!["a", "b", "c"]);
    let optional: Vec<bool> = s.keys.iter().map(|k| k.optional).collect();
    assert_eq!(optional, vec![false, true, true]);
    assert_eq!(s.keys[0].sigil, SIGIL_INT);
    let s = infer_schema(b"a,b,a\n1,x,2\n", &args(ConflictPolicy::Error)).unwrap();
    let names: Vec<&str> = s.keys.iter().map(|k| k.name.as_str()).collect();
    assert_eq!(names, vec!["a", "b"]);
}

#[test]
fn conflicts_and_errors() {
    let csv = "v\n1\nx\n";
    assert!(matches!(
        infer_schema(csv.as_bytes(), &args(ConflictPolicy::Error)),
        Err(NxsError::ListTypeMismatch)
    ));
    let s = infer_schema(csv.as_bytes(), &args(ConflictPolicy::CoerceString)).unwrap();
    assert_eq!(s.keys[0].sigil, SIGIL_STRING);
    let s = infer_schema(csv.as_bytes(), &args(ConflictPolicy::FirstWins)).unwrap();
    assert_eq!(s.keys[0].sigil, SIGIL_INT);
    assert_eq!(
        infer_schema(&[0xff, 0xfe], &args(ConflictPolicy::Error)).err(),
        Some(NxsError::ParseError("CSV input is not valid UTF-8".to_string()))
    );
    assert_eq!(
        infer_schema(b"a\n\"x\n", &args(ConflictPolicy::Error)).err(),
        Some(NxsError::ParseError("unterminated quoted CSV field".to_string()))
    );
}
