use nxs::convert::inspect::{render_json, render_text};
use nxs::convert::{run_export, run_inspect, ExportArgs, ExportFormat, InspectArgs};
use nxs::convert::{csv_out, json_out};
use nxs::decoder::DecodedValue;
use nxs::convert::render::{push_csv_value, push_json_value, push_text_value};
use nxs::error::NxsError;

fn push_u16(v: &mut Vec<u8>, x: u16) {
    v.extend_from_slice(&x.to_le_bytes());
}
fn push_u32(v: &mut Vec<u8>, x: u32) {
    v.extend_from_slice(&x.to_le_bytes());
}
fn push_u64(v: &mut Vec<u8>, x: u64) {
    v.extend_from_slice(&x.to_le_bytes());
}

/// The format's worked example, with `id` set to 1025, and a second record
/// (`id` only) listed in the tail-index.
fn two_records() -> Vec<u8> {
    let mut v = Vec::new();
    push_u32(&mut v, 0x4E585342);
    push_u16(&mut v, 0x0100);
    push_u16(&mut v, 0x0002);
    push_u64(&mut v, 7);
    push_u64(&mut v, 120);
    push_u64(&mut v, 0);
    push_u16(&mut v, 3);
    v.extend_from_slice(&[0x3D, 0x3F, 0x22]);
    v.extend_from_slice(b"id\0active\0name\0");
    while v.len() % 8 != 0 {
        v.push(0);
    }
    // record 0 at 56
    push_u32(&mut v, 0x4E58534F);
    push_u32(&mut v, 44);
    v.push(0x07);
    push_u16(&mut v, 0x10);
    push_u16(&mut v, 0x18);
    push_u16(&mut v, 0x20);
    v.push(0);
    push_u64(&mut v, 1025);
    v.push(1);
    v.extend_from_slice(&[0; 7]);
    push_u32(&mut v, 4);
    v.extend_from_slice(b"Alex");
    v.extend_from_slice(&[0; 4]);
    assert_eq!(v.len(), 100);
    // record 1 at 100: id only
    push_u32(&mut v, 0x4E58534F);
    push_u32(&mut v, 20);
    v.push(0x01);
    push_u16(&mut v, 12);
    v.push(0);
    push_u64(&mut v, 7);
    assert_eq!(v.len(), 120);
    // tail-index at 120
    push_u32(&mut v, 2);
    push_u16(&mut v, 0);
    push_u64(&mut v, 56);
    push_u16(&mut v, 0);
    push_u64(&mut v, 100);
    push_u32(&mut v, 120);
    push_u32(&mut v, 0x2153584E);
    v
}

#[test]
fn text_report_of_two_records() {
    let args = InspectArgs::default();
    let (out, rep) = render_text(&two_records(), &args).unwrap();
    let expected = "version: 256\nflags: 2\ndict_hash: 7\ntail_ptr: 120\nkeys: 3\n  id\n  active\n  name\nrecords: 2\nrecord 0 @ 56:\n  id = 1025\n  active = true\n  name = \"Alex\"\nrecord 1 @ 100:\n  id = 7\n";
    assert_eq!(out, expected);
    assert_eq!(rep.record_count, 2);
    assert_eq!(rep.dict_hash_ok, None);
}

#[test]
fn text_report_shows_at_most_the_requested_records() {
    let args = InspectArgs { records_to_show: Some(1), ..Default::default() };
    let (out, rep) = render_text(&two_records(), &args).unwrap();
    assert!(out.ends_with("record 0 @ 56:\n  id = 1025\n  active = true\n  name = \"Alex\"\n"));
    assert!(!out.contains("record 1"));
    assert_eq!(rep.record_count, 2);
    let args = InspectArgs { records_to_show: Some(0), ..Default::default() };
    let (out, _) = render_text(&two_records(), &args).unwrap();
    assert!(out.ends_with("records: 2\n"));
}

#[test]
fn json_report_of_two_records() {
    let args = InspectArgs { json_output: true, ..Default::default() };
    let (out, rep) = render_json(&two_records(), &args).unwrap();
    let expected = "{\"version\":256,\"flags\":2,\"dict_hash\":7,\"tail_ptr\":120,\"keys\":[\"id\",\"active\",\"name\"],\"record_count\":2,\"records\":[{\"id\":1025,\"active\":true,\"name\":\"Alex\"},{\"id\":7}]}";
    assert_eq!(out, expected);
    assert_eq!(rep.record_count, 2);
    let (again, _) = run_inspect(&two_records(), &args).unwrap();
    assert_eq!(again, expected);
}

#[test]
fn run_inspect_picks_text_without_json_flag() {
    let args = InspectArgs::default();
    let (out, _) = run_inspect(&two_records(), &args).unwrap();
    assert!(out.starts_with("version: 256\n"));
}

#[test]
fn inspect_reports_decode_errors() {
    let mut data = two_records();
    data[0] = 0;
    assert!(matches!(render_text(&data, &InspectArgs::default()), Err(NxsError::BadMagic)));
    let mut data = two_records();
    data[16..24].copy_from_slice(&5000u64.to_le_bytes());
    assert!(matches!(render_json(&data, &InspectArgs::default()), Err(NxsError::OutOfBounds)));
    // a tail-index entry pointing at something that is not an object
    let mut data = two_records();
    let n = data.len();
    data[n - 8 - 8..n - 8].copy_from_slice(&64u64.to_le_bytes());
    assert!(matches!(render_text(&data, &InspectArgs::default()), Err(NxsError::BadMagic)));
    // ... which is not read when that record is not shown
    let args = InspectArgs { records_to_show: Some(1), ..Default::default() };
    assert!(render_text(&data, &args).is_ok());
}

#[test]
fn json_export_of_two_records() {
    let args = ExportArgs::default();
    let (out, rep) = json_out::run(&two_records(), &args).unwrap();
    let expected = "[{\"id\":1025,\"active\":true,\"name\":\"Alex\"},{\"id\":7}]\n";
    assert_eq!(out, expected);
    assert_eq!(rep.records_read, 2);
    assert_eq!(rep.output_bytes, expected.len());
}

#[test]
fn csv_export_of_two_records() {
    let args = ExportArgs { to: ExportFormat::Csv, ..Default::default() };
    let (out, rep) = csv_out::run(&two_records(), &args).unwrap();
    let expected = "id,active,name\n1025,true,Alex\n7,,\n";
    assert_eq!(out, expected);
    assert_eq!(rep.records_read, 2);
    assert_eq!(rep.output_bytes, expected.len());
    let (again, _) = run_export(&two_records(), &args).unwrap();
    assert_eq!(again, expected);
}

#[test]
fn run_export_dispatches_on_format() {
    let json = run_export(&two_records(), &ExportArgs::default()).unwrap().0;
    assert!(json.starts_with('['));
    let csv = run_export(&two_records(), &ExportArgs { to: ExportFormat::Csv, ..Default::default() }).unwrap().0;
    assert!(csv.starts_with("id,"));
}

#[test]
fn value_renderings() {
    let cases: Vec<(DecodedValue, &str, &str, &str)> = vec![
        (DecodedValue::Int(-42), "-42", "-42", "-42"),
        (DecodedValue::Int(i64::MIN), "-9223372036854775808", "-9223372036854775808", "-9223372036854775808"),
        (DecodedValue::Bool(true), "true", "true", "true"),
        (DecodedValue::Null, "null", "null", ""),
        (DecodedValue::Time(5), "@5", "5", "5"),
        (DecodedValue::Str("a\"b,c".to_string()), "\"a\"b,c\"", "\"a\\\"b,c\"", "\"a\"\"b,c\""),
        (DecodedValue::Str("tab\there\\".to_string()), "\"tab\there\\\"", "\"tab\\u0009here\\\\\"", "tab\there\\"),
        (DecodedValue::Binary(vec![0xde, 0xad, 0x0f]), "<dead0f>", "\"dead0f\"", "dead0f"),
        (DecodedValue::Raw(vec![1, 255]), "raw:01ff", "\"01ff\"", "01ff"),
        (DecodedValue::Float(0x400921fb54442d18), "~0x400921fb54442d18", "\"0x400921fb54442d18\"", "0x400921fb54442d18"),
    ];
    for (v, text, json, csv) in cases {
        let mut t = String::from(">");
        push_text_value(&mut t, &v);
        assert_eq!(t, format!(">{text}"));
        let mut j = String::new();
        push_json_value(&mut j, &v);
        assert_eq!(j, json);
        let mut c = String::new();
        push_csv_value(&mut c, &v);
        assert_eq!(c, csv);
    }
}

#[test]
fn csv_cells_with_line_breaks_are_quoted() {
    let mut c = String::new();
    push_csv_value(&mut c, &DecodedValue::Str("a\nb".to_string()));
    assert_eq!(c, "\"a\nb\"");
    let mut c = String::new();
    push_csv_value(&mut c, &DecodedValue::Str("a\rb".to_string()));
    assert_eq!(c, "\"a\rb\"");
}

#[test]
fn csv_export_reads_back_as_its_cells() {
    let args = ExportArgs { to: ExportFormat::Csv, ..Default::default() };
    let (out, _) = csv_out::run(&two_records(), &args).unwrap();
    let table = nxs::convert::csv_in::parse_csv_rows(&out).unwrap();
    let expected: Vec<Vec<String>> = vec![
        vec!["id".to_string(), "active".to_string(), "name".to_string()],
        vec!["1025".to_string(), "true".to_string(), "Alex".to_string()],
        vec!["7".to_string(), String::new(), String::new()],
    ];
    assert_eq!(table, expected);
}

#[test]
fn quoted_csv_cells_read_back() {
    let mut line = String::new();
    push_csv_value(&mut line, &DecodedValue::Str("a\"b,c\nd".to_string()));
    line.push(',');
    push_csv_value(&mut line, &DecodedValue::Int(3));
    line.push('\n');
    let table = nxs::convert::csv_in::parse_csv_rows(&line).unwrap();
    assert_eq!(table, vec![vec!["a\"b,c\nd".to_string(), "3".to_string()]]);
}

#[test]
fn verify_hash_compares_the_dict_hash() {
    let args = InspectArgs { verify_hash: true, ..Default::default() };
    // the fixture's DictHash (7) is not the hash of its schema header
    assert_eq!(render_text(&two_records(), &args).err(), Some(NxsError::DictMismatch));
    let json_args = InspectArgs { json_output: true, verify_hash: true, ..Default::default() };
    assert_eq!(render_json(&two_records(), &json_args).err(), Some(NxsError::DictMismatch));
    assert_eq!(run_inspect(&two_records(), &args).err(), Some(NxsError::DictMismatch));
    // without the flag the mismatch is not looked at
    let (_, rep) = render_text(&two_records(), &InspectArgs::default()).unwrap();
    assert_eq!(rep.dict_hash_ok, None);
    let mut data = two_records();
    data[8..16].copy_from_slice(&0x42b901bfae858705u64.to_le_bytes());
    let (_, rep) = render_json(&data, &InspectArgs { json_output: true, verify_hash: true, ..Default::default() }).unwrap();
    assert_eq!(rep.dict_hash_ok, Some(true));
    assert!(run_inspect(&data, &args).is_ok());
    let (_, rep) = render_text(&data, &InspectArgs::default()).unwrap();
    assert_eq!(rep.dict_hash_ok, None);
}
