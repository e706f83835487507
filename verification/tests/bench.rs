use nxs::bench::{deserialize_csv, deserialize_json, deserialize_xml, iters_for};
use nxs::bench::{size_unit, time_unit, SizeUnit, TimeUnit};

#[test]
fn json_counts_id_members() {
    assert_eq!(deserialize_json(b"[\n  {\"id\":1,\"x\":2},\n  {\"id\":2}\n]"), 2);
    assert_eq!(deserialize_json(b"[]"), 0);
    assert_eq!(deserialize_json("{\"id\":\"é\"}".as_bytes()), 1);
}

#[test]
fn xml_counts_record_elements() {
    let xml = b"<?xml version=\"1.0\"?>\n<records>\n  <record><id>1</id></record>\n  <record><id>2</id></record>\n</records>";
    assert_eq!(deserialize_xml(xml), 2);
    assert_eq!(deserialize_xml(b"<records></records>"), 0);
}

#[test]
fn csv_counts_lines_below_the_header() {
    assert_eq!(deserialize_csv(b"id,name\n1,a\n2,b\n"), 2);
    assert_eq!(deserialize_csv(b"id,name\n1,a\n2,b"), 2);
    assert_eq!(deserialize_csv(b"id,name\n"), 0);
    assert_eq!(deserialize_csv(b""), 0);
    assert_eq!(deserialize_csv(b"h\n\n\n"), 2);
    assert_eq!(deserialize_csv(b"h\r\na\r\n"), 1);
}

#[test]
fn counters_agree_with_str_methods() {
    let s = "h\nx,\"id\":\n\"id\":\"id\":\n<record><record>\nlast";
    assert_eq!(deserialize_json(s.as_bytes()), s.matches("\"id\":").count());
    assert_eq!(deserialize_xml(s.as_bytes()), s.matches("<record>").count());
    assert_eq!(deserialize_csv(s.as_bytes()), s.lines().count() - 1);
}

#[test]
fn iteration_counts() {
    assert_eq!(iters_for(10_000), 10);
    assert_eq!(iters_for(99_999), 10);
    assert_eq!(iters_for(100_000), 5);
    assert_eq!(iters_for(999_999), 5);
    assert_eq!(iters_for(1_000_000), 3);
    assert_eq!(iters_for(usize::MAX), 3);
}

#[test]
fn display_units() {
    assert_eq!(time_unit(999), TimeUnit::Nanos);
    assert_eq!(time_unit(1_000), TimeUnit::Micros);
    assert_eq!(time_unit(999_999), TimeUnit::Micros);
    assert_eq!(time_unit(1_000_000), TimeUnit::Millis);
    assert_eq!(time_unit(1_000_000_000), TimeUnit::Seconds);
    assert_eq!(size_unit(1023), SizeUnit::Bytes);
    assert_eq!(size_unit(1024), SizeUnit::Kilobytes);
    assert_eq!(size_unit(1024 * 1024 - 1), SizeUnit::Kilobytes);
    assert_eq!(size_unit(1024 * 1024), SizeUnit::Megabytes);
}
