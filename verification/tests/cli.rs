use nxs::cli::{exit_code_for, parse_records};
use nxs::error::NxsError;

#[test]
fn records_all_means_every_record() {
    assert_eq!(parse_records("all"), None);
}

#[test]
fn records_counts_parse() {
    assert_eq!(parse_records("3"), Some(3));
    assert_eq!(parse_records("0"), Some(0));
    assert_eq!(parse_records("+7"), Some(7));
    assert_eq!(parse_records("007"), Some(7));
    assert_eq!(parse_records("18446744073709551615"), Some(usize::MAX));
}

#[test]
fn records_non_counts_mean_every_record() {
    assert_eq!(parse_records(""), None);
    assert_eq!(parse_records("+"), None);
    assert_eq!(parse_records("-1"), None);
    assert_eq!(parse_records("x"), None);
    assert_eq!(parse_records("All"), None);
    assert_eq!(parse_records("18446744073709551616"), None);
}

#[test]
fn records_agrees_with_std_parse() {
    for s in ["12", "+0", "99999", "1a", " 1", "٣"] {
        let expected = if s == "all" { None } else { s.parse::<usize>().ok() };
        assert_eq!(parse_records(s), expected, "{s}");
    }
}

#[test]
fn exit_codes() {
    assert_eq!(exit_code_for(&NxsError::DictMismatch), 3);
    assert_eq!(exit_code_for(&NxsError::BadMagic), 1);
    assert_eq!(exit_code_for(&NxsError::IoError("x".to_string())), 1);
}
