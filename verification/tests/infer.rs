use nxs::convert::infer::{
    finalize, merge, KeyState, SIGIL_BINARY, SIGIL_BOOL, SIGIL_FLOAT, SIGIL_INT, SIGIL_NULL,
    SIGIL_STRING, SIGIL_TIME,
};
use nxs::convert::{ConflictPolicy, InferredSchema};
use nxs::error::NxsError;

fn state_of(values: &[&str]) -> KeyState {
    let mut s = KeyState::default();
    for v in values {
        s.observe(v);
    }
    s
}

fn sigil(values: &[&str], policy: ConflictPolicy) -> Result<u8, NxsError> {
    state_of(values).resolve_sigil(policy)
}

#[test]
fn classifies_single_kinds() {
    assert_eq!(sigil(&["42"], ConflictPolicy::Error), Ok(SIGIL_INT));
    assert_eq!(sigil(&["-7"], ConflictPolicy::Error), Ok(SIGIL_INT));
    assert_eq!(sigil(&["4.5"], ConflictPolicy::Error), Ok(SIGIL_FLOAT));
    assert_eq!(sigil(&["true"], ConflictPolicy::Error), Ok(SIGIL_BOOL));
    assert_eq!(sigil(&["false"], ConflictPolicy::Error), Ok(SIGIL_BOOL));
    assert_eq!(sigil(&["2026-04-30"], ConflictPolicy::Error), Ok(SIGIL_TIME));
    assert_eq!(sigil(&["2026-04-30T12:00:00Z"], ConflictPolicy::Error), Ok(SIGIL_TIME));
    assert_eq!(sigil(&["0xdeadbeef"], ConflictPolicy::Error), Ok(SIGIL_BINARY));
    assert_eq!(sigil(&["hello"], ConflictPolicy::Error), Ok(SIGIL_STRING));
    assert_eq!(sigil(&["null"], ConflictPolicy::Error), Ok(SIGIL_NULL));
    assert_eq!(sigil(&[""], ConflictPolicy::Error), Ok(SIGIL_NULL));
    assert_eq!(sigil(&[], ConflictPolicy::Error), Ok(SIGIL_NULL));
}

#[test]
fn integer_range_edges() {
    assert_eq!(sigil(&["9223372036854775807"], ConflictPolicy::Error), Ok(SIGIL_INT));
    assert_eq!(sigil(&["-9223372036854775808"], ConflictPolicy::Error), Ok(SIGIL_INT));
    assert_eq!(sigil(&["9223372036854775808"], ConflictPolicy::Error), Ok(SIGIL_FLOAT));
    assert_eq!(sigil(&["-9223372036854775809"], ConflictPolicy::Error), Ok(SIGIL_FLOAT));
}

#[test]
fn near_misses_are_strings() {
    assert_eq!(sigil(&["1.2.3"], ConflictPolicy::Error), Ok(SIGIL_STRING));
    assert_eq!(sigil(&[".5"], ConflictPolicy::Error), Ok(SIGIL_STRING));
    assert_eq!(sigil(&["5."], ConflictPolicy::Error), Ok(SIGIL_STRING));
    assert_eq!(sigil(&["-"], ConflictPolicy::Error), Ok(SIGIL_STRING));
    assert_eq!(sigil(&["0xabc"], ConflictPolicy::Error), Ok(SIGIL_STRING));
    assert_eq!(sigil(&["0x"], ConflictPolicy::Error), Ok(SIGIL_STRING));
    assert_eq!(sigil(&["2026-4-30"], ConflictPolicy::Error), Ok(SIGIL_STRING));
    assert_eq!(sigil(&["True"], ConflictPolicy::Error), Ok(SIGIL_STRING));
}

#[test]
fn ints_and_floats_widen_to_float() {
    assert_eq!(sigil(&["1", "2.5", "3"], ConflictPolicy::Error), Ok(SIGIL_FLOAT));
    assert_eq!(sigil(&["1", "null", "3"], ConflictPolicy::Error), Ok(SIGIL_INT));
}

#[test]
fn conflicts_follow_the_policy() {
    let vals = ["true", "7", "x"];
    assert_eq!(sigil(&vals, ConflictPolicy::Error), Err(NxsError::ListTypeMismatch));
    assert_eq!(sigil(&vals, ConflictPolicy::CoerceString), Ok(SIGIL_STRING));
    assert_eq!(sigil(&vals, ConflictPolicy::FirstWins), Ok(SIGIL_BOOL));
    assert_eq!(sigil(&["null", "3", "2.5", "x"], ConflictPolicy::FirstWins), Ok(SIGIL_FLOAT));
}

#[test]
fn observation_order_does_not_matter() {
    let a = state_of(&["1", "x", "2.0"]);
    let b = state_of(&["2.0", "1", "x"]);
    for p in [ConflictPolicy::Error, ConflictPolicy::CoerceString] {
        assert_eq!(a.resolve_sigil(p), b.resolve_sigil(p));
    }
    assert_eq!(a.total_records_seen_in, 3);
}

#[test]
fn observe_tracks_counts_and_first_sigil() {
    let s = state_of(&["", "abc", "1"]);
    assert!(s.seen_null && s.seen_string && s.seen_int);
    assert!(!s.seen_float && !s.seen_bool);
    assert_eq!(s.total_records_seen_in, 3);
    assert_eq!(s.first_sigil, Some(SIGIL_STRING));
}

fn rec(pairs: &[(&str, &str)]) -> Vec<(String, String)> {
    pairs.iter().map(|(k, v)| (k.to_string(), v.to_string())).collect()
}

#[test]
fn merge_tracks_keys_and_optionality() {
    let mut acc = InferredSchema::default();
    merge(&mut acc, &rec(&[("id", "1"), ("name", "a")]));
    merge(&mut acc, &rec(&[("id", "2"), ("score", "1.5")]));
    merge(&mut acc, &rec(&[("id", "3"), ("name", "b"), ("score", "2")]));
    assert_eq!(acc.records_merged, 3);
    let names: Vec<&str> = acc.keys.iter().map(|k| k.name.as_str()).collect();
    assert_eq!(names, vec!["id", "name", "score"]);
    let optional: Vec<bool> = acc.keys.iter().map(|k| k.optional).collect();
    assert_eq!(optional, vec![false, true, true]);
    let sigils: Vec<u8> = acc.keys.iter().map(|k| k.sigil).collect();
    assert_eq!(sigils, vec![SIGIL_INT, SIGIL_STRING, SIGIL_FLOAT]);
    assert!(acc.keys.iter().all(|k| k.list_of.is_none()));

    let schema = finalize(acc, ConflictPolicy::Error).unwrap();
    let sigils: Vec<u8> = schema.keys.iter().map(|k| k.sigil).collect();
    assert_eq!(sigils, vec![SIGIL_INT, SIGIL_STRING, SIGIL_FLOAT]);
    assert_eq!(schema.records_merged, 3);
}

#[test]
fn finalize_reports_conflicts_under_error_policy() {
    let mut acc = InferredSchema::default();
    merge(&mut acc, &rec(&[("v", "1")]));
    merge(&mut acc, &rec(&[("v", "yes")]));
    assert_eq!(acc.keys[0].sigil, SIGIL_STRING);
    let mut acc2 = InferredSchema::default();
    merge(&mut acc2, &rec(&[("v", "1")]));
    merge(&mut acc2, &rec(&[("v", "yes")]));
    assert!(matches!(finalize(acc, ConflictPolicy::Error), Err(NxsError::ListTypeMismatch)));
    let s = finalize(acc2, ConflictPolicy::FirstWins).unwrap();
    assert_eq!(s.keys[0].sigil, SIGIL_INT);
}

#[test]
fn duplicate_names_in_one_record_share_a_key() {
    let mut acc = InferredSchema::default();
    merge(&mut acc, &rec(&[("a", "1"), ("a", "2")]));
    assert_eq!(acc.keys.len(), 1);
    assert_eq!(acc.states[0].total_records_seen_in, 2);
    assert!(!acc.keys[0].optional);
}

#[test]
fn first_record_keys_are_required_until_missing() {
    let mut acc = InferredSchema::default();
    merge(&mut acc, &rec(&[("a", "1")]));
    assert!(!acc.keys[0].optional);
    merge(&mut acc, &rec(&[]));
    assert!(acc.keys[0].optional);
}
