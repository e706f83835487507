//! Two-pass streaming sigil inference.
//!
//! Pass 1 iterates the source records and keeps a per-key lattice state
//! (`KeyState`); pass 2 is driven by the caller using the frozen schema.
//!
//! Each raw value is classified as exactly one of: null (empty text or
//! `null`), bool (`true`/`false`), int (optional `-`, decimal digits, within
//! the Int64 range), float (optional `-`, digits `.` digits, or an integer
//! beyond the Int64 range), time (`YYYY-MM-DD`, optionally followed by `T…`),
//! binary (`0x` followed by an even, non-zero number of hex digits), or string.

use vstd::prelude::*;
use super::{ConflictPolicy, InferredKey, InferredSchema};
use crate::cli::{is_digit, all_digits, digits_value};
use crate::error::NxsError;
use crate::text::str_chars;

verus! {

pub const SIGIL_INT: u8 = 0x3D;
pub const SIGIL_FLOAT: u8 = 0x7E;
pub const SIGIL_BOOL: u8 = 0x3F;
pub const SIGIL_STRING: u8 = 0x22;
pub const SIGIL_TIME: u8 = 0x40;
pub const SIGIL_BINARY: u8 = 0x3C;
pub const SIGIL_NULL: u8 = 0x5E;

// ---------------------------------------------------------------------------
// Classification of one raw value
// ---------------------------------------------------------------------------

pub open spec fn is_negative(s: Seq<char>) -> bool {
    s.len() > 0 && s[0] == '-'
}

/// The text after an optional leading `-`.
pub open spec fn signed_body(s: Seq<char>) -> Seq<char> {
    if is_negative(s) {
        s.drop_first()
    } else {
        s
    }
}

/// Optional `-` then decimal digits.
pub open spec fn is_integer_text(s: Seq<char>) -> bool {
    signed_body(s).len() > 0 && all_digits(signed_body(s))
}

/// The integer text is within the Int64 range.
pub open spec fn fits_i64(s: Seq<char>) -> bool {
    if is_negative(s) {
        digits_value(signed_body(s)) <= 0x8000_0000_0000_0000
    } else {
        digits_value(signed_body(s)) <= 0x7FFF_FFFF_FFFF_FFFF
    }
}

/// Optional `-`, then digits with exactly one `.` that is neither first nor last.
pub open spec fn is_decimal_text(s: Seq<char>) -> bool {
    is_decimal_body(signed_body(s))
}

/// Digits with exactly one `.` that is neither first nor last.
pub open spec fn is_decimal_body(b: Seq<char>) -> bool {
    &&& b.len() >= 3
    &&& b[0] != '.'
    &&& b.last() != '.'
    &&& forall|i: int| 0 <= i < b.len() ==> (#[trigger] b[i] == '.' || is_digit(b[i]))
    &&& b.filter(|c: char| c == '.').len() == 1
}

/// `YYYY-MM-DD`, alone or followed by `T` and a time of day.
pub open spec fn is_time_text(s: Seq<char>) -> bool {
    &&& s.len() >= 10
    &&& is_digit(s[0]) && is_digit(s[1]) && is_digit(s[2]) && is_digit(s[3])
    &&& s[4] == '-'
    &&& is_digit(s[5]) && is_digit(s[6])
    &&& s[7] == '-'
    &&& is_digit(s[8]) && is_digit(s[9])
    &&& (s.len() == 10 || s[10] == 'T')
}

pub open spec fn is_hex_digit(c: char) -> bool {
    ('0' <= c <= '9') || ('a' <= c <= 'f') || ('A' <= c <= 'F')
}

/// `0x` followed by an even, non-zero number of hex digits.
pub open spec fn is_hex_text(s: Seq<char>) -> bool {
    &&& s.len() >= 4
    &&& s[0] == '0'
    &&& s[1] == 'x'
    &&& s.len() % 2 == 0
    &&& forall|i: int| 2 <= i < s.len() ==> is_hex_digit(#[trigger] s[i])
}

pub open spec fn is_null_text(s: Seq<char>) -> bool {
    s.len() == 0 || s == seq!['n', 'u', 'l', 'l']
}

pub open spec fn is_bool_text(s: Seq<char>) -> bool {
    s == seq!['t', 'r', 'u', 'e'] || s == seq!['f', 'a', 'l', 's', 'e']
}

/// The sigil of one raw value.
pub open spec fn classify(s: Seq<char>) -> u8 {
    if is_null_text(s) {
        SIGIL_NULL
    } else if is_bool_text(s) {
        SIGIL_BOOL
    } else if is_integer_text(s) && fits_i64(s) {
        SIGIL_INT
    } else if is_integer_text(s) || is_decimal_text(s) {
        SIGIL_FLOAT
    } else if is_time_text(s) {
        SIGIL_TIME
    } else if is_hex_text(s) {
        SIGIL_BINARY
    } else {
        SIGIL_STRING
    }
}

} // verus!

verus! {

// ---------------------------------------------------------------------------
// Executable classification
// ---------------------------------------------------------------------------

fn is_digit_exec(c: char) -> (b: bool)
    ensures
        b == is_digit(c),
{
    '0' <= c && c <= '9'
}

/// Whether `s[start..]` is all digits and, if so, whether its value is at
/// most `limit`.
fn digits_within(s: &Vec<char>, start: usize, limit: u64) -> (r: (bool, bool))
    requires
        start <= s@.len(),
    ensures
        r.0 == all_digits(s@.skip(start as int)),
        r.0 ==> (r.1 == (digits_value(s@.skip(start as int)) <= limit)),
{
    let ghost body = s@.skip(start as int);
    let n = s.len();
    let mut value: u64 = 0;
    let mut over = false;
    let mut i = start;
    while i < n
        invariant
            n == s@.len(),
            start <= i <= n,
            body == s@.skip(start as int),
            forall|k: int| start <= k < i ==> is_digit(#[trigger] s@[k]),
            !over ==> value as int == digits_value(body.take(i - start)),
            !over ==> value <= limit,
            over ==> digits_value(body.take(i - start)) > limit,
        decreases n - i,
    {
        let c = s[i];
        assert(body[i - start] == c);
        if !is_digit_exec(c) {
            assert(!all_digits(body));
            return (false, false);
        }
        let d = (c as u32 - 48) as u64;
        assert(body.take(i - start + 1).drop_last() =~= body.take(i - start));
        assert(digits_value(body.take(i - start + 1)) == digits_value(body.take(i - start)) * 10
            + d);
        if !over {
            if d > limit || value > (limit - d) / 10 {
                over = true;
                assert(digits_value(body.take(i - start + 1)) > limit) by (nonlinear_arith)
                    requires
                        digits_value(body.take(i - start + 1)) == value * 10 + d,
                        d > limit || value > (limit - d) / 10,
                        d <= 9,
                        value >= 0,
                ;
            } else {
                assert(value * 10 + d <= limit) by (nonlinear_arith)
                    requires
                        d <= limit,
                        value <= (limit - d) / 10,
                        value >= 0,
                ;
                value = value * 10 + d;
            }
        }
        i = i + 1;
    }
    assert(body.take(n - start) =~= body);
    assert(all_digits(body));
    (true, !over)
}

fn is_null_chars(s: &Vec<char>) -> (b: bool)
    ensures
        b == is_null_text(s@),
{
    if s.len() == 0 {
        return true;
    }
    if s.len() == 4 && s[0] == 'n' && s[1] == 'u' && s[2] == 'l' && s[3] == 'l' {
        assert(s@ =~= seq!['n', 'u', 'l', 'l']);
        return true;
    }
    false
}

fn is_bool_chars(s: &Vec<char>) -> (b: bool)
    ensures
        b == is_bool_text(s@),
{
    if s.len() == 4 && s[0] == 't' && s[1] == 'r' && s[2] == 'u' && s[3] == 'e' {
        assert(s@ =~= seq!['t', 'r', 'u', 'e']);
        return true;
    }
    if s.len() == 5 && s[0] == 'f' && s[1] == 'a' && s[2] == 'l' && s[3] == 's' && s[4] == 'e' {
        assert(s@ =~= seq!['f', 'a', 'l', 's', 'e']);
        return true;
    }
    false
}

/// (is integer text, fits Int64).
fn integer_info(s: &Vec<char>) -> (r: (bool, bool))
    ensures
        r.0 == is_integer_text(s@),
        r.0 ==> (r.1 == fits_i64(s@)),
{
    let neg = s.len() > 0 && s[0] == '-';
    let start: usize = if neg {
        1
    } else {
        0
    };
    assert(signed_body(s@) =~= s@.skip(start as int));
    if start == s.len() {
        return (false, false);
    }
    let limit: u64 = if neg {
        0x8000_0000_0000_0000
    } else {
        0x7FFF_FFFF_FFFF_FFFF
    };
    digits_within(s, start, limit)
}

fn is_decimal_chars(s: &Vec<char>) -> (b: bool)
    ensures
        b == is_decimal_text(s@),
{
    let neg = s.len() > 0 && s[0] == '-';
    let start: usize = if neg {
        1
    } else {
        0
    };
    let ghost body = signed_body(s@);
    assert(body =~= s@.skip(start as int));
    let n = s.len();
    if n - start < 3 || s[start] == '.' || s[n - 1] == '.' {
        return false;
    }
    let mut dots: usize = 0;
    let mut i = start;
    while i < n
        invariant
            n == s@.len(),
            start <= i <= n,
            body == s@.skip(start as int),
            body == signed_body(s@),
            forall|k: int| 0 <= k < i - start ==> (#[trigger] body[k] == '.' || is_digit(body[k])),
            dots == body.take(i - start).filter(|c: char| c == '.').len(),
            dots <= i - start,
        decreases n - i,
    {
        let c = s[i];
        assert(body[i - start] == c);
        proof {
            reveal_with_fuel(Seq::<_>::filter, 1);
            assert(body.take(i - start + 1).drop_last() =~= body.take(i - start));
        }
        if c == '.' {
            dots = dots + 1;
        } else if !is_digit_exec(c) {
            assert(!(body[i - start] == '.' || is_digit(body[i - start])));
            return false;
        }
        i = i + 1;
    }
    assert(body.take(n - start) =~= body);
    dots == 1
}

fn is_time_chars(s: &Vec<char>) -> (b: bool)
    ensures
        b == is_time_text(s@),
{
    if s.len() < 10 {
        return false;
    }
    is_digit_exec(s[0]) && is_digit_exec(s[1]) && is_digit_exec(s[2]) && is_digit_exec(s[3])
        && s[4] == '-' && is_digit_exec(s[5]) && is_digit_exec(s[6]) && s[7] == '-'
        && is_digit_exec(s[8]) && is_digit_exec(s[9]) && (s.len() == 10 || s[10] == 'T')
}

fn is_hex_chars(s: &Vec<char>) -> (b: bool)
    ensures
        b == is_hex_text(s@),
{
    let n = s.len();
    if n < 4 || s[0] != '0' || s[1] != 'x' || n % 2 != 0 {
        return false;
    }
    let mut i: usize = 2;
    while i < n
        invariant
            n == s@.len(),
            2 <= i <= n,
            forall|k: int| 2 <= k < i ==> is_hex_digit(#[trigger] s@[k]),
        decreases n - i,
    {
        let c = s[i];
        if !(('0' <= c && c <= '9') || ('a' <= c && c <= 'f') || ('A' <= c && c <= 'F')) {
            assert(!is_hex_digit(s@[i as int]));
            return false;
        }
        i = i + 1;
    }
    true
}

/// The sigil of one raw value.
pub fn classify_value(s: &Vec<char>) -> (k: u8)
    ensures
        k == classify(s@),
{
    if is_null_chars(s) {
        return SIGIL_NULL;
    }
    if is_bool_chars(s) {
        return SIGIL_BOOL;
    }
    let (integer, fits) = integer_info(s);
    if integer && fits {
        return SIGIL_INT;
    }
    if integer || is_decimal_chars(s) {
        return SIGIL_FLOAT;
    }
    if is_time_chars(s) {
        return SIGIL_TIME;
    }
    if is_hex_chars(s) {
        return SIGIL_BINARY;
    }
    SIGIL_STRING
}

// ---------------------------------------------------------------------------
// The per-key lattice state
// ---------------------------------------------------------------------------

/// Per-key state maintained during pass 1: which kinds of value were seen,
/// how many values were observed, and the sigil of the first non-null value.
#[derive(Debug, Clone)]
pub struct KeyState {
    pub seen_int: bool,
    pub seen_float: bool,
    pub seen_bool: bool,
    pub seen_time: bool,
    pub seen_binary_hex: bool,
    pub seen_string: bool,
    pub seen_null: bool,
    pub total_records_seen_in: usize,
    pub first_sigil: Option<u8>,
}

/// The state of a key that has seen nothing yet.
pub open spec fn empty_state() -> KeyState {
    KeyState {
        seen_int: false,
        seen_float: false,
        seen_bool: false,
        seen_time: false,
        seen_binary_hex: false,
        seen_string: false,
        seen_null: false,
        total_records_seen_in: 0,
        first_sigil: None,
    }
}

impl Default for KeyState {
    fn default() -> (s: Self)
        ensures
            s == empty_state(),
    {
        KeyState {
            seen_int: false,
            seen_float: false,
            seen_bool: false,
            seen_time: false,
            seen_binary_hex: false,
            seen_string: false,
            seen_null: false,
            total_records_seen_in: 0,
            first_sigil: None,
        }
    }
}

/// The state after observing one value of sigil `k`: its flag is set, the
/// count goes up by one (saturating), and a first non-null sigil is kept.
pub open spec fn observed_kind(s: KeyState, k: u8) -> KeyState {
    KeyState {
        seen_int: s.seen_int || k == SIGIL_INT,
        seen_float: s.seen_float || k == SIGIL_FLOAT,
        seen_bool: s.seen_bool || k == SIGIL_BOOL,
        seen_time: s.seen_time || k == SIGIL_TIME,
        seen_binary_hex: s.seen_binary_hex || k == SIGIL_BINARY,
        seen_string: s.seen_string || k == SIGIL_STRING,
        seen_null: s.seen_null || k == SIGIL_NULL,
        total_records_seen_in: if s.total_records_seen_in < usize::MAX {
            (s.total_records_seen_in + 1) as usize
        } else {
            s.total_records_seen_in
        },
        first_sigil: if s.first_sigil is None && k != SIGIL_NULL {
            Some(k)
        } else {
            s.first_sigil
        },
    }
}

/// The state after observing the raw value `raw`.
pub open spec fn observed(s: KeyState, raw: Seq<char>) -> KeyState {
    observed_kind(s, classify(raw))
}

/// Whether any non-null kind was seen in the numeric group (int, float).
pub open spec fn seen_number(s: KeyState) -> bool {
    s.seen_int || s.seen_float
}

pub open spec fn flag(b: bool) -> nat {
    if b {
        1
    } else {
        0
    }
}

/// How many of the groups numeric, bool, time, binary and string were seen.
pub open spec fn group_count(s: KeyState) -> nat {
    flag(seen_number(s)) + flag(s.seen_bool) + flag(s.seen_time) + flag(s.seen_binary_hex)
        + flag(s.seen_string)
}

/// The sigil of the single group that was seen (numeric resolves to Float
/// when any float was seen, else Int).
pub open spec fn single_group_sigil(s: KeyState) -> u8 {
    if seen_number(s) {
        if s.seen_float {
            SIGIL_FLOAT
        } else {
            SIGIL_INT
        }
    } else if s.seen_bool {
        SIGIL_BOOL
    } else if s.seen_time {
        SIGIL_TIME
    } else if s.seen_binary_hex {
        SIGIL_BINARY
    } else {
        SIGIL_STRING
    }
}

/// The group of the first non-null value wins; its numeric group widens to
/// Float when any float was seen.
pub open spec fn first_group_sigil(s: KeyState) -> u8 {
    match s.first_sigil {
        Some(k) => if (k == SIGIL_INT || k == SIGIL_FLOAT) && s.seen_float {
            SIGIL_FLOAT
        } else {
            k
        },
        None => SIGIL_STRING,
    }
}

/// The sigil a key resolves to: Null when only nulls (or nothing) were seen,
/// the group's sigil when one group was seen, and otherwise what the policy
/// says: an `ERR_LIST_TYPE_MISMATCH` error, String, or the first value's group.
pub open spec fn spec_resolve(s: KeyState, policy: ConflictPolicy) -> Result<u8, NxsError> {
    if group_count(s) == 0 {
        Ok(SIGIL_NULL)
    } else if group_count(s) == 1 {
        Ok(single_group_sigil(s))
    } else {
        match policy {
            ConflictPolicy::Error => Err(NxsError::ListTypeMismatch),
            ConflictPolicy::CoerceString => Ok(SIGIL_STRING),
            ConflictPolicy::FirstWins => Ok(first_group_sigil(s)),
        }
    }
}

/// The sigil shown while inference is still running: conflicts read as String.
pub open spec fn provisional_sigil(s: KeyState) -> u8 {
    spec_resolve(s, ConflictPolicy::CoerceString)->Ok_0
}

/// The state after observing one raw value.
fn observed_state(s: &KeyState, raw: &str) -> (r: KeyState)
    ensures
        r == observed(*s, raw@),
{
    let chars = str_chars(raw);
    let k = classify_value(&chars);
    KeyState {
        seen_int: s.seen_int || k == SIGIL_INT,
        seen_float: s.seen_float || k == SIGIL_FLOAT,
        seen_bool: s.seen_bool || k == SIGIL_BOOL,
        seen_time: s.seen_time || k == SIGIL_TIME,
        seen_binary_hex: s.seen_binary_hex || k == SIGIL_BINARY,
        seen_string: s.seen_string || k == SIGIL_STRING,
        seen_null: s.seen_null || k == SIGIL_NULL,
        total_records_seen_in: s.total_records_seen_in.saturating_add(1),
        first_sigil: if s.first_sigil.is_none() && k != SIGIL_NULL {
            Some(k)
        } else {
            s.first_sigil
        },
    }
}

impl KeyState {
    /// Classifies a raw string value and merges it into `self`.
    pub fn observe(&mut self, raw: &str)
        ensures
            *final(self) == observed(*old(self), raw@),
    {
        let next = observed_state(self, raw);
        *self = next;
    }

    /// Collapses the accumulated flags to a single sigil.
    pub fn resolve_sigil(&self, policy: ConflictPolicy) -> (r: Result<u8, NxsError>)
        ensures
            r == spec_resolve(*self, policy),
    {
        let number = self.seen_int || self.seen_float;
        let groups: u8 = (number as u8) + (self.seen_bool as u8) + (self.seen_time as u8)
            + (self.seen_binary_hex as u8) + (self.seen_string as u8);
        if groups == 0 {
            return Ok(SIGIL_NULL);
        }
        if groups == 1 {
            if number {
                return Ok(
                    if self.seen_float {
                        SIGIL_FLOAT
                    } else {
                        SIGIL_INT
                    },
                );
            } else if self.seen_bool {
                return Ok(SIGIL_BOOL);
            } else if self.seen_time {
                return Ok(SIGIL_TIME);
            } else if self.seen_binary_hex {
                return Ok(SIGIL_BINARY);
            } else {
                return Ok(SIGIL_STRING);
            }
        }
        match policy {
            ConflictPolicy::Error => Err(NxsError::ListTypeMismatch),
            ConflictPolicy::CoerceString => Ok(SIGIL_STRING),
            ConflictPolicy::FirstWins => match self.first_sigil {
                Some(k) => {
                    if (k == SIGIL_INT || k == SIGIL_FLOAT) && self.seen_float {
                        Ok(SIGIL_FLOAT)
                    } else {
                        Ok(k)
                    }
                },
                None => Ok(SIGIL_STRING),
            },
        }
    }
}

} // verus!

verus! {

// ---------------------------------------------------------------------------
// Pass 1 over whole records
// ---------------------------------------------------------------------------

/// The pass-1 model of an accumulator: key names in order of first
/// appearance, their lattice states, and their optional flags.
pub struct Pass1 {
    pub names: Seq<Seq<char>>,
    pub states: Seq<KeyState>,
    pub optional: Seq<bool>,
}

pub open spec fn key_names(keys: Seq<InferredKey>) -> Seq<Seq<char>> {
    keys.map_values(|k: InferredKey| k.name@)
}

pub open spec fn key_optional(keys: Seq<InferredKey>) -> Seq<bool> {
    keys.map_values(|k: InferredKey| k.optional)
}

/// A record as (name, raw value) texts.
pub open spec fn record_view(r: Seq<(String, String)>) -> Seq<(Seq<char>, Seq<char>)> {
    r.map_values(|p: (String, String)| (p.0@, p.1@))
}

pub open spec fn pass1_of(acc: InferredSchema) -> Pass1 {
    Pass1 { names: key_names(acc.keys@), states: acc.states@, optional: key_optional(acc.keys@) }
}

/// The accumulator is consistent: one state per key, no key twice, and no
/// key optional before any record was merged.
pub open spec fn schema_wf(acc: InferredSchema) -> bool {
    &&& acc.keys@.len() == acc.states@.len()
    &&& acc.records_merged == 0 ==> forall|i: int|
        0 <= i < acc.keys@.len() ==> !(#[trigger] acc.keys@[i]).optional
    &&& forall|i: int, j: int|
        0 <= i < j < acc.keys@.len() ==> #[trigger] acc.keys@[i].name@ != #[trigger] acc.keys@[j].name@
}

/// The index of `name` among `names` at or after `i`, or -1.
pub open spec fn find_from(names: Seq<Seq<char>>, name: Seq<char>, i: int) -> int
    decreases names.len() - i,
{
    if i < 0 || i >= names.len() {
        -1
    } else if names[i] == name {
        i
    } else {
        find_from(names, name, i + 1)
    }
}

/// Observing one (name, raw) pair: an existing key's state absorbs the value;
/// a new key is appended, optional when earlier records lacked it.
pub open spec fn pass1_step(m: Pass1, name: Seq<char>, raw: Seq<char>, earlier: bool) -> Pass1 {
    if find_from(m.names, name, 0) >= 0 {
        Pass1 {
            names: m.names,
            states: m.states.update(
                find_from(m.names, name, 0),
                observed(m.states[find_from(m.names, name, 0)], raw),
            ),
            optional: m.optional,
        }
    } else {
        Pass1 {
            names: m.names.push(name),
            states: m.states.push(observed(empty_state(), raw)),
            optional: m.optional.push(earlier),
        }
    }
}

/// Observing every pair of a record, in order.
pub open spec fn pass1_pairs(m: Pass1, rec: Seq<(Seq<char>, Seq<char>)>, earlier: bool) -> Pass1
    decreases rec.len(),
{
    if rec.len() == 0 {
        m
    } else {
        pass1_step(pass1_pairs(m, rec.drop_last(), earlier), rec.last().0, rec.last().1, earlier)
    }
}

/// Whether the record names `name`.
pub open spec fn record_has(rec: Seq<(Seq<char>, Seq<char>)>, name: Seq<char>) -> bool {
    exists|j: int| 0 <= j < rec.len() && #[trigger] rec[j].0 == name
}

/// The accumulator after merging a record: every pair observed, then every
/// key the record lacks marked optional.
pub open spec fn spec_merge(m: Pass1, rec: Seq<(Seq<char>, Seq<char>)>, earlier: bool) -> Pass1 {
    Pass1 {
        names: pass1_pairs(m, rec, earlier).names,
        states: pass1_pairs(m, rec, earlier).states,
        optional: Seq::new(
            pass1_pairs(m, rec, earlier).names.len(),
            |i: int|
                pass1_pairs(m, rec, earlier).optional[i] || !record_has(
                    rec,
                    pass1_pairs(m, rec, earlier).names[i],
                ),
        ),
    }
}

proof fn lemma_pass1_lens(m: Pass1, rec: Seq<(Seq<char>, Seq<char>)>, earlier: bool)
    requires
        m.names.len() == m.states.len(),
        m.names.len() == m.optional.len(),
    ensures
        pass1_pairs(m, rec, earlier).names.len() == pass1_pairs(m, rec, earlier).states.len(),
        pass1_pairs(m, rec, earlier).names.len() == pass1_pairs(m, rec, earlier).optional.len(),
        pass1_pairs(m, rec, earlier).names.len() >= m.names.len(),
    decreases rec.len(),
{
    if rec.len() > 0 {
        lemma_pass1_lens(m, rec.drop_last(), earlier);
        let prev = pass1_pairs(m, rec.drop_last(), earlier);
        lemma_find_from_range(prev.names, rec.last().0, 0);
    }
}

/// `find_from` yields -1 or an index at or after `i` that holds `name`.
pub(crate) proof fn lemma_find_from_range(names: Seq<Seq<char>>, name: Seq<char>, i: int)
    requires
        0 <= i,
    ensures
        find_from(names, name, i) == -1 || (i <= find_from(names, name, i) < names.len()
            && names[find_from(names, name, i)] == name),
    decreases names.len() - i,
{
    if i < names.len() && names[i] != name {
        lemma_find_from_range(names, name, i + 1);
    }
}

/// Finds `name` among the keys (which hold no name twice).
pub(crate) fn find_key(keys: &Vec<InferredKey>, name: &String) -> (r: Option<usize>)
    ensures
        match r {
            Some(i) => i < keys@.len() && find_from(key_names(keys@), name@, 0) == i,
            None => find_from(key_names(keys@), name@, 0) == -1,
        },
{
    let ghost names = key_names(keys@);
    let mut i: usize = 0;
    while i < keys.len()
        invariant
            i <= keys@.len(),
            names == key_names(keys@),
            find_from(names, name@, 0) == find_from(names, name@, i as int),
        decreases keys@.len() - i,
    {
        if keys[i].name == *name {
            return Some(i);
        }
        i = i + 1;
    }
    None
}

/// Merges one record's observations into the accumulator.
pub fn merge(acc: &mut InferredSchema, record: &[(String, String)])
    requires
        schema_wf(*old(acc)),
    ensures
        schema_wf(*final(acc)),
        pass1_of(*final(acc)) == spec_merge(
            pass1_of(*old(acc)),
            record_view(record@),
            old(acc).records_merged > 0,
        ),
        forall|i: int|
            0 <= i < final(acc).keys@.len() ==> #[trigger] final(acc).keys@[i].sigil
                == provisional_sigil(final(acc).states@[i]),
        forall|i: int|
            0 <= i < final(acc).keys@.len() ==> #[trigger] final(acc).keys@[i].list_of == if i
                < old(acc).keys@.len() {
                old(acc).keys@[i].list_of
            } else {
                None
            },
        final(acc).records_merged == if old(acc).records_merged < usize::MAX {
            (old(acc).records_merged + 1) as usize
        } else {
            old(acc).records_merged
        },
{
    let ghost m0 = pass1_of(*acc);
    let ghost rec = record_view(record@);
    let ghost old_keys = acc.keys@;
    let earlier = acc.records_merged > 0;
    let mut present: Vec<bool> = Vec::new();
    let mut p: usize = 0;
    while p < acc.keys.len()
        invariant
            p <= acc.keys@.len(),
            present@.len() == p,
            forall|k: int| 0 <= k < p ==> !#[trigger] present@[k],
        decreases acc.keys@.len() - p,
    {
        present.push(false);
        p = p + 1;
    }
    proof {
        lemma_pass1_lens(m0, rec.take(0), earlier);
        assert(rec.take(0) =~= Seq::<(Seq<char>, Seq<char>)>::empty());
    }
    let mut j: usize = 0;
    while j < record.len()
        invariant
            j <= record@.len(),
            rec == record_view(record@),
            earlier == (acc.records_merged > 0),
            schema_wf(*acc),
            pass1_of(*acc) == pass1_pairs(m0, rec.take(j as int), earlier),
            present@.len() == acc.keys@.len(),
            forall|k: int|
                0 <= k < present@.len() ==> #[trigger] present@[k] == record_has(
                    rec.take(j as int),
                    key_names(acc.keys@)[k],
                ),
            acc.keys@.len() >= old_keys.len(),
            forall|k: int|
                0 <= k < acc.keys@.len() ==> #[trigger] acc.keys@[k].list_of == if k
                    < old_keys.len() {
                    old_keys[k].list_of
                } else {
                    None
                },
            acc.records_merged == old(acc).records_merged,
        decreases record@.len() - j,
    {
        let name = &record[j].0;
        let raw = &record[j].1;
        let ghost before = *acc;
        let ghost prefix = rec.take(j as int);
        assert(rec.take(j + 1).drop_last() =~= prefix);
        assert(rec.take(j + 1).last() == (name@, raw@));
        proof {
            lemma_find_from_range(key_names(acc.keys@), name@, 0);
        }
        match find_key(&acc.keys, name) {
            Some(i) => {
                let next = observed_state(&acc.states[i], raw.as_str());
                acc.states.set(i, next);
                present.set(i, true);
                proof {
                    assert(key_names(acc.keys@) =~= key_names(before.keys@));
                    assert forall|k: int| 0 <= k < present@.len() implies #[trigger] present@[k]
                        == record_has(rec.take(j + 1), key_names(acc.keys@)[k]) by {
                        if record_has(prefix, key_names(acc.keys@)[k]) {
                            let w = choose|w: int| 0 <= w < prefix.len() && #[trigger] prefix[w].0
                                == key_names(acc.keys@)[k];
                            assert(rec.take(j + 1)[w] == prefix[w]);
                        }
                        if k == i {
                            assert(rec.take(j + 1)[j as int].0 == key_names(acc.keys@)[k]);
                        } else if record_has(rec.take(j + 1), key_names(acc.keys@)[k]) {
                            let w = choose|w: int|
                                0 <= w < rec.take(j + 1).len() && #[trigger] rec.take(j + 1)[w].0
                                    == key_names(acc.keys@)[k];
                            if w == j {
                                assert(key_names(acc.keys@)[k] == key_names(acc.keys@)[i as int]);
                            } else {
                                assert(prefix[w] == rec.take(j + 1)[w]);
                            }
                        }
                    }
                    assert(pass1_of(*acc) =~= pass1_step(pass1_of(before), name@, raw@, earlier));
                }
            },
            None => {
                let state = observed_state(&KeyState::default(), raw.as_str());
                let key = InferredKey {
                    name: name.clone(),
                    sigil: SIGIL_NULL,
                    optional: earlier,
                    list_of: None,
                };
                acc.keys.push(key);
                acc.states.push(state);
                present.push(true);
                proof {
                    assert(key_names(acc.keys@) =~= key_names(before.keys@).push(name@));
                    assert(key_optional(acc.keys@) =~= key_optional(before.keys@).push(earlier));
                    if acc.records_merged == 0 {
                        assert forall|k: int| 0 <= k < acc.keys@.len() implies !(
                        #[trigger] acc.keys@[k]).optional by {
                            if k < before.keys@.len() {
                                assert(acc.keys@[k] == before.keys@[k]);
                            }
                        }
                    }
                    assert forall|k: int| 0 <= k < present@.len() implies #[trigger] present@[k]
                        == record_has(rec.take(j + 1), key_names(acc.keys@)[k]) by {
                        if record_has(prefix, key_names(acc.keys@)[k]) {
                            let w = choose|w: int| 0 <= w < prefix.len() && #[trigger] prefix[w].0
                                == key_names(acc.keys@)[k];
                            assert(rec.take(j + 1)[w] == prefix[w]);
                        }
                        if k == present@.len() - 1 {
                            assert(rec.take(j + 1)[j as int].0 == key_names(acc.keys@)[k]);
                        } else if record_has(rec.take(j + 1), key_names(acc.keys@)[k]) {
                            let w = choose|w: int|
                                0 <= w < rec.take(j + 1).len() && #[trigger] rec.take(j + 1)[w].0
                                    == key_names(acc.keys@)[k];
                            if w == j {
                                assert(find_from(key_names(before.keys@), name@, 0) == -1);
                                lemma_find_from_absent(key_names(before.keys@), name@, 0, k);
                            } else {
                                assert(prefix[w] == rec.take(j + 1)[w]);
                            }
                        }
                    }
                    assert forall|a: int, b: int|
                        0 <= a < b < acc.keys@.len() implies #[trigger] acc.keys@[a].name@
                        != #[trigger] acc.keys@[b].name@ by {
                        if b == acc.keys@.len() - 1 {
                            lemma_find_from_absent(key_names(before.keys@), name@, 0, a);
                        }
                    }
                    assert(pass1_of(*acc) =~= pass1_step(pass1_of(before), name@, raw@, earlier));
                }
            },
        }
        j = j + 1;
    }
    assert(rec.take(record@.len() as int) =~= rec);
    let ghost mid = *acc;
    proof {
        lemma_pass1_lens(m0, rec, earlier);
    }

    // Mark the keys this record lacks as optional; refresh provisional sigils.
    let mut i: usize = 0;
    while i < acc.keys.len()
        invariant
            i <= acc.keys@.len(),
            acc.keys@.len() == mid.keys@.len(),
            acc.states == mid.states,
            present@.len() == acc.keys@.len(),
            schema_wf(mid),
            key_names(acc.keys@) == key_names(mid.keys@),
            forall|k: int|
                0 <= k < present@.len() ==> #[trigger] present@[k] == record_has(
                    rec,
                    key_names(mid.keys@)[k],
                ),
            forall|k: int|
                0 <= k < acc.keys@.len() ==> #[trigger] acc.keys@[k].list_of == mid.keys@[k].list_of,
            forall|k: int|
                0 <= k < i ==> #[trigger] acc.keys@[k].optional == (mid.keys@[k].optional
                    || !present@[k]),
            forall|k: int| i <= k < acc.keys@.len() ==> #[trigger] acc.keys@[k].optional == mid.keys@[k].optional,
            forall|k: int|
                0 <= k < i ==> #[trigger] acc.keys@[k].sigil == provisional_sigil(acc.states@[k]),
            acc.records_merged == old(acc).records_merged,
        decreases acc.keys@.len() - i,
    {
        let st = &acc.states[i];
        let sigil = match st.resolve_sigil(ConflictPolicy::CoerceString) {
            Ok(s) => s,
            Err(_) => SIGIL_STRING,
        };
        let key = InferredKey {
            name: acc.keys[i].name.clone(),
            sigil,
            optional: acc.keys[i].optional || !present[i],
            list_of: acc.keys[i].list_of,
        };
        let ghost before = acc.keys@;
        acc.keys.set(i, key);
        assert(key_names(acc.keys@) =~= key_names(before));
        i = i + 1;
    }
    acc.records_merged = acc.records_merged.saturating_add(1);
    proof {
        assert(key_names(acc.keys@) =~= spec_merge(m0, rec, earlier).names);
        assert(key_optional(acc.keys@) =~= spec_merge(m0, rec, earlier).optional);
        assert forall|a: int, b: int|
            0 <= a < b < acc.keys@.len() implies #[trigger] acc.keys@[a].name@
            != #[trigger] acc.keys@[b].name@ by {
            assert(key_names(acc.keys@)[a] == key_names(mid.keys@)[a]);
            assert(key_names(acc.keys@)[b] == key_names(mid.keys@)[b]);
        }
    }
}

/// A name that `find_from` does not find is not among the names searched.
pub(crate) proof fn lemma_find_from_absent(names: Seq<Seq<char>>, name: Seq<char>, i: int, k: int)
    requires
        0 <= i <= k < names.len(),
        find_from(names, name, i) == -1,
    ensures
        names[k] != name,
    decreases k - i,
{
    if i < k {
        lemma_find_from_absent(names, name, i + 1, k);
    }
}

} // verus!

verus! {

/// Whether some key's state fails to resolve under `policy`.
pub open spec fn any_conflict(states: Seq<KeyState>, policy: ConflictPolicy) -> bool {
    exists|i: int| 0 <= i < states.len() && #[trigger] spec_resolve(states[i], policy) is Err
}

/// Freezes the accumulator into a schema: every key takes the sigil its state
/// resolves to under `policy`; names, optional flags, list element sigils,
/// states and the record count are kept. Fails with the first key's
/// resolution error when some key cannot be resolved.
pub fn finalize(acc: InferredSchema, policy: ConflictPolicy) -> (r: Result<InferredSchema, NxsError>)
    requires
        schema_wf(acc),
    ensures
        match r {
            Ok(s) => {
                &&& !any_conflict(acc.states@, policy)
                &&& schema_wf(s)
                &&& key_names(s.keys@) == key_names(acc.keys@)
                &&& key_optional(s.keys@) == key_optional(acc.keys@)
                &&& s.states@ == acc.states@
                &&& s.records_merged == acc.records_merged
                &&& forall|i: int|
                    0 <= i < s.keys@.len() ==> #[trigger] s.keys@[i].list_of == acc.keys@[i].list_of
                &&& forall|i: int|
                    0 <= i < s.keys@.len() ==> spec_resolve(acc.states@[i], policy) == Ok::<
                        u8,
                        NxsError,
                    >(#[trigger] s.keys@[i].sigil)
            },
            Err(e) => any_conflict(acc.states@, policy) && e == NxsError::ListTypeMismatch,
        },
{
    let mut keys: Vec<InferredKey> = Vec::new();
    let mut i: usize = 0;
    while i < acc.keys.len()
        invariant
            schema_wf(acc),
            i <= acc.keys@.len(),
            keys@.len() == i,
            forall|k: int| 0 <= k < i ==> #[trigger] keys@[k].name@ == acc.keys@[k].name@,
            forall|k: int| 0 <= k < i ==> #[trigger] keys@[k].optional == acc.keys@[k].optional,
            forall|k: int| 0 <= k < i ==> #[trigger] keys@[k].list_of == acc.keys@[k].list_of,
            forall|k: int|
                0 <= k < i ==> spec_resolve(acc.states@[k], policy) == Ok::<u8, NxsError>(
                    #[trigger] keys@[k].sigil,
                ),
        decreases acc.keys@.len() - i,
    {
        let sigil = match acc.states[i].resolve_sigil(policy) {
            Ok(s) => s,
            Err(e) => {
                assert(spec_resolve(acc.states@[i as int], policy) is Err);
                return Err(e);
            },
        };
        keys.push(
            InferredKey {
                name: acc.keys[i].name.clone(),
                sigil,
                optional: acc.keys[i].optional,
                list_of: acc.keys[i].list_of,
            },
        );
        i = i + 1;
    }
    proof {
        assert(key_names(keys@) =~= key_names(acc.keys@));
        assert(key_optional(keys@) =~= key_optional(acc.keys@));
        assert forall|k: int| 0 <= k < acc.states@.len() implies !(#[trigger] spec_resolve(
            acc.states@[k],
            policy,
        ) is Err) by {
            assert(spec_resolve(acc.states@[k], policy) == Ok::<u8, NxsError>(keys@[k].sigil));
        }
        assert forall|a: int, b: int| 0 <= a < b < keys@.len() implies #[trigger] keys@[a].name@
            != #[trigger] keys@[b].name@ by {
            assert(keys@[a].name@ == acc.keys@[a].name@);
            assert(keys@[b].name@ == acc.keys@[b].name@);
        }
    }
    let InferredSchema { keys: _, states, records_merged } = acc;
    Ok(InferredSchema { keys, states, records_merged })
}

} // verus!

verus! {

// ---------------------------------------------------------------------------
// Laws of the inference lattice
// ---------------------------------------------------------------------------

/// The kind flags of a state (everything but the count and the first sigil).
pub open spec fn same_flags(a: KeyState, b: KeyState) -> bool {
    &&& a.seen_int == b.seen_int
    &&& a.seen_float == b.seen_float
    &&& a.seen_bool == b.seen_bool
    &&& a.seen_time == b.seen_time
    &&& a.seen_binary_hex == b.seen_binary_hex
    &&& a.seen_string == b.seen_string
    &&& a.seen_null == b.seen_null
}

/// Streaming inference does not depend on the order of the values: observing
/// two values in either order gives the same flags and count, hence the same
/// sigil under the `Error` and `CoerceString` policies.
pub proof fn lemma_observe_order_independent(s: KeyState, a: Seq<char>, b: Seq<char>)
    ensures
        same_flags(observed(observed(s, a), b), observed(observed(s, b), a)),
        observed(observed(s, a), b).total_records_seen_in == observed(
            observed(s, b),
            a,
        ).total_records_seen_in,
        spec_resolve(observed(observed(s, a), b), ConflictPolicy::Error) == spec_resolve(
            observed(observed(s, b), a),
            ConflictPolicy::Error,
        ),
        spec_resolve(observed(observed(s, a), b), ConflictPolicy::CoerceString) == spec_resolve(
            observed(observed(s, b), a),
            ConflictPolicy::CoerceString,
        ),
{
}

/// Numeric widening: a key that saw only integers and floats (and nulls)
/// resolves to Float under every policy; one that saw only integers, to Int.
pub proof fn lemma_numbers_widen_to_float(s: KeyState, policy: ConflictPolicy)
    requires
        s.seen_float,
        !s.seen_bool,
        !s.seen_time,
        !s.seen_binary_hex,
        !s.seen_string,
    ensures
        spec_resolve(s, policy) == Ok::<u8, NxsError>(SIGIL_FLOAT),
{
}

/// Coercing conflicts to String never fails, and an unconflicted key resolves
/// the same way under every policy.
pub proof fn lemma_coerce_never_fails(s: KeyState, policy: ConflictPolicy)
    ensures
        spec_resolve(s, ConflictPolicy::CoerceString) is Ok,
        group_count(s) <= 1 ==> spec_resolve(s, policy) == spec_resolve(
            s,
            ConflictPolicy::CoerceString,
        ),
{
}

/// Under `FirstWins` the group of the first non-null value decides a conflict.
pub proof fn lemma_first_wins(s: KeyState, first: Seq<char>)
    requires
        s == observed(empty_state(), first),
        classify(first) == SIGIL_STRING,
    ensures
        forall|more: Seq<char>|
            spec_resolve(#[trigger] observed(s, more), ConflictPolicy::FirstWins) == Ok::<
                u8,
                NxsError,
            >(SIGIL_STRING),
{
}

} // verus!

verus! {

/// The accumulator after merging `recs` in order, starting from the empty one.
pub open spec fn merge_all(recs: Seq<Seq<(Seq<char>, Seq<char>)>>) -> Pass1
    decreases recs.len(),
{
    if recs.len() == 0 {
        Pass1 { names: seq![], states: seq![], optional: seq![] }
    } else {
        spec_merge(merge_all(recs.drop_last()), recs.last(), recs.len() > 1)
    }
}

/// Some record of `recs` names `name`.
pub open spec fn some_record_has(recs: Seq<Seq<(Seq<char>, Seq<char>)>>, name: Seq<char>) -> bool {
    exists|r: int| 0 <= r < recs.len() && record_has(#[trigger] recs[r], name)
}

/// Some record of `recs` lacks `name`.
pub open spec fn some_record_lacks(recs: Seq<Seq<(Seq<char>, Seq<char>)>>, name: Seq<char>) -> bool {
    exists|r: int| 0 <= r < recs.len() && !record_has(#[trigger] recs[r], name)
}

#[verifier::rlimit(40)]
proof fn lemma_pass1_pairs_facts(m: Pass1, rec: Seq<(Seq<char>, Seq<char>)>, earlier: bool)
    requires
        m.names.len() == m.states.len(),
        m.names.len() == m.optional.len(),
    ensures
        pass1_pairs(m, rec, earlier).names.len() == pass1_pairs(m, rec, earlier).optional.len(),
        pass1_pairs(m, rec, earlier).names.len() == pass1_pairs(m, rec, earlier).states.len(),
        pass1_pairs(m, rec, earlier).names.len() >= m.names.len(),
        forall|i: int|
            0 <= i < m.names.len() ==> #[trigger] pass1_pairs(m, rec, earlier).names[i]
                == m.names[i] && pass1_pairs(m, rec, earlier).optional[i] == m.optional[i],
        forall|i: int|
            m.names.len() <= i < pass1_pairs(m, rec, earlier).names.len() ==> (
            #[trigger] pass1_pairs(m, rec, earlier).optional[i]) == earlier && record_has(
                rec,
                pass1_pairs(m, rec, earlier).names[i],
            ),
        forall|name: Seq<char>|
            #[trigger] pass1_pairs(m, rec, earlier).names.contains(name) <==> (m.names.contains(
                name,
            ) || record_has(rec, name)),
        forall|i: int|
            m.names.len() <= i < pass1_pairs(m, rec, earlier).names.len() ==> !m.names.contains(
                #[trigger] pass1_pairs(m, rec, earlier).names[i],
            ),
    decreases rec.len(),
{
    if rec.len() > 0 {
        let prev = rec.drop_last();
        lemma_pass1_pairs_facts(m, prev, earlier);
        let p = pass1_pairs(m, prev, earlier);
        let name = rec.last().0;
        lemma_find_from_range(p.names, name, 0);
        let q = pass1_pairs(m, rec, earlier);
        assert forall|i: int|
            m.names.len() <= i < q.names.len() implies (#[trigger] q.optional[i]) == earlier
            && record_has(rec, q.names[i]) by {
            if i < p.names.len() {
                assert(p.optional[i] == earlier);
                assert(record_has(prev, p.names[i]));
                let w = choose|w: int| 0 <= w < prev.len() && #[trigger] prev[w].0 == p.names[i];
                assert(rec[w] == prev[w]);
                assert(rec[w].0 == q.names[i]);
            } else {
                assert(rec[rec.len() - 1].0 == name);
            }
        }
        assert forall|i: int| m.names.len() <= i < q.names.len() implies !m.names.contains(
            #[trigger] q.names[i],
        ) by {
            if i >= p.names.len() {
                assert(find_from(p.names, name, 0) == -1);
                if m.names.contains(q.names[i]) {
                    let k = choose|k: int| 0 <= k < m.names.len() && m.names[k] == q.names[i];
                    lemma_find_from_absent(p.names, name, 0, k);
                }
            } else {
                assert(q.names[i] == p.names[i]);
            }
        }
        assert forall|n: Seq<char>| #[trigger] q.names.contains(n) <==> (m.names.contains(n)
            || record_has(rec, n)) by {
            if record_has(prev, n) {
                let w = choose|w: int| 0 <= w < prev.len() && #[trigger] prev[w].0 == n;
                assert(rec[w] == prev[w]);
            }
            if record_has(rec, n) && !record_has(prev, n) {
                let w = choose|w: int| 0 <= w < rec.len() && #[trigger] rec[w].0 == n;
                if w < rec.len() - 1 {
                    assert(prev[w] == rec[w]);
                }
                assert(n == name);
                if find_from(p.names, name, 0) >= 0 {
                    assert(p.names[find_from(p.names, name, 0)] == n);
                } else {
                    assert(q.names[q.names.len() - 1] == n);
                }
            }
            if q.names.contains(n) {
                let k = choose|k: int| 0 <= k < q.names.len() && q.names[k] == n;
                if k < p.names.len() {
                    assert(p.names[k] == n);
                } else {
                    assert(rec[rec.len() - 1].0 == n);
                }
            }
            if m.names.contains(n) {
                let k = choose|k: int| 0 <= k < m.names.len() && m.names[k] == n;
                assert(q.names[k] == n);
            }
            if p.names.contains(n) {
                let k = choose|k: int| 0 <= k < p.names.len() && p.names[k] == n;
                assert(q.names[k] == n);
            }
        }
    }
}

/// The documented meaning of `optional`: after merging any sequence of records
/// into an empty accumulator, the keys are exactly the names that occur in
/// some record, and a key is optional exactly when some record lacks it.
pub proof fn lemma_optional_iff_absent(recs: Seq<Seq<(Seq<char>, Seq<char>)>>)
    ensures
        merge_all(recs).names.len() == merge_all(recs).optional.len(),
        merge_all(recs).names.len() == merge_all(recs).states.len(),
        forall|name: Seq<char>|
            #[trigger] merge_all(recs).names.contains(name) <==> some_record_has(recs, name),
        forall|i: int|
            0 <= i < merge_all(recs).names.len() ==> (#[trigger] merge_all(recs).optional[i]
                <==> some_record_lacks(recs, merge_all(recs).names[i])),
    decreases recs.len(),
{
    if recs.len() > 0 {
        let prev = recs.drop_last();
        let rec = recs.last();
        let earlier = recs.len() > 1;
        lemma_optional_iff_absent(prev);
        let m = merge_all(prev);
        lemma_pass1_pairs_facts(m, rec, earlier);
        let p = pass1_pairs(m, rec, earlier);
        let out = merge_all(recs);
        assert(out == spec_merge(m, rec, earlier));
        assert forall|name: Seq<char>| #[trigger] out.names.contains(name) <==> some_record_has(
            recs,
            name,
        ) by {
            assert(out.names == p.names);
            if some_record_has(recs, name) {
                let r = choose|r: int| 0 <= r < recs.len() && record_has(#[trigger] recs[r], name);
                if r < prev.len() {
                    assert(prev[r] == recs[r]);
                    assert(some_record_has(prev, name));
                }
            }
            if some_record_has(prev, name) {
                let r = choose|r: int| 0 <= r < prev.len() && record_has(#[trigger] prev[r], name);
                assert(recs[r] == prev[r]);
            }
            if record_has(rec, name) {
                assert(recs[recs.len() - 1] == rec);
            }
        }
        assert forall|i: int| 0 <= i < out.names.len() implies (#[trigger] out.optional[i]
            <==> some_record_lacks(recs, out.names[i])) by {
            let name = out.names[i];
            assert(out.optional[i] == (p.optional[i] || !record_has(rec, p.names[i])));
            if some_record_lacks(prev, name) {
                let r = choose|r: int| 0 <= r < prev.len() && !record_has(#[trigger] prev[r], name);
                assert(recs[r] == prev[r]);
            }
            if some_record_lacks(recs, name) {
                let r = choose|r: int| 0 <= r < recs.len() && !record_has(#[trigger] recs[r], name);
                if r < prev.len() {
                    assert(prev[r] == recs[r]);
                    assert(some_record_lacks(prev, name));
                }
            }
            if !record_has(rec, name) {
                assert(recs[recs.len() - 1] == rec);
            }
            if i >= m.names.len() {
                // a key first seen in this record
                assert(record_has(rec, name));
                assert(!m.names.contains(p.names[i]));
                if earlier {
                    assert(!some_record_has(prev, name));
                    assert(!record_has(prev[0], name));
                    assert(recs[0] == prev[0]);
                }
            }
        }
    }
}

/// A pass-1 state seeded with `names` before any record: every key present,
/// with an empty lattice state, and not optional.
pub open spec fn seeded(names: Seq<Seq<char>>) -> Pass1 {
    Pass1 {
        names,
        states: Seq::new(names.len(), |i: int| empty_state()),
        optional: Seq::new(names.len(), |i: int| false),
    }
}

/// The accumulator after merging `recs` in order into `m`.
pub open spec fn merge_onto(m: Pass1, recs: Seq<Seq<(Seq<char>, Seq<char>)>>) -> Pass1
    decreases recs.len(),
{
    if recs.len() == 0 {
        m
    } else {
        spec_merge(merge_onto(m, recs.drop_last()), recs.last(), recs.len() > 1)
    }
}

/// Every name that a record of `recs` holds is one of `names`.
pub open spec fn names_cover(names: Seq<Seq<char>>, recs: Seq<Seq<(Seq<char>, Seq<char>)>>) -> bool {
    forall|r: int, j: int|
        0 <= r < recs.len() && 0 <= j < recs[r].len() ==> names.contains(#[trigger] recs[r][j].0)
}

/// Keys declared up front (a CSV header): merging records whose names are all
/// declared keeps exactly the declared keys, in their order, and a key ends up
/// optional exactly when some record lacks it.
pub proof fn lemma_seeded_keys(names: Seq<Seq<char>>, recs: Seq<Seq<(Seq<char>, Seq<char>)>>)
    requires
        names_cover(names, recs),
    ensures
        merge_onto(seeded(names), recs).names == names,
        merge_onto(seeded(names), recs).optional.len() == names.len(),
        merge_onto(seeded(names), recs).states.len() == names.len(),
        forall|i: int|
            0 <= i < names.len() ==> (#[trigger] merge_onto(seeded(names), recs).optional[i]
                <==> some_record_lacks(recs, names[i])),
    decreases recs.len(),
{
    if recs.len() > 0 {
        let prev = recs.drop_last();
        let rec = recs.last();
        let earlier = recs.len() > 1;
        assert forall|r: int, j: int| 0 <= r < prev.len() && 0 <= j < prev[r].len() implies names.contains(
            #[trigger] prev[r][j].0,
        ) by {
            assert(prev[r] == recs[r]);
        }
        lemma_seeded_keys(names, prev);
        let m = merge_onto(seeded(names), prev);
        lemma_pass1_pairs_facts(m, rec, earlier);
        let p = pass1_pairs(m, rec, earlier);
        if p.names.len() > m.names.len() {
            let i = m.names.len() as int;
            assert(p.optional[i] == earlier);
            assert(record_has(rec, p.names[i]));
            let w = choose|w: int| 0 <= w < rec.len() && #[trigger] rec[w].0 == p.names[i];
            assert(recs[recs.len() - 1] == rec);
            assert(names.contains(recs[recs.len() - 1][w].0));
            assert(false);
        }
        assert(p.names =~= names);
        let out = merge_onto(seeded(names), recs);
        assert forall|i: int| 0 <= i < names.len() implies (#[trigger] out.optional[i]
            <==> some_record_lacks(recs, names[i])) by {
            let name = names[i];
            assert(out.optional[i] == (p.optional[i] || !record_has(rec, p.names[i])));
            if some_record_lacks(prev, name) {
                let r = choose|r: int| 0 <= r < prev.len() && !record_has(#[trigger] prev[r], name);
                assert(recs[r] == prev[r]);
            }
            if some_record_lacks(recs, name) {
                let r = choose|r: int| 0 <= r < recs.len() && !record_has(#[trigger] recs[r], name);
                if r < prev.len() {
                    assert(prev[r] == recs[r]);
                    assert(some_record_lacks(prev, name));
                }
            }
            if !record_has(rec, name) {
                assert(recs[recs.len() - 1] == rec);
            }
        }
    }
}

proof fn lemma_no_dots(x: Seq<char>)
    requires
        forall|i: int| 0 <= i < x.len() ==> '0' <= #[trigger] x[i] <= '9',
    ensures
        x.filter(|c: char| c == '.').len() == 0,
    decreases x.len(),
{
    reveal(Seq::filter);
    if x.len() > 0 {
        lemma_no_dots(x.drop_last());
    }
}

proof fn lemma_decimal_body(a: Seq<char>, b: Seq<char>)
    requires
        a.len() > 0,
        b.len() > 0,
        forall|i: int| 0 <= i < a.len() ==> '0' <= #[trigger] a[i] <= '9',
        forall|i: int| 0 <= i < b.len() ==> '0' <= #[trigger] b[i] <= '9',
    ensures
        is_decimal_body(a + seq!['.'] + b),
        !all_digits(a + seq!['.'] + b),
{
    let s = a + seq!['.'] + b;
    lemma_no_dots(a);
    lemma_no_dots(b);
    vstd::seq::Seq::filter_distributes_over_add(a + seq!['.'], b, |c: char| c == '.');
    vstd::seq::Seq::filter_distributes_over_add(a, seq!['.'], |c: char| c == '.');
    reveal_with_fuel(Seq::filter, 2);
    assert(seq!['.'].drop_last() =~= Seq::<char>::empty());
    assert(seq!['.'].filter(|c: char| c == '.').len() == 1);
    assert(s[a.len() as int] == '.');
    assert(s[0] == a[0]);
    assert(s.last() == b.last());
    assert forall|i: int| 0 <= i < s.len() implies (#[trigger] s[i] == '.' || is_digit(s[i])) by {
        if i < a.len() {
            assert(s[i] == a[i]);
        } else if i > a.len() {
            assert(s[i] == b[i - a.len() - 1]);
        }
    }
}

/// A decimal number is a Float, whatever its sign: for digit strings `a` and
/// `b`, both `a.b` and `-a.b` are classified as Float64 (`~`), so a column of
/// signed decimals resolves to Float.
pub proof fn lemma_decimals_are_floats(a: Seq<char>, b: Seq<char>)
    requires
        a.len() > 0,
        b.len() > 0,
        forall|i: int| 0 <= i < a.len() ==> '0' <= #[trigger] a[i] <= '9',
        forall|i: int| 0 <= i < b.len() ==> '0' <= #[trigger] b[i] <= '9',
    ensures
        classify(a + seq!['.'] + b) == 0x7Eu8,
        classify(seq!['-'] + a + seq!['.'] + b) == 0x7Eu8,
{
    let s = a + seq!['.'] + b;
    let n = seq!['-'] + s;
    lemma_decimal_body(a, b);
    assert(seq!['-'] + a + seq!['.'] + b =~= n);
    assert(n.drop_first() =~= s);
    assert(s[a.len() as int] == '.');
    assert(n[a.len() as int + 1] == '.');
    assert(!all_digits(n.drop_first()));
    assert(s != seq!['n', 'u', 'l', 'l']) by {
        if s.len() == 4 {
            assert(s[a.len() as int] == '.');
        }
    }
    assert(s != seq!['t', 'r', 'u', 'e'] && s != seq!['f', 'a', 'l', 's', 'e']) by {
        if s.len() == 4 || s.len() == 5 {
            assert(s[a.len() as int] == '.');
        }
    }
    assert(n != seq!['n', 'u', 'l', 'l'] && n != seq!['t', 'r', 'u', 'e'] && n != seq![
        'f',
        'a',
        'l',
        's',
        'e',
    ]) by {
        assert(n[0] == '-');
    }
}

} // verus!
