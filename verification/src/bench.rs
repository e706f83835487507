//! The record counters of the format benchmark: each one reads a serialized
//! dataset back and reports how many records it holds.

use vstd::prelude::*;
use vstd::utf8::valid_utf8;
use crate::decoder::{decode, spec_decode};

verus! {

/// The number of non-overlapping occurrences of `pat` in `s`, scanning left
/// to right and resuming after each match (what `str::matches(..).count()`
/// computes for an ASCII pattern).
pub open spec fn count_matches(s: Seq<u8>, pat: Seq<u8>) -> nat
    decreases s.len(),
{
    if pat.len() == 0 || s.len() < pat.len() {
        0
    } else if s.take(pat.len() as int) == pat {
        1 + count_matches(s.skip(pat.len() as int), pat)
    } else {
        count_matches(s.skip(1), pat)
    }
}

/// The number of lines of a text (what `str::lines().count()` computes): one
/// per line feed, plus one for a last line that has no line feed.
pub open spec fn line_count(s: Seq<u8>) -> nat {
    s.filter(|b: u8| b == 10u8).len() + if s.len() > 0 && s.last() != 10u8 {
        1nat
    } else {
        0nat
    }
}

/// `"id":`, which opens every record of the JSON dataset.
pub open spec fn json_record_pattern() -> Seq<u8> {
    seq![34u8, 105u8, 100u8, 34u8, 58u8]
}

/// `<record>`, which opens every record of the XML dataset.
pub open spec fn xml_record_pattern() -> Seq<u8> {
    seq![60u8, 114u8, 101u8, 99u8, 111u8, 114u8, 100u8, 62u8]
}

/// Counts the non-overlapping occurrences of `pat` in `data`.
fn count_occurrences(data: &[u8], pat: &[u8]) -> (n: usize)
    requires
        pat@.len() > 0,
    ensures
        n as nat == count_matches(data@, pat@),
{
    let len = data.len();
    let plen = pat.len();
    let mut i: usize = 0;
    let mut n: usize = 0;
    assert(data@.skip(0) =~= data@);
    while i < len && len - i >= plen
        invariant
            i <= len,
            len == data@.len(),
            plen == pat@.len(),
            plen > 0,
            n <= i,
            n + count_matches(data@.skip(i as int), pat@) == count_matches(data@, pat@),
        decreases len - i,
    {
        let ghost rest = data@.skip(i as int);
        let mut k: usize = 0;
        let mut same = true;
        while k < plen
            invariant
                k <= plen,
                i + plen <= len,
                len == data@.len(),
                plen == pat@.len(),
                same == (forall|kk: int| 0 <= kk < k ==> data@[i + kk] == pat@[kk]),
            decreases plen - k,
        {
            if data[i + k] != pat[k] {
                same = false;
            }
            k = k + 1;
        }
        assert(same == (rest.take(plen as int) =~= pat@));
        if same {
            assert(rest.skip(plen as int) =~= data@.skip(i + plen));
            n = n + 1;
            i = i + plen;
        } else {
            assert(rest.skip(1) =~= data@.skip(i + 1));
            i = i + 1;
        }
    }
    assert(count_matches(data@.skip(i as int), pat@) == 0);
    n
}

/// Reads an `.nxb` dataset back: the number of fields of its root object.
pub fn deserialize_nxs(data: &[u8]) -> (n: usize)
    requires
        data@.len() <= isize::MAX,
        spec_decode(data@) is Ok,
    ensures
        n == spec_decode(data@)->Ok_0.root_fields.len(),
{
    match decode(data) {
        Ok(decoded) => decoded.root_fields.len(),
        Err(_) => 0,
    }
}

/// The wire writer's output is read back exactly as the compiler's.
pub fn deserialize_nxs_wire(data: &[u8]) -> (n: usize)
    requires
        data@.len() <= isize::MAX,
        spec_decode(data@) is Ok,
    ensures
        n == spec_decode(data@)->Ok_0.root_fields.len(),
{
    deserialize_nxs(data)
}

/// Reads a JSON dataset back: the number of `"id":` occurrences.
pub fn deserialize_json(data: &[u8]) -> (n: usize)
    requires
        valid_utf8(data@),
    ensures
        n == count_matches(data@, json_record_pattern()),
{
    let pat: [u8; 5] = [34u8, 105u8, 100u8, 34u8, 58u8];
    assert(pat@ =~= json_record_pattern());
    count_occurrences(data, &pat)
}

/// Reads an XML dataset back: the number of `<record>` elements.
pub fn deserialize_xml(data: &[u8]) -> (n: usize)
    requires
        valid_utf8(data@),
    ensures
        n == count_matches(data@, xml_record_pattern()),
{
    let pat: [u8; 8] = [60u8, 114u8, 101u8, 99u8, 111u8, 114u8, 100u8, 62u8];
    assert(pat@ =~= xml_record_pattern());
    count_occurrences(data, &pat)
}

/// Reads a CSV dataset back: its number of lines, less the header line.
pub fn deserialize_csv(data: &[u8]) -> (n: usize)
    requires
        valid_utf8(data@),
    ensures
        n == if line_count(data@) > 0 {
            line_count(data@) - 1
        } else {
            0
        },
{
    let len = data.len();
    let mut newlines: usize = 0;
    let mut i: usize = 0;
    while i < len
        invariant
            i <= len,
            len == data@.len(),
            newlines <= i,
            newlines == data@.take(i as int).filter(|b: u8| b == 10u8).len(),
        decreases len - i,
    {
        proof {
            reveal_with_fuel(Seq::<_>::filter, 1);
            assert(data@.take(i + 1).drop_last() =~= data@.take(i as int));
        }
        if data[i] == 10 {
            newlines = newlines + 1;
        }
        i = i + 1;
    }
    assert(data@.take(len as int) =~= data@);
    if len > 0 && data[len - 1] != 10 {
        newlines
    } else {
        newlines.saturating_sub(1)
    }
}

/// How many timed iterations each dataset size gets: 3 from a million
/// records, 5 from a hundred thousand, 10 below.
pub fn iters_for(n: usize) -> (iters: u32)
    ensures
        iters == if n >= 1_000_000 {
            3u32
        } else if n >= 100_000 {
            5u32
        } else {
            10u32
        },
{
    if n >= 1_000_000 {
        3
    } else if n >= 100_000 {
        5
    } else {
        10
    }
}

/// The unit a duration is shown in.
#[derive(Debug, Clone, Copy, PartialEq, Eq, Structural)]
pub enum TimeUnit {
    Nanos,
    Micros,
    Millis,
    Seconds,
}

pub open spec fn spec_time_unit(ns: int) -> TimeUnit {
    if ns < 1_000 {
        TimeUnit::Nanos
    } else if ns < 1_000_000 {
        TimeUnit::Micros
    } else if ns < 1_000_000_000 {
        TimeUnit::Millis
    } else {
        TimeUnit::Seconds
    }
}

/// The unit for a duration of `ns` nanoseconds: ns below a microsecond, µs
/// below a millisecond, ms below a second, s from a second.
pub fn time_unit(ns: u128) -> (u: TimeUnit)
    ensures
        u == spec_time_unit(ns as int),
{
    if ns < 1_000 {
        TimeUnit::Nanos
    } else if ns < 1_000_000 {
        TimeUnit::Micros
    } else if ns < 1_000_000_000 {
        TimeUnit::Millis
    } else {
        TimeUnit::Seconds
    }
}

/// The unit a byte count is shown in.
#[derive(Debug, Clone, Copy, PartialEq, Eq, Structural)]
pub enum SizeUnit {
    Bytes,
    Kilobytes,
    Megabytes,
}

pub open spec fn spec_size_unit(n: int) -> SizeUnit {
    if n < 1024 {
        SizeUnit::Bytes
    } else if n < 1024 * 1024 {
        SizeUnit::Kilobytes
    } else {
        SizeUnit::Megabytes
    }
}

/// The unit for `n` bytes: B below a KiB, KB below a MiB, MB from a MiB.
pub fn size_unit(n: usize) -> (u: SizeUnit)
    ensures
        u == spec_size_unit(n as int),
{
    if n < 1024 {
        SizeUnit::Bytes
    } else if n < 1024 * 1024 {
        SizeUnit::Kilobytes
    } else {
        SizeUnit::Megabytes
    }
}

} // verus!
