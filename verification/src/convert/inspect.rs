//! `.nxb` → human/JSON report. Reuses the decoder for the structural walk:
//! the preamble and schema keys, then the tail-index and the records it points
//! to; the report is rendered as text (default) or JSON.

use vstd::prelude::*;
use super::{InspectArgs, InspectReport};
use super::render::{json_string, json_value, text_value, push_json_string, push_json_value, push_text_value};
use crate::decoder::{
    DecodedFile, DecodedValue, FileView, ValueView, decode, decode_record, entries_view,
    fields_view, jumbo_flag, read_tail_index, spec_decode, spec_decode_object, spec_tail_index,
    strings_view,
};
use crate::error::NxsError;
use crate::hash::{check_dict_hash, dict_hash_check};
use crate::text::{decimal, push_char, push_decimal};

verus! {

/// The records that the first `n` tail-index entries point to, decoded with
/// the file's keys, TypeManifest and offset width; the first record that
/// fails to decode makes the whole walk fail.
pub open spec fn spec_records(
    d: Seq<u8>,
    entries: Seq<(int, int)>,
    f: FileView,
    n: nat,
) -> Result<Seq<Seq<(Seq<char>, ValueView)>>, NxsError>
    decreases n,
{
    if n == 0 {
        Ok(seq![])
    } else {
        match spec_records(d, entries, f, (n - 1) as nat) {
            Err(e) => Err(e),
            Ok(prev) => match spec_decode_object(
                d,
                entries[n - 1].1,
                f.keys,
                f.sigils,
                jumbo_flag(f.flags as int),
            ) {
                Ok(f) => Ok(prev.push(f)),
                Err(e) => Err(e),
            },
        }
    }
}

/// What the inspector reads from a file.
pub struct Inspection {
    pub file: FileView,
    pub entries: Seq<(int, int)>,
    pub records: Seq<Seq<(Seq<char>, ValueView)>>,
}

/// How many records are shown: all of them, or at most the requested number.
pub open spec fn shown_count(total: nat, limit: Option<usize>) -> nat {
    match limit {
        None => total,
        Some(n) => if n < total {
            n as nat
        } else {
            total
        },
    }
}

/// The decoded file, its tail-index, and the first records it points to.
pub open spec fn spec_inspect(d: Seq<u8>, limit: Option<usize>) -> Result<Inspection, NxsError> {
    match spec_decode(d) {
        Err(e) => Err(e),
        Ok(f) => match spec_tail_index(d, f.tail_ptr as int) {
            Err(e) => Err(e),
            Ok(entries) => match spec_records(d, entries, f, shown_count(entries.len(), limit)) {
                Err(e) => Err(e),
                Ok(records) => Ok(Inspection { file: f, entries, records }),
            },
        },
    }
}

pub open spec fn records_view(v: Seq<Vec<(String, DecodedValue)>>) -> Seq<Seq<(Seq<char>, ValueView)>> {
    v.map_values(|r: Vec<(String, DecodedValue)>| fields_view(r@))
}

// ---------------------------------------------------------------------------
// The text report
// ---------------------------------------------------------------------------

pub open spec fn text_keys(keys: Seq<Seq<char>>) -> Seq<char>
    decreases keys.len(),
{
    if keys.len() == 0 {
        seq![]
    } else {
        text_keys(keys.drop_last()) + "  "@ + keys.last() + "\n"@
    }
}

pub open spec fn text_fields(fields: Seq<(Seq<char>, ValueView)>) -> Seq<char>
    decreases fields.len(),
{
    if fields.len() == 0 {
        seq![]
    } else {
        text_fields(fields.drop_last()) + "  "@ + fields.last().0 + " = "@ + text_value(
            fields.last().1,
        ) + "\n"@
    }
}

pub open spec fn text_records(
    entries: Seq<(int, int)>,
    records: Seq<Seq<(Seq<char>, ValueView)>>,
) -> Seq<char>
    decreases records.len(),
{
    if records.len() == 0 {
        seq![]
    } else {
        text_records(entries, records.drop_last()) + "record "@ + decimal(
            (records.len() - 1) as nat,
        ) + " @ "@ + decimal(entries[records.len() - 1].1 as nat) + ":\n"@ + text_fields(
            records.last(),
        )
    }
}

/// The preamble, the dictionary keys (one per line) and the record count.
pub open spec fn text_header(f: FileView, count: nat) -> Seq<char> {
    "version: "@ + decimal(f.version as nat) + "\n"@ + "flags: "@ + decimal(f.flags as nat)
        + "\n"@ + "dict_hash: "@ + decimal(f.dict_hash as nat) + "\n"@ + "tail_ptr: "@ + decimal(
        f.tail_ptr as nat,
    ) + "\n"@ + "keys: "@ + decimal(f.keys.len()) + "\n"@ + text_keys(f.keys) + "records: "@
        + decimal(count) + "\n"@
}

pub open spec fn text_report(ins: Inspection) -> Seq<char> {
    text_header(ins.file, ins.entries.len()) + text_records(ins.entries, ins.records)
}

// ---------------------------------------------------------------------------
// The JSON report
// ---------------------------------------------------------------------------

pub open spec fn comma(first: bool) -> Seq<char> {
    if first {
        seq![]
    } else {
        seq![',']
    }
}

pub open spec fn json_keys(keys: Seq<Seq<char>>) -> Seq<char>
    decreases keys.len(),
{
    if keys.len() == 0 {
        seq![]
    } else {
        json_keys(keys.drop_last()) + comma(keys.len() == 1) + json_string(keys.last())
    }
}

pub open spec fn json_members(fields: Seq<(Seq<char>, ValueView)>) -> Seq<char>
    decreases fields.len(),
{
    if fields.len() == 0 {
        seq![]
    } else {
        json_members(fields.drop_last()) + comma(fields.len() == 1) + json_string(fields.last().0)
            + seq![':'] + json_value(fields.last().1)
    }
}

/// A record as a JSON object, members in key order.
pub open spec fn json_object(fields: Seq<(Seq<char>, ValueView)>) -> Seq<char> {
    seq!['{'] + json_members(fields) + seq!['}']
}

pub open spec fn json_objects(records: Seq<Seq<(Seq<char>, ValueView)>>) -> Seq<char>
    decreases records.len(),
{
    if records.len() == 0 {
        seq![]
    } else {
        json_objects(records.drop_last()) + comma(records.len() == 1) + json_object(records.last())
    }
}

pub open spec fn json_report(ins: Inspection) -> Seq<char> {
    "{\"version\":"@ + decimal(ins.file.version as nat) + ",\"flags\":"@ + decimal(
        ins.file.flags as nat,
    ) + ",\"dict_hash\":"@ + decimal(ins.file.dict_hash as nat) + ",\"tail_ptr\":"@ + decimal(
        ins.file.tail_ptr as nat,
    ) + ",\"keys\":["@ + json_keys(ins.file.keys) + "],\"record_count\":"@ + decimal(
        ins.entries.len(),
    ) + ",\"records\":["@ + json_objects(ins.records) + "]}"@
}

// ---------------------------------------------------------------------------
// Executable walk and renderers
// ---------------------------------------------------------------------------

/// Decodes the file, its tail-index, and the first `limit` records.
pub fn inspect_data(data: &[u8], limit: Option<usize>) -> (r: Result<
    (DecodedFile, Vec<(u16, u64)>, Vec<Vec<(String, DecodedValue)>>),
    NxsError,
>)
    requires
        data@.len() <= isize::MAX,
    ensures
        match r {
            Ok((f, entries, records)) => spec_inspect(data@, limit) == Ok::<Inspection, NxsError>(
                Inspection {
                    file: f@,
                    entries: entries_view(entries@),
                    records: records_view(records@),
                },
            ),
            Err(e) => spec_inspect(data@, limit) == Err::<Inspection, NxsError>(e),
        },
        r is Ok ==> r->Ok_0.2@.len() <= r->Ok_0.1@.len(),
{
    let file = match decode(data) {
        Ok(f) => f,
        Err(e) => {
            return Err(e);
        },
    };
    let entries = match read_tail_index(data, file.tail_ptr) {
        Ok(v) => v,
        Err(e) => {
            return Err(e);
        },
    };
    let total = entries.len();
    let shown = match limit {
        None => total,
        Some(n) => if n < total {
            n
        } else {
            total
        },
    };
    let ghost ev = entries_view(entries@);
    let ghost kv = strings_view(file.keys@);
    let mut records: Vec<Vec<(String, DecodedValue)>> = Vec::new();
    let mut i: usize = 0;
    assert(records_view(records@) =~= Seq::<Seq<(Seq<char>, ValueView)>>::empty());
    while i < shown
        invariant
            data@.len() <= isize::MAX,
            shown <= entries@.len(),
            ev == entries_view(entries@),
            kv == strings_view(file.keys@),
            i <= shown,
            records@.len() == i,
            spec_decode(data@) == Ok::<FileView, NxsError>(file@),
            spec_tail_index(data@, file.tail_ptr as int) == Ok::<Seq<(int, int)>, NxsError>(ev),
            shown as nat == shown_count(ev.len(), limit),
            spec_records(data@, ev, file@, i as nat) == Ok::<
                Seq<Seq<(Seq<char>, ValueView)>>,
                NxsError,
            >(records_view(records@)),
        decreases shown - i,
    {
        let rec = match decode_record(
            data,
            entries[i].1,
            file.keys.as_slice(),
            file.sigils.as_slice(),
            file.flags % 2 == 1,
        ) {
            Ok(r) => r,
            Err(e) => {
                proof {
                    lemma_records_err(data@, ev, file@, (i + 1) as nat, shown as nat);
                }
                return Err(e);
            },
        };
        let ghost before = records@;
        records.push(rec);
        assert(records_view(records@) =~= records_view(before).push(fields_view(rec@)));
        i = i + 1;
    }
    Ok((file, entries, records))
}

/// Once the walk has failed, walking further fails the same way.
proof fn lemma_records_err(
    d: Seq<u8>,
    entries: Seq<(int, int)>,
    f: FileView,
    n: nat,
    m: nat,
)
    requires
        n <= m,
        spec_records(d, entries, f, n) is Err,
    ensures
        spec_records(d, entries, f, m) == spec_records(d, entries, f, n),
    decreases m - n,
{
    if n < m {
        lemma_records_err(d, entries, f, n, (m - 1) as nat);
    }
}

fn push_text_fields(out: &mut String, fields: &Vec<(String, DecodedValue)>)
    ensures
        final(out)@ == old(out)@ + text_fields(fields_view(fields@)),
{
    let ghost fv = fields_view(fields@);
    let mut i: usize = 0;
    assert(fv.take(0) =~= Seq::<(Seq<char>, ValueView)>::empty());
    assert(out@ =~= old(out)@ + text_fields(fv.take(0)));
    while i < fields.len()
        invariant
            fv == fields_view(fields@),
            i <= fields@.len(),
            out@ == old(out)@ + text_fields(fv.take(i as int)),
        decreases fields@.len() - i,
    {
        out.append("  ");
        out.append(fields[i].0.as_str());
        out.append(" = ");
        push_text_value(out, &fields[i].1);
        out.append("\n");
        assert(fv.take(i + 1).drop_last() =~= fv.take(i as int));
        assert(out@ =~= old(out)@ + text_fields(fv.take(i + 1)));
        i = i + 1;
    }
    assert(fv.take(fields@.len() as int) =~= fv);
}

pub fn push_json_object(out: &mut String, fields: &Vec<(String, DecodedValue)>)
    ensures
        final(out)@ == old(out)@ + json_object(fields_view(fields@)),
{
    let ghost fv = fields_view(fields@);
    push_char(out, '{');
    let ghost start = out@;
    let mut i: usize = 0;
    assert(fv.take(0) =~= Seq::<(Seq<char>, ValueView)>::empty());
    assert(out@ =~= start + json_members(fv.take(0)));
    while i < fields.len()
        invariant
            fv == fields_view(fields@),
            i <= fields@.len(),
            out@ == start + json_members(fv.take(i as int)),
        decreases fields@.len() - i,
    {
        if i > 0 {
            push_char(out, ',');
        }
        push_json_string(out, fields[i].0.as_str());
        push_char(out, ':');
        push_json_value(out, &fields[i].1);
        assert(fv.take(i + 1).drop_last() =~= fv.take(i as int));
        assert(out@ =~= start + json_members(fv.take(i + 1)));
        i = i + 1;
    }
    assert(fv.take(fields@.len() as int) =~= fv);
    push_char(out, '}');
    assert(final(out)@ =~= old(out)@ + json_object(fv));
}

/// Renders the text report of the first records.
#[verifier::rlimit(40)]
#[verifier::spinoff_prover]
pub fn text_report_of(
    f: &DecodedFile,
    entries: &Vec<(u16, u64)>,
    records: &Vec<Vec<(String, DecodedValue)>>,
) -> (out: String)
    requires
        records@.len() <= entries@.len(),
    ensures
        out@ == text_report(
            Inspection {
                file: f@,
                entries: entries_view(entries@),
                records: records_view(records@),
            },
        ),
{
    let ghost kv = strings_view(f.keys@);
    let ghost ev = entries_view(entries@);
    let ghost rv = records_view(records@);
    let mut out = String::from_str("version: ");
    push_decimal(&mut out, f.version as u64);
    out.append("\n");
    out.append("flags: ");
    push_decimal(&mut out, f.flags as u64);
    out.append("\n");
    out.append("dict_hash: ");
    push_decimal(&mut out, f.dict_hash);
    out.append("\n");
    out.append("tail_ptr: ");
    push_decimal(&mut out, f.tail_ptr);
    out.append("\n");
    out.append("keys: ");
    push_decimal(&mut out, f.keys.len() as u64);
    out.append("\n");
    let ghost start = out@;
    let mut i: usize = 0;
    assert(kv.take(0) =~= Seq::<Seq<char>>::empty());
    assert(out@ =~= start + text_keys(kv.take(0)));
    while i < f.keys.len()
        invariant
            kv == strings_view(f.keys@),
            i <= f.keys@.len(),
            out@ == start + text_keys(kv.take(i as int)),
        decreases f.keys@.len() - i,
    {
        out.append("  ");
        out.append(f.keys[i].as_str());
        out.append("\n");
        assert(kv.take(i + 1).drop_last() =~= kv.take(i as int));
        assert(out@ =~= start + text_keys(kv.take(i + 1)));
        i = i + 1;
    }
    assert(kv.take(f.keys@.len() as int) =~= kv);
    out.append("records: ");
    push_decimal(&mut out, entries.len() as u64);
    out.append("\n");
    assert(out@ =~= text_header(f@, ev.len()));
    let ghost head = out@;
    let mut k: usize = 0;
    assert(rv.take(0) =~= Seq::<Seq<(Seq<char>, ValueView)>>::empty());
    assert(out@ =~= head + text_records(ev, rv.take(0)));
    while k < records.len()
        invariant
            rv == records_view(records@),
            ev == entries_view(entries@),
            records@.len() <= entries@.len(),
            k <= records@.len(),
            out@ == head + text_records(ev, rv.take(k as int)),
        decreases records@.len() - k,
    {
        out.append("record ");
        push_decimal(&mut out, k as u64);
        out.append(" @ ");
        push_decimal(&mut out, entries[k].1);
        out.append(":\n");
        push_text_fields(&mut out, &records[k]);
        assert(rv.take(k + 1).drop_last() =~= rv.take(k as int));
        assert(out@ =~= head + text_records(ev, rv.take(k + 1)));
        k = k + 1;
    }
    assert(rv.take(records@.len() as int) =~= rv);
    out
}

/// Renders the JSON report of the first records.
pub fn json_report_of(
    f: &DecodedFile,
    entries: &Vec<(u16, u64)>,
    records: &Vec<Vec<(String, DecodedValue)>>,
) -> (out: String)
    ensures
        out@ == json_report(
            Inspection {
                file: f@,
                entries: entries_view(entries@),
                records: records_view(records@),
            },
        ),
{
    let ghost kv = strings_view(f.keys@);
    let ghost rv = records_view(records@);
    let mut out = String::from_str("{\"version\":");
    push_decimal(&mut out, f.version as u64);
    out.append(",\"flags\":");
    push_decimal(&mut out, f.flags as u64);
    out.append(",\"dict_hash\":");
    push_decimal(&mut out, f.dict_hash);
    out.append(",\"tail_ptr\":");
    push_decimal(&mut out, f.tail_ptr);
    out.append(",\"keys\":[");
    let ghost start = out@;
    let mut i: usize = 0;
    assert(kv.take(0) =~= Seq::<Seq<char>>::empty());
    assert(out@ =~= start + json_keys(kv.take(0)));
    while i < f.keys.len()
        invariant
            kv == strings_view(f.keys@),
            i <= f.keys@.len(),
            out@ == start + json_keys(kv.take(i as int)),
        decreases f.keys@.len() - i,
    {
        if i > 0 {
            push_char(&mut out, ',');
        }
        push_json_string(&mut out, f.keys[i].as_str());
        assert(kv.take(i + 1).drop_last() =~= kv.take(i as int));
        assert(out@ =~= start + json_keys(kv.take(i + 1)));
        i = i + 1;
    }
    assert(kv.take(f.keys@.len() as int) =~= kv);
    out.append("],\"record_count\":");
    push_decimal(&mut out, entries.len() as u64);
    out.append(",\"records\":[");
    let ghost mid = out@;
    let mut k: usize = 0;
    assert(rv.take(0) =~= Seq::<Seq<(Seq<char>, ValueView)>>::empty());
    assert(out@ =~= mid + json_objects(rv.take(0)));
    while k < records.len()
        invariant
            rv == records_view(records@),
            k <= records@.len(),
            out@ == mid + json_objects(rv.take(k as int)),
        decreases records@.len() - k,
    {
        if k > 0 {
            push_char(&mut out, ',');
        }
        push_json_object(&mut out, &records[k]);
        assert(rv.take(k + 1).drop_last() =~= rv.take(k as int));
        assert(out@ =~= mid + json_objects(rv.take(k + 1)));
        k = k + 1;
    }
    assert(rv.take(records@.len() as int) =~= rv);
    out.append("]}");
    proof {
        let ins = Inspection { file: f@, entries: entries_view(entries@), records: rv };
        assert(out@ =~= json_report(ins));
    }
    out
}

/// The report the inspector returns besides its text: the record count of
/// the tail-index and, under `--verify-hash`, whether the recomputed DictHash
/// matches the preamble's (`None` without that flag or without a schema
/// header to hash; a mismatch is an error, so never `Some(false)`).
pub open spec fn report_matches(rep: InspectReport, ins: Inspection, d: Seq<u8>, verify: bool) -> bool {
    &&& rep.record_count == ins.entries.len()
    &&& rep.dict_hash_ok == if verify {
        dict_hash_check(d)
    } else {
        None
    }
}

/// The inspector's outcome for `data`, whichever format it renders: the
/// decoder's error when the file does not inspect, `DictMismatch` when
/// `--verify-hash` finds that the DictHash is not the schema header's hash,
/// and otherwise the inspection.
pub open spec fn inspect_outcome(d: Seq<u8>, args: InspectArgs) -> Result<Inspection, NxsError> {
    match spec_inspect(d, args.records_to_show) {
        Err(e) => Err(e),
        Ok(ins) => if args.verify_hash && dict_hash_check(d) == Some(false) {
            Err(NxsError::DictMismatch)
        } else {
            Ok(ins)
        },
    }
}

/// The report of an inspection, or the error that stops it.
fn finish_report(
    data: &[u8],
    args: &InspectArgs,
    out: String,
    record_count: usize,
) -> (r: Result<(String, InspectReport), NxsError>)
    requires
        data@.len() <= isize::MAX,
        spec_decode(data@) is Ok,
    ensures
        match r {
            Ok((o, rep)) => {
                &&& o == out
                &&& rep.record_count == record_count
                &&& rep.dict_hash_ok == if args.verify_hash {
                    dict_hash_check(data@)
                } else {
                    None
                }
                &&& !(args.verify_hash && dict_hash_check(data@) == Some(false))
            },
            Err(e) => args.verify_hash && dict_hash_check(data@) == Some(false) && e
                == NxsError::DictMismatch,
        },
{
    let hash_ok = if args.verify_hash {
        check_dict_hash(data)
    } else {
        None
    };
    match hash_ok {
        Some(false) => Err(NxsError::DictMismatch),
        _ => Ok((out, InspectReport { dict_hash_ok: hash_ok, record_count })),
    }
}

/// Renders the inspection of `data` as text. Under `--verify-hash`, a
/// DictHash that does not match the schema header fails with `DictMismatch`.
pub fn render_text(data: &[u8], args: &InspectArgs) -> (r: Result<(String, InspectReport), NxsError>)
    requires
        data@.len() <= isize::MAX,
    ensures
        match r {
            Ok((out, rep)) => {
                &&& inspect_outcome(data@, *args) is Ok
                &&& out@ == text_report(inspect_outcome(data@, *args)->Ok_0)
                &&& report_matches(rep, inspect_outcome(data@, *args)->Ok_0, data@, args.verify_hash)
            },
            Err(e) => inspect_outcome(data@, *args) == Err::<Inspection, NxsError>(e),
        },
{
    match inspect_data(data, args.records_to_show) {
        Ok((f, entries, records)) => {
            let out = text_report_of(&f, &entries, &records);
            finish_report(data, args, out, entries.len())
        },
        Err(e) => Err(e),
    }
}

/// Renders the inspection of `data` as JSON. Under `--verify-hash`, a
/// DictHash that does not match the schema header fails with `DictMismatch`.
pub fn render_json(data: &[u8], args: &InspectArgs) -> (r: Result<(String, InspectReport), NxsError>)
    requires
        data@.len() <= isize::MAX,
    ensures
        match r {
            Ok((out, rep)) => {
                &&& inspect_outcome(data@, *args) is Ok
                &&& out@ == json_report(inspect_outcome(data@, *args)->Ok_0)
                &&& report_matches(rep, inspect_outcome(data@, *args)->Ok_0, data@, args.verify_hash)
            },
            Err(e) => inspect_outcome(data@, *args) == Err::<Inspection, NxsError>(e),
        },
{
    match inspect_data(data, args.records_to_show) {
        Ok((f, entries, records)) => {
            let out = json_report_of(&f, &entries, &records);
            finish_report(data, args, out, entries.len())
        },
        Err(e) => Err(e),
    }
}

proof fn lemma_records_len(d: Seq<u8>, entries: Seq<(int, int)>, f: FileView, n: nat)
    requires
        spec_records(d, entries, f, n) is Ok,
    ensures
        spec_records(d, entries, f, n)->Ok_0.len() == n,
    decreases n,
{
    if n > 0 {
        lemma_records_len(d, entries, f, (n - 1) as nat);
    }
}

proof fn lemma_records_prefix(d: Seq<u8>, entries: Seq<(int, int)>, f: FileView, n: nat, m: nat)
    requires
        m <= n,
        spec_records(d, entries, f, n) is Ok,
    ensures
        spec_records(d, entries, f, m) == Ok::<Seq<Seq<(Seq<char>, ValueView)>>, NxsError>(
            spec_records(d, entries, f, n)->Ok_0.take(m as int),
        ),
    decreases n - m,
{
    lemma_records_len(d, entries, f, n);
    if m < n {
        lemma_records_prefix(d, entries, f, (n - 1) as nat, m);
        lemma_records_len(d, entries, f, (n - 1) as nat);
        let all = spec_records(d, entries, f, n)->Ok_0;
        let prev = spec_records(d, entries, f, (n - 1) as nat)->Ok_0;
        assert(all == prev.push(all.last()));
        assert(prev.take(m as int) =~= all.take(m as int));
    } else {
        assert(spec_records(d, entries, f, n)->Ok_0.take(m as int) =~= spec_records(
            d,
            entries,
            f,
            n,
        )->Ok_0);
    }
}

/// How many records the inspector shows: with `--records all` every record
/// the tail-index lists; with `--records N` the first `min(N, count)` of
/// them, so a count at or above the number of records shows them all, the
/// same records as `all`.
pub proof fn lemma_records_shown(d: Seq<u8>, limit: Option<usize>)
    ensures
        spec_inspect(d, limit) is Ok ==> spec_inspect(d, limit)->Ok_0.records.len() == match limit {
            None => spec_inspect(d, limit)->Ok_0.entries.len() as int,
            Some(n) => if (n as int) < spec_inspect(d, limit)->Ok_0.entries.len() {
                n as int
            } else {
                spec_inspect(d, limit)->Ok_0.entries.len() as int
            },
        },
        spec_inspect(d, None) is Ok ==> {
            let all = spec_inspect(d, None)->Ok_0;
            let shown = match limit {
                None => all.entries.len() as int,
                Some(n) => if (n as int) < all.entries.len() {
                    n as int
                } else {
                    all.entries.len() as int
                },
            };
            &&& spec_inspect(d, limit) is Ok
            &&& spec_inspect(d, limit)->Ok_0.file == all.file
            &&& spec_inspect(d, limit)->Ok_0.entries == all.entries
            &&& spec_inspect(d, limit)->Ok_0.records == all.records.take(shown)
        },
{
    if let Ok(f) = spec_decode(d) {
        if let Ok(entries) = spec_tail_index(d, f.tail_ptr as int) {
            let k = shown_count(entries.len(), limit);
            if spec_records(d, entries, f, k) is Ok {
                lemma_records_len(d, entries, f, k);
            }
            let total = entries.len();
            if spec_records(d, entries, f, total) is Ok {
                lemma_records_prefix(d, entries, f, total, k);
                lemma_records_len(d, entries, f, total);
            }
        }
    }
}

} // verus!
