//! `.nxb` → CSV. Columns follow the schema's key order; one row per record
//! the tail-index points to. A key a record lacks (or holds as Null) gives an
//! empty cell; fields without a dictionary key are not exported.

use vstd::prelude::*;
use vstd::utf8::encode_utf8;
use super::{ExportArgs, ExportReport};
use super::inspect::{Inspection, inspect_data, records_view, spec_inspect};
use super::render::{csv_cell, csv_text, push_csv_cell, push_csv_value};
use super::csv_in::{cells_text, keeps_line, lemma_csv_table_reads_back, table_text};
use crate::decoder::{DecodedValue, ValueView, strings_view};
use crate::error::NxsError;
use crate::text::push_char;

verus! {

/// The value of the first field named `key` at or after position `i`.
pub open spec fn field_lookup(fields: Seq<(Seq<char>, ValueView)>, key: Seq<char>, i: int) -> Option<
    ValueView,
>
    decreases fields.len() - i,
{
    if i < 0 || i >= fields.len() {
        None
    } else if fields[i].0 == key {
        Some(fields[i].1)
    } else {
        field_lookup(fields, key, i + 1)
    }
}

/// The cell of one column: the field's CSV text, or empty when absent.
pub open spec fn column_cell(fields: Seq<(Seq<char>, ValueView)>, key: Seq<char>) -> Seq<char> {
    match field_lookup(fields, key, 0) {
        Some(v) => csv_cell(csv_text(v)),
        None => seq![],
    }
}

pub open spec fn comma(first: bool) -> Seq<char> {
    if first {
        seq![]
    } else {
        seq![',']
    }
}

/// The header line's cells: the key names.
pub open spec fn csv_header(keys: Seq<Seq<char>>) -> Seq<char>
    decreases keys.len(),
{
    if keys.len() == 0 {
        seq![]
    } else {
        csv_header(keys.drop_last()) + comma(keys.len() == 1) + csv_cell(keys.last())
    }
}

/// A record's cells, one per key.
pub open spec fn csv_row(keys: Seq<Seq<char>>, fields: Seq<(Seq<char>, ValueView)>) -> Seq<char>
    decreases keys.len(),
{
    if keys.len() == 0 {
        seq![]
    } else {
        csv_row(keys.drop_last(), fields) + comma(keys.len() == 1) + column_cell(fields, keys.last())
    }
}

pub open spec fn csv_rows(keys: Seq<Seq<char>>, records: Seq<Seq<(Seq<char>, ValueView)>>) -> Seq<
    char,
>
    decreases records.len(),
{
    if records.len() == 0 {
        seq![]
    } else {
        csv_rows(keys, records.drop_last()) + csv_row(keys, records.last()) + seq!['\n']
    }
}

/// The CSV export of a file: the header line, then one line per record.
pub open spec fn csv_export(ins: Inspection) -> Seq<char> {
    csv_header(ins.file.keys) + seq!['\n'] + csv_rows(ins.file.keys, ins.records)
}

/// Appends the cell of column `key` for a record.
fn push_column(out: &mut String, fields: &Vec<(String, DecodedValue)>, key: &String)
    ensures
        final(out)@ == old(out)@ + column_cell(crate::decoder::fields_view(fields@), key@),
{
    let ghost fv = crate::decoder::fields_view(fields@);
    let mut i: usize = 0;
    while i < fields.len()
        invariant
            fv == crate::decoder::fields_view(fields@),
            i <= fields@.len(),
            out@ == old(out)@,
            field_lookup(fv, key@, 0) == field_lookup(fv, key@, i as int),
        decreases fields@.len() - i,
    {
        if fields[i].0 == *key {
            assert(fv[i as int] == (fields@[i as int].0@, fields@[i as int].1@));
            push_csv_value(out, &fields[i].1);
            return;
        }
        i = i + 1;
    }
}

fn push_row(out: &mut String, keys: &Vec<String>, fields: &Vec<(String, DecodedValue)>)
    ensures
        final(out)@ == old(out)@ + csv_row(strings_view(keys@), crate::decoder::fields_view(fields@)),
{
    let ghost kv = strings_view(keys@);
    let ghost fv = crate::decoder::fields_view(fields@);
    let mut c: usize = 0;
    assert(kv.take(0) =~= Seq::<Seq<char>>::empty());
    assert(out@ =~= old(out)@ + csv_row(kv.take(0), fv));
    while c < keys.len()
        invariant
            kv == strings_view(keys@),
            fv == crate::decoder::fields_view(fields@),
            c <= keys@.len(),
            out@ == old(out)@ + csv_row(kv.take(c as int), fv),
        decreases keys@.len() - c,
    {
        if c > 0 {
            push_char(out, ',');
        }
        push_column(out, fields, &keys[c]);
        assert(kv.take(c + 1).drop_last() =~= kv.take(c as int));
        assert(out@ =~= old(out)@ + csv_row(kv.take(c + 1), fv));
        c = c + 1;
    }
    assert(kv.take(keys@.len() as int) =~= kv);
}

fn push_header(out: &mut String, keys: &Vec<String>)
    ensures
        final(out)@ == old(out)@ + csv_header(strings_view(keys@)),
{
    let ghost kv = strings_view(keys@);
    let mut c: usize = 0;
    assert(kv.take(0) =~= Seq::<Seq<char>>::empty());
    assert(out@ =~= old(out)@ + csv_header(kv.take(0)));
    while c < keys.len()
        invariant
            kv == strings_view(keys@),
            c <= keys@.len(),
            out@ == old(out)@ + csv_header(kv.take(c as int)),
        decreases keys@.len() - c,
    {
        if c > 0 {
            push_char(out, ',');
        }
        push_csv_cell(out, keys[c].as_str());
        assert(kv.take(c + 1).drop_last() =~= kv.take(c as int));
        assert(out@ =~= old(out)@ + csv_header(kv.take(c + 1)));
        c = c + 1;
    }
    assert(kv.take(keys@.len() as int) =~= kv);
}

/// Exports every record of `data` as CSV. The report counts the records read
/// and the UTF-8 bytes of the output.
pub fn run(data: &[u8], args: &ExportArgs) -> (r: Result<(String, ExportReport), NxsError>)
    requires
        data@.len() <= isize::MAX,
    ensures
        match r {
            Ok((out, rep)) => {
                &&& spec_inspect(data@, None) is Ok
                &&& out@ == csv_export(spec_inspect(data@, None)->Ok_0)
                &&& rep.records_read == spec_inspect(data@, None)->Ok_0.records.len()
                &&& rep.output_bytes == encode_utf8(out@).len() as usize
            },
            Err(e) => spec_inspect(data@, None) == Err::<Inspection, NxsError>(e),
        },
{
    let (f, _entries, records) = match inspect_data(data, None) {
        Ok(x) => x,
        Err(e) => {
            return Err(e);
        },
    };
    let ghost kv = strings_view(f.keys@);
    let ghost rv = records_view(records@);
    let mut out = String::new();
    push_header(&mut out, &f.keys);
    push_char(&mut out, '\n');
    let ghost head = out@;
    let mut k: usize = 0;
    assert(rv.take(0) =~= Seq::<Seq<(Seq<char>, ValueView)>>::empty());
    assert(out@ =~= head + csv_rows(kv, rv.take(0)));
    while k < records.len()
        invariant
            kv == strings_view(f.keys@),
            rv == records_view(records@),
            k <= records@.len(),
            out@ == head + csv_rows(kv, rv.take(k as int)),
        decreases records@.len() - k,
    {
        push_row(&mut out, &f.keys, &records[k]);
        push_char(&mut out, '\n');
        assert(rv.take(k + 1).drop_last() =~= rv.take(k as int));
        assert(out@ =~= head + csv_rows(kv, rv.take(k + 1)));
        k = k + 1;
    }
    assert(rv.take(records@.len() as int) =~= rv);
    let s = out.as_str();
    let n = s.len();
    let read = records.len();
    assert(out@ =~= csv_export(spec_inspect(data@, None)->Ok_0));
    Ok((out, ExportReport { records_read: read, output_bytes: n }))
}

// ---------------------------------------------------------------------------
// What the CSV reader makes of an export
// ---------------------------------------------------------------------------

/// The text of one column of a record: the field's CSV text, or empty when
/// the record lacks the key.
pub open spec fn column_text(fields: Seq<(Seq<char>, ValueView)>, key: Seq<char>) -> Seq<char> {
    match field_lookup(fields, key, 0) {
        Some(v) => csv_text(v),
        None => seq![],
    }
}

/// The cells of a record's line, one per key.
pub open spec fn export_line(keys: Seq<Seq<char>>, fields: Seq<(Seq<char>, ValueView)>) -> Seq<
    Seq<char>,
> {
    Seq::new(keys.len(), |j: int| column_text(fields, keys[j]))
}

pub open spec fn record_lines(keys: Seq<Seq<char>>, records: Seq<Seq<(Seq<char>, ValueView)>>) -> Seq<
    Seq<Seq<char>>,
> {
    Seq::new(records.len(), |r: int| export_line(keys, records[r]))
}

/// The table an export holds: the header names, then each record's line.
pub open spec fn export_table(ins: Inspection) -> Seq<Seq<Seq<char>>> {
    seq![ins.file.keys] + record_lines(ins.file.keys, ins.records)
}

proof fn lemma_header_cells(keys: Seq<Seq<char>>)
    ensures
        csv_header(keys) == cells_text(keys),
    decreases keys.len(),
{
    if keys.len() > 0 {
        lemma_header_cells(keys.drop_last());
    }
}

proof fn lemma_row_cells(keys: Seq<Seq<char>>, fields: Seq<(Seq<char>, ValueView)>)
    ensures
        csv_row(keys, fields) == cells_text(export_line(keys, fields)),
    decreases keys.len(),
{
    let line = export_line(keys, fields);
    if keys.len() == 0 {
        assert(line =~= Seq::<Seq<char>>::empty());
    } else {
        lemma_row_cells(keys.drop_last(), fields);
        assert(export_line(keys.drop_last(), fields) =~= line.drop_last());
        let t = column_text(fields, keys.last());
        assert(line.last() == t);
        assert(column_cell(fields, keys.last()) == csv_cell(t)) by {
            if field_lookup(fields, keys.last(), 0) is None {
                assert(csv_cell(Seq::<char>::empty()) =~= Seq::<char>::empty());
            }
        }
    }
}

proof fn lemma_rows_table(keys: Seq<Seq<char>>, records: Seq<Seq<(Seq<char>, ValueView)>>)
    ensures
        table_text(seq![keys] + record_lines(keys, records)) == cells_text(keys) + seq!['\n']
            + csv_rows(keys, records),
    decreases records.len(),
{
    let t = seq![keys] + record_lines(keys, records);
    if records.len() == 0 {
        assert(t =~= seq![keys]);
        assert(t.drop_last() =~= Seq::<Seq<Seq<char>>>::empty());
        assert(table_text(t.drop_last()) == Seq::<char>::empty());
        assert(cells_text(keys) + seq!['\n'] + Seq::<char>::empty() =~= Seq::<char>::empty()
            + cells_text(keys) + seq!['\n']);
    } else {
        lemma_rows_table(keys, records.drop_last());
        assert(t.drop_last() =~= seq![keys] + record_lines(keys, records.drop_last()));
        assert(t.last() == export_line(keys, records.last()));
        lemma_row_cells(keys, records.last());
        assert(cells_text(keys) + seq!['\n'] + csv_rows(keys, records) =~= cells_text(keys)
            + seq!['\n'] + csv_rows(keys, records.drop_last()) + csv_row(keys, records.last())
            + seq!['\n']);
    }
}

/// Reading back a CSV export: as long as every line is one the reader keeps
/// (always so with two keys or more; with one key, every record must give
/// that column a non-empty text, and the key's name must not be empty), the
/// CSV reader gives back the header names and, for each record, each column's
/// text, empty where the record lacks the key.
pub proof fn lemma_csv_export_reads_back(ins: Inspection)
    requires
        forall|r: int|
            0 <= r < export_table(ins).len() ==> keeps_line(#[trigger] export_table(ins)[r]),
    ensures
        super::csv_in::csv_rows(csv_export(ins)) == Some(export_table(ins)),
{
    lemma_header_cells(ins.file.keys);
    lemma_rows_table(ins.file.keys, ins.records);
    lemma_csv_table_reads_back(export_table(ins));
}

/// With two keys or more, every line of an export is one the reader keeps.
pub proof fn lemma_export_lines_kept(ins: Inspection)
    requires
        ins.file.keys.len() >= 2,
    ensures
        forall|r: int|
            0 <= r < export_table(ins).len() ==> keeps_line(#[trigger] export_table(ins)[r]),
{
    assert forall|r: int| 0 <= r < export_table(ins).len() implies keeps_line(
        #[trigger] export_table(ins)[r],
    ) by {
        if r > 0 {
            assert(export_table(ins)[r] == export_line(ins.file.keys, ins.records[r - 1]));
        }
    }
}

} // verus!
