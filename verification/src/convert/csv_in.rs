//! CSV → schema inference (pass 1 of the CSV import). The header line names
//! the keys; each following line is one record, its cells paired with the
//! header names by position (extra cells are ignored, missing cells leave the
//! key absent from that record).
//!
//! The CSV grammar: cells are separated by `,` and lines by `\n` (a `\r`
//! outside quotes is dropped); a cell that starts with `"` is quoted and may
//! hold `,`, line breaks and doubled `""` quotes; blank lines are skipped.

use vstd::prelude::*;
use super::{ConflictPolicy, ImportArgs, InferredSchema};
use super::infer::{
    finalize, find_key, merge, merge_onto, names_cover, record_view, schema_wf, seeded, key_names,
    key_optional, some_record_lacks, spec_resolve, KeyState, SIGIL_NULL,
};
use super::InferredKey;
use crate::error::NxsError;
use crate::text::{push_char, str_chars, str_from_utf8};

verus! {

/// Where the CSV reader is within the current cell.
#[derive(PartialEq, Eq, Structural)]
pub enum CsvMode {
    /// At the start of a cell.
    Start,
    /// Inside an unquoted cell.
    Plain,
    /// Inside a quoted cell.
    Quoted,
    /// Just after a `"` inside a quoted cell.
    QuoteSeen,
}

/// The reader's state: finished rows, the cells of the current row, the text
/// of the current cell, and the mode.
pub struct CsvState {
    pub rows: Seq<Seq<Seq<char>>>,
    pub row: Seq<Seq<char>>,
    pub field: Seq<char>,
    pub mode: CsvMode,
}

pub open spec fn csv_start() -> CsvState {
    CsvState { rows: seq![], row: seq![], field: seq![], mode: CsvMode::Start }
}

/// Ends the current cell.
pub open spec fn end_field(s: CsvState) -> CsvState {
    CsvState { rows: s.rows, row: s.row.push(s.field), field: seq![], mode: CsvMode::Start }
}

/// Ends the current cell and the current row.
pub open spec fn end_row(s: CsvState) -> CsvState {
    CsvState { rows: s.rows.push(s.row.push(s.field)), row: seq![], field: seq![], mode: CsvMode::Start }
}

pub open spec fn with_char(s: CsvState, c: char, mode: CsvMode) -> CsvState {
    CsvState { rows: s.rows, row: s.row, field: s.field.push(c), mode }
}

pub open spec fn with_mode(s: CsvState, mode: CsvMode) -> CsvState {
    CsvState { rows: s.rows, row: s.row, field: s.field, mode }
}

/// One character of input.
pub open spec fn csv_step(s: CsvState, c: char) -> CsvState {
    match s.mode {
        CsvMode::Start => if c == '"' {
            with_mode(s, CsvMode::Quoted)
        } else if c == ',' {
            end_field(s)
        } else if c == '\n' {
            if s.row.len() == 0 {
                s
            } else {
                end_row(s)
            }
        } else if c == '\r' {
            s
        } else {
            with_char(s, c, CsvMode::Plain)
        },
        CsvMode::Plain => if c == ',' {
            end_field(s)
        } else if c == '\n' {
            end_row(s)
        } else if c == '\r' {
            s
        } else {
            with_char(s, c, CsvMode::Plain)
        },
        CsvMode::Quoted => if c == '"' {
            with_mode(s, CsvMode::QuoteSeen)
        } else {
            with_char(s, c, CsvMode::Quoted)
        },
        CsvMode::QuoteSeen => if c == '"' {
            with_char(s, c, CsvMode::Quoted)
        } else if c == ',' {
            end_field(s)
        } else if c == '\n' {
            end_row(s)
        } else if c == '\r' {
            s
        } else {
            with_char(s, c, CsvMode::Plain)
        },
    }
}

/// The state after reading `chars` from the start.
pub open spec fn csv_scan(chars: Seq<char>) -> CsvState
    decreases chars.len(),
{
    if chars.len() == 0 {
        csv_start()
    } else {
        csv_step(csv_scan(chars.drop_last()), chars.last())
    }
}

/// The rows of a CSV text, or `None` when a quoted cell is never closed.
pub open spec fn csv_rows(chars: Seq<char>) -> Option<Seq<Seq<Seq<char>>>> {
    let s = csv_scan(chars);
    if s.mode == CsvMode::Quoted {
        None
    } else if s.mode == CsvMode::Start && s.row.len() == 0 {
        Some(s.rows)
    } else {
        Some(end_row(s).rows)
    }
}

/// A data row as a record: each cell paired with the header name above it.
pub open spec fn row_record(header: Seq<Seq<char>>, row: Seq<Seq<char>>) -> Seq<(Seq<char>, Seq<char>)> {
    Seq::new(
        if header.len() < row.len() {
            header.len()
        } else {
            row.len()
        },
        |i: int| (header[i], row[i]),
    )
}

/// The records of a CSV text: every row after the header line.
pub open spec fn csv_records(rows: Seq<Seq<Seq<char>>>) -> Seq<Seq<(Seq<char>, Seq<char>)>> {
    if rows.len() == 0 {
        seq![]
    } else {
        Seq::new((rows.len() - 1) as nat, |r: int| row_record(rows[0], rows[r + 1]))
    }
}

} // verus!

verus! {

pub open spec fn rows_view(rows: Seq<Vec<String>>) -> Seq<Seq<Seq<char>>> {
    rows.map_values(|r: Vec<String>| crate::decoder::strings_view(r@))
}

/// The executable reader state.
struct CsvReader {
    rows: Vec<Vec<String>>,
    row: Vec<String>,
    field: String,
    mode: CsvMode,
}

impl CsvReader {
    spec fn state(&self) -> CsvState {
        CsvState {
            rows: rows_view(self.rows@),
            row: crate::decoder::strings_view(self.row@),
            field: self.field@,
            mode: self.mode,
        }
    }

    fn end_field(&mut self)
        ensures
            final(self).state() == end_field(old(self).state()),
    {
        let mut f = String::new();
        std::mem::swap(&mut f, &mut self.field);
        let ghost before = self.row@;
        self.row.push(f);
        self.mode = CsvMode::Start;
        assert(crate::decoder::strings_view(self.row@) =~= crate::decoder::strings_view(before).push(
            old(self).field@,
        ));
    }

    fn end_row(&mut self)
        ensures
            final(self).state() == end_row(old(self).state()),
    {
        self.end_field();
        let mut r: Vec<String> = Vec::new();
        std::mem::swap(&mut r, &mut self.row);
        let ghost before = self.rows@;
        self.rows.push(r);
        assert(rows_view(self.rows@) =~= rows_view(before).push(crate::decoder::strings_view(r@)));
        assert(crate::decoder::strings_view(self.row@) =~= Seq::<Seq<char>>::empty());
    }

    fn step(&mut self, c: char)
        ensures
            final(self).state() == csv_step(old(self).state(), c),
    {
        match self.mode {
            CsvMode::Start => {
                if c == '"' {
                    self.mode = CsvMode::Quoted;
                } else if c == ',' {
                    self.end_field();
                } else if c == '\n' {
                    if self.row.len() != 0 {
                        self.end_row();
                    }
                } else if c == '\r' {
                } else {
                    push_char(&mut self.field, c);
                    self.mode = CsvMode::Plain;
                }
            },
            CsvMode::Plain => {
                if c == ',' {
                    self.end_field();
                } else if c == '\n' {
                    self.end_row();
                } else if c == '\r' {
                } else {
                    push_char(&mut self.field, c);
                }
            },
            CsvMode::Quoted => {
                if c == '"' {
                    self.mode = CsvMode::QuoteSeen;
                } else {
                    push_char(&mut self.field, c);
                }
            },
            CsvMode::QuoteSeen => {
                if c == '"' {
                    push_char(&mut self.field, c);
                    self.mode = CsvMode::Quoted;
                } else if c == ',' {
                    self.end_field();
                } else if c == '\n' {
                    self.end_row();
                } else if c == '\r' {
                } else {
                    push_char(&mut self.field, c);
                    self.mode = CsvMode::Plain;
                }
            },
        }
    }
}

/// Splits CSV text into rows of cells; `None` when a quoted cell is not closed.
pub fn parse_csv_rows(text: &str) -> (r: Option<Vec<Vec<String>>>)
    ensures
        match r {
            Some(rows) => csv_rows(text@) == Some(rows_view(rows@)),
            None => csv_rows(text@) is None,
        },
{
    let chars = str_chars(text);
    let mut rd = CsvReader { rows: Vec::new(), row: Vec::new(), field: String::new(), mode: CsvMode::Start };
    let mut i: usize = 0;
    assert(rows_view(rd.rows@) =~= Seq::<Seq<Seq<char>>>::empty());
    assert(crate::decoder::strings_view(rd.row@) =~= Seq::<Seq<char>>::empty());
    assert(chars@.take(0) =~= Seq::<char>::empty());
    while i < chars.len()
        invariant
            i <= chars@.len(),
            chars@ == text@,
            rd.state() == csv_scan(chars@.take(i as int)),
        decreases chars@.len() - i,
    {
        rd.step(chars[i]);
        assert(chars@.take(i + 1).drop_last() =~= chars@.take(i as int));
        i = i + 1;
    }
    assert(chars@.take(chars@.len() as int) =~= chars@);
    if rd.mode == CsvMode::Quoted {
        return None;
    }
    if rd.mode == CsvMode::Start && rd.row.len() == 0 {
        return Some(rd.rows);
    }
    rd.end_row();
    Some(rd.rows)
}

} // verus!

verus! {

/// The rows of a CSV byte input: `None` when it is not UTF-8 or a quoted cell
/// is not closed.
pub open spec fn csv_input_rows(data: Seq<u8>) -> Option<Seq<Seq<Seq<char>>>> {
    if vstd::utf8::valid_utf8(data) {
        csv_rows(vstd::utf8::decode_utf8(data))
    } else {
        None
    }
}

/// `e` is a `ParseError` carrying the message `msg`.
pub open spec fn parse_error_with(e: NxsError, msg: Seq<char>) -> bool {
    match e {
        NxsError::ParseError(m) => m@ == msg,
        _ => false,
    }
}

/// The names of `h` in order, each kept at its first occurrence only.
pub open spec fn dedup_names(h: Seq<Seq<char>>) -> Seq<Seq<char>>
    decreases h.len(),
{
    if h.len() == 0 {
        seq![]
    } else if dedup_names(h.drop_last()).contains(h.last()) {
        dedup_names(h.drop_last())
    } else {
        dedup_names(h.drop_last()).push(h.last())
    }
}

/// The keys a CSV text declares: the header row's names, in header order (a
/// repeated name counted once); none without a header row.
pub open spec fn header_names(rows: Seq<Seq<Seq<char>>>) -> Seq<Seq<char>> {
    if rows.len() == 0 {
        seq![]
    } else {
        dedup_names(rows[0])
    }
}

proof fn lemma_dedup_names(h: Seq<Seq<char>>)
    ensures
        forall|n: Seq<char>| #[trigger] dedup_names(h).contains(n) <==> h.contains(n),
        forall|i: int, j: int|
            0 <= i < j < dedup_names(h).len() ==> #[trigger] dedup_names(h)[i] != #[trigger] dedup_names(
                h,
            )[j],
    decreases h.len(),
{
    if h.len() > 0 {
        let p = h.drop_last();
        lemma_dedup_names(p);
        assert forall|n: Seq<char>| #[trigger] dedup_names(h).contains(n) <==> h.contains(n) by {
            if p.contains(n) {
                let k = choose|k: int| 0 <= k < p.len() && p[k] == n;
                assert(h[k] == n);
            }
            if h.contains(n) {
                let k = choose|k: int| 0 <= k < h.len() && h[k] == n;
                if k < p.len() {
                    assert(p[k] == n);
                }
            }
            if dedup_names(h).contains(n) && !dedup_names(p).contains(n) {
                let k = choose|k: int| 0 <= k < dedup_names(h).len() && dedup_names(h)[k] == n;
                assert(k == dedup_names(p).len());
                assert(h[h.len() - 1] == n);
            }
            if dedup_names(p).contains(n) {
                let k = choose|k: int| 0 <= k < dedup_names(p).len() && dedup_names(p)[k] == n;
                assert(dedup_names(h)[k] == n);
            }
            if h.last() == n {
                if !dedup_names(p).contains(n) {
                    assert(dedup_names(h)[dedup_names(h).len() - 1] == n);
                }
            }
        }
    }
}

/// Every name a record holds is a header name.
proof fn lemma_header_covers(rows: Seq<Seq<Seq<char>>>)
    ensures
        names_cover(header_names(rows), csv_records(rows)),
{
    if rows.len() > 0 {
        lemma_dedup_names(rows[0]);
        let recs = csv_records(rows);
        assert forall|r: int, j: int| 0 <= r < recs.len() && 0 <= j < recs[r].len() implies header_names(
            rows,
        ).contains(#[trigger] recs[r][j].0) by {
            assert(recs[r][j].0 == rows[0][j]);
            assert(rows[0].contains(rows[0][j]));
        }
    }
}

/// An accumulator that declares the header's keys, before any record.
fn seed_header(header: &Vec<String>) -> (acc: InferredSchema)
    ensures
        schema_wf(acc),
        super::infer::pass1_of(acc) == seeded(dedup_names(crate::decoder::strings_view(header@))),
        acc.records_merged == 0,
        forall|i: int| 0 <= i < acc.keys@.len() ==> (#[trigger] acc.keys@[i]).list_of is None,
{
    let ghost hv = crate::decoder::strings_view(header@);
    let mut acc = InferredSchema { keys: Vec::new(), states: Vec::new(), records_merged: 0 };
    let mut i: usize = 0;
    assert(hv.take(0) =~= Seq::<Seq<char>>::empty());
    assert(key_names(acc.keys@) =~= dedup_names(hv.take(0)));
    while i < header.len()
        invariant
            hv == crate::decoder::strings_view(header@),
            i <= header@.len(),
            schema_wf(acc),
            acc.records_merged == 0,
            key_names(acc.keys@) == dedup_names(hv.take(i as int)),
            acc.states@ =~= Seq::new(acc.keys@.len(), |k: int| super::infer::empty_state()),
            forall|k: int| 0 <= k < acc.keys@.len() ==> !(#[trigger] acc.keys@[k]).optional,
            forall|k: int| 0 <= k < acc.keys@.len() ==> (#[trigger] acc.keys@[k]).list_of is None,
        decreases header@.len() - i,
    {
        let ghost before = acc.keys@;
        assert(hv.take(i + 1).drop_last() =~= hv.take(i as int));
        assert(hv.take(i + 1).last() == header@[i as int]@);
        proof {
            super::infer::lemma_find_from_range(key_names(acc.keys@), header@[i as int]@, 0);
        }
        match find_key(&acc.keys, &header[i]) {
            Some(k) => {
                assert(key_names(acc.keys@)[k as int] == header@[i as int]@);
                assert(dedup_names(hv.take(i as int)).contains(header@[i as int]@));
            },
            None => {
                proof {
                    if dedup_names(hv.take(i as int)).contains(header@[i as int]@) {
                        let k = choose|k: int|
                            0 <= k < dedup_names(hv.take(i as int)).len() && dedup_names(
                                hv.take(i as int),
                            )[k] == header@[i as int]@;
                        super::infer::lemma_find_from_absent(
                            key_names(acc.keys@),
                            header@[i as int]@,
                            0,
                            k,
                        );
                    }
                }
                acc.keys.push(
                    InferredKey {
                        name: header[i].clone(),
                        sigil: SIGIL_NULL,
                        optional: false,
                        list_of: None,
                    },
                );
                acc.states.push(KeyState::default());
                proof {
                    assert(key_names(acc.keys@) =~= key_names(before).push(header@[i as int]@));
                    assert forall|a: int, b: int|
                        0 <= a < b < acc.keys@.len() implies #[trigger] acc.keys@[a].name@
                        != #[trigger] acc.keys@[b].name@ by {
                        if b == acc.keys@.len() - 1 {
                            super::infer::lemma_find_from_absent(
                                key_names(before),
                                header@[i as int]@,
                                0,
                                a,
                            );
                            assert(key_names(before)[a] == acc.keys@[a].name@);
                        }
                    }
                }
            },
        }
        i = i + 1;
    }
    assert(hv.take(header@.len() as int) =~= hv);
    assert(key_optional(acc.keys@) =~= Seq::new(acc.keys@.len(), |k: int| false));
    acc
}

/// Pairs the cells of a data row with the header names.
fn make_record(header: &Vec<String>, row: &Vec<String>) -> (rec: Vec<(String, String)>)
    ensures
        record_view(rec@) == row_record(
            crate::decoder::strings_view(header@),
            crate::decoder::strings_view(row@),
        ),
{
    let n = if header.len() < row.len() {
        header.len()
    } else {
        row.len()
    };
    let mut rec: Vec<(String, String)> = Vec::new();
    let mut i: usize = 0;
    while i < n
        invariant
            i <= n,
            n <= header@.len(),
            n <= row@.len(),
            rec@.len() == i,
            forall|k: int|
                0 <= k < i ==> (#[trigger] rec@[k]).0@ == header@[k]@ && rec@[k].1@ == row@[k]@,
        decreases n - i,
    {
        rec.push((header[i].clone(), row[i].clone()));
        i = i + 1;
    }
    assert(record_view(rec@) =~= row_record(
        crate::decoder::strings_view(header@),
        crate::decoder::strings_view(row@),
    ));
    rec
}

/// Pass 1 of the CSV import: the header row's names become the keys, in
/// header order; every following row is a record whose cells are paired with
/// the header names by position. Each key's sigil is inferred under the
/// `--on-conflict` policy, and a key is optional exactly when some record
/// lacks it (a row shorter than the header lacks the trailing keys).
pub fn infer_schema(data: &[u8], args: &ImportArgs) -> (r: Result<InferredSchema, NxsError>)
    ensures
        match r {
            Ok(s) => {
                &&& csv_input_rows(data@) is Some
                &&& schema_wf(s)
                &&& key_names(s.keys@) == header_names(csv_input_rows(data@)->Some_0)
                &&& forall|i: int|
                    0 <= i < s.keys@.len() ==> ((#[trigger] s.keys@[i]).optional <==> some_record_lacks(
                        csv_records(csv_input_rows(data@)->Some_0),
                        s.keys@[i].name@,
                    ))
                &&& s.states@ == merge_onto(
                    seeded(header_names(csv_input_rows(data@)->Some_0)),
                    csv_records(csv_input_rows(data@)->Some_0),
                ).states
                &&& s.records_merged == csv_records(csv_input_rows(data@)->Some_0).len()
                &&& forall|i: int|
                    0 <= i < s.keys@.len() ==> spec_resolve(s.states@[i], args.conflict) == Ok::<
                        u8,
                        NxsError,
                    >(#[trigger] s.keys@[i].sigil)
                &&& forall|i: int| 0 <= i < s.keys@.len() ==> (#[trigger] s.keys@[i]).list_of is None
            },
            Err(e) => {
                ||| (!vstd::utf8::valid_utf8(data@) && parse_error_with(
                    e,
                    "CSV input is not valid UTF-8"@,
                ))
                ||| (vstd::utf8::valid_utf8(data@) && csv_input_rows(data@) is None
                    && parse_error_with(e, "unterminated quoted CSV field"@))
                ||| (csv_input_rows(data@) is Some && super::infer::any_conflict(
                    merge_onto(
                        seeded(header_names(csv_input_rows(data@)->Some_0)),
                        csv_records(csv_input_rows(data@)->Some_0),
                    ).states,
                    args.conflict,
                ) && e == NxsError::ListTypeMismatch)
            },
        },
{
    let text = match str_from_utf8(data) {
        Some(t) => t,
        None => {
            return Err(NxsError::ParseError(String::from_str("CSV input is not valid UTF-8")));
        },
    };
    let rows = match parse_csv_rows(text) {
        Some(r) => r,
        None => {
            return Err(NxsError::ParseError(String::from_str("unterminated quoted CSV field")));
        },
    };
    let ghost rv = rows_view(rows@);
    let ghost recs = csv_records(rv);
    let ghost hn = header_names(rv);
    let mut acc = if rows.len() > 0 {
        seed_header(&rows[0])
    } else {
        InferredSchema { keys: Vec::new(), states: Vec::new(), records_merged: 0 }
    };
    proof {
        if rows@.len() == 0 {
            assert(key_names(acc.keys@) =~= Seq::<Seq<char>>::empty());
            assert(key_optional(acc.keys@) =~= Seq::<bool>::empty());
            assert(acc.states@ =~= Seq::<KeyState>::empty());
            assert(seeded(hn).names =~= key_names(acc.keys@));
            assert(seeded(hn).states =~= acc.states@);
            assert(seeded(hn).optional =~= key_optional(acc.keys@));
            assert(super::infer::pass1_of(acc) == seeded(hn));
        } else {
            assert(crate::decoder::strings_view(rows@[0]@) == rv[0]);
        }
        assert(recs.take(0).len() == 0);
        assert(super::infer::pass1_of(acc) == merge_onto(seeded(hn), recs.take(0)));
    }
    let mut r: usize = 1;
    while r < rows.len()
        invariant
            rv == rows_view(rows@),
            recs == csv_records(rv),
            hn == header_names(rv),
            1 <= r,
            rows@.len() > 0 ==> r <= rows@.len(),
            rows@.len() == 0 ==> r == 1,
            schema_wf(acc),
            super::infer::pass1_of(acc) == merge_onto(seeded(hn), recs.take(r - 1)),
            acc.records_merged == r - 1,
            forall|i: int| 0 <= i < acc.keys@.len() ==> (#[trigger] acc.keys@[i]).list_of is None,
        decreases rows@.len() - r,
    {
        let record = make_record(&rows[0], &rows[r]);
        proof {
            assert(recs[r - 1] == row_record(rv[0], rv[r as int]));
            assert(recs.take(r as int).drop_last() =~= recs.take(r - 1));
            assert(recs.take(r as int).last() == recs[r - 1]);
        }
        merge(&mut acc, record.as_slice());
        r = r + 1;
    }
    proof {
        assert(recs.take(recs.len() as int) =~= recs);
        lemma_header_covers(rv);
        super::infer::lemma_seeded_keys(hn, recs);
    }
    let out = finalize(acc, args.conflict);
    proof {
        if out is Ok {
            let s = out->Ok_0;
            assert forall|i: int| 0 <= i < s.keys@.len() implies ((#[trigger] s.keys@[i]).optional
                <==> some_record_lacks(recs, s.keys@[i].name@)) by {
                assert(key_names(s.keys@)[i] == s.keys@[i].name@);
                assert(key_optional(s.keys@)[i] == s.keys@[i].optional);
                assert(key_optional(acc.keys@)[i] == merge_onto(seeded(hn), recs).optional[i]);
            }
        }
    }
    out
}

} // verus!

verus! {

// ---------------------------------------------------------------------------
// Reading back what the CSV exporter writes
// ---------------------------------------------------------------------------

/// The state after reading `chars` from state `st`.
pub open spec fn scan_from(st: CsvState, chars: Seq<char>) -> CsvState
    decreases chars.len(),
{
    if chars.len() == 0 {
        st
    } else {
        csv_step(scan_from(st, chars.drop_last()), chars.last())
    }
}

proof fn lemma_scan_is_scan_from(chars: Seq<char>)
    ensures
        csv_scan(chars) == scan_from(csv_start(), chars),
    decreases chars.len(),
{
    if chars.len() > 0 {
        lemma_scan_is_scan_from(chars.drop_last());
    }
}

proof fn lemma_scan_concat(st: CsvState, a: Seq<char>, b: Seq<char>)
    ensures
        scan_from(st, a + b) == scan_from(scan_from(st, a), b),
    decreases b.len(),
{
    if b.len() == 0 {
        assert(a + b =~= a);
    } else {
        lemma_scan_concat(st, a, b.drop_last());
        assert((a + b).drop_last() =~= a + b.drop_last());
        assert((a + b).last() == b.last());
    }
}

/// A cell has been read: the current cell holds `s` and the reader can end it.
pub open spec fn cell_read(st: CsvState, rows: Seq<Seq<Seq<char>>>, row: Seq<Seq<char>>, s: Seq<char>) -> bool {
    &&& st.rows == rows
    &&& st.row == row
    &&& st.field == s
    &&& (st.mode == CsvMode::Plain || st.mode == CsvMode::QuoteSeen || (st.mode == CsvMode::Start
        && s.len() == 0))
}

proof fn lemma_scan_plain(rows: Seq<Seq<Seq<char>>>, row: Seq<Seq<char>>, s: Seq<char>)
    requires
        s.len() > 0,
        forall|i: int| 0 <= i < s.len() ==> !crate::convert::render::needs_quotes(#[trigger] s[i]),
    ensures
        scan_from((CsvState { rows, row, field: seq![], mode: CsvMode::Start }), s) == (CsvState {
            rows,
            row,
            field: s,
            mode: CsvMode::Plain,
        }),
    decreases s.len(),
{
    let st = CsvState { rows, row, field: seq![], mode: CsvMode::Start };
    assert(!crate::convert::render::needs_quotes(s[s.len() - 1]));
    if s.len() == 1 {
        assert(s.drop_last() =~= Seq::<char>::empty());
        assert(seq![].push(s[0]) =~= s);
    } else {
        lemma_scan_plain(rows, row, s.drop_last());
        assert(s.drop_last().push(s.last()) =~= s);
    }
}

proof fn lemma_scan_one(st: CsvState, c: char)
    ensures
        scan_from(st, seq![c]) == csv_step(st, c),
{
    assert(scan_from(st, Seq::<char>::empty()) == st);
    assert(seq![c].drop_last() =~= Seq::<char>::empty());
    assert(seq![c].last() == c);
}

proof fn lemma_scan_quoted_body(st: CsvState, s: Seq<char>)
    requires
        st.mode == CsvMode::Quoted,
    ensures
        scan_from(st, crate::convert::render::double_quotes(s)) == (CsvState {
            rows: st.rows,
            row: st.row,
            field: st.field + s,
            mode: CsvMode::Quoted,
        }),
    decreases s.len(),
{
    if s.len() == 0 {
        assert(st.field + s =~= st.field);
        assert(crate::convert::render::double_quotes(s) =~= Seq::<char>::empty());
    } else {
        lemma_scan_quoted_body(st, s.drop_last());
        let a = crate::convert::render::double_quotes(s.drop_last());
        let c = s.last();
        let b = if c == '"' {
            seq!['"', '"']
        } else {
            seq![c]
        };
        assert(crate::convert::render::double_quotes(s) == a + b);
        lemma_scan_concat(st, a, b);
        let mid = scan_from(st, a);
        assert((st.field + s.drop_last()).push(c) =~= st.field + s);
        if c == '"' {
            assert(b =~= seq!['"'] + seq!['"']);
            lemma_scan_concat(mid, seq!['"'], seq!['"']);
            lemma_scan_one(mid, '"');
            lemma_scan_one(csv_step(mid, '"'), '"');
        } else {
            lemma_scan_one(mid, c);
        }
    }
}

/// Reading a cell as the exporter writes it gives back its text.
proof fn lemma_scan_cell(rows: Seq<Seq<Seq<char>>>, row: Seq<Seq<char>>, s: Seq<char>)
    ensures
        cell_read(
            scan_from(
                (CsvState { rows, row, field: seq![], mode: CsvMode::Start }),
                crate::convert::render::csv_cell(s),
            ),
            rows,
            row,
            s,
        ),
{
    let st = CsvState { rows, row, field: seq![], mode: CsvMode::Start };
    if exists|i: int| 0 <= i < s.len() && crate::convert::render::needs_quotes(#[trigger] s[i]) {
        let body = crate::convert::render::double_quotes(s);
        assert(crate::convert::render::csv_cell(s) == seq!['"'] + body + seq!['"']);
        lemma_scan_concat(st, seq!['"'] + body, seq!['"']);
        lemma_scan_concat(st, seq!['"'], body);
        lemma_scan_one(st, '"');
        let q = scan_from(st, seq!['"']);
        assert(q == (CsvState { rows, row, field: seq![], mode: CsvMode::Quoted }));
        lemma_scan_quoted_body(q, s);
        assert(Seq::<char>::empty() + s =~= s);
        lemma_scan_one(scan_from(q, body), '"');
    } else if s.len() > 0 {
        lemma_scan_plain(rows, row, s);
        assert(crate::convert::render::csv_cell(s) == s);
    } else {
        assert(crate::convert::render::csv_cell(s) =~= Seq::<char>::empty());
        assert(scan_from(st, Seq::<char>::empty()) == st);
    }
}

/// The text of one line: the cells as the exporter writes them, comma-separated.
pub open spec fn cells_text(cells: Seq<Seq<char>>) -> Seq<char>
    decreases cells.len(),
{
    if cells.len() == 0 {
        seq![]
    } else {
        cells_text(cells.drop_last()) + super::csv_out::comma(cells.len() == 1)
            + crate::convert::render::csv_cell(cells.last())
    }
}

/// Reading the cells of a line leaves all but the last one in the current
/// row, and the last one read.
proof fn lemma_scan_cells(rows: Seq<Seq<Seq<char>>>, cells: Seq<Seq<char>>)
    requires
        cells.len() > 0,
    ensures
        cell_read(
            scan_from(
                (CsvState { rows, row: seq![], field: seq![], mode: CsvMode::Start }),
                cells_text(cells),
            ),
            rows,
            cells.drop_last(),
            cells.last(),
        ),
    decreases cells.len(),
{
    let st = CsvState { rows, row: seq![], field: seq![], mode: CsvMode::Start };
    if cells.len() == 1 {
        assert(cells.drop_last() =~= Seq::<Seq<char>>::empty());
        assert(cells_text(cells.drop_last()) == Seq::<char>::empty());
        lemma_scan_cell(rows, seq![], cells[0]);
    } else {
        let prev = cells.drop_last();
        lemma_scan_cells(rows, prev);
        let a = cells_text(prev);
        let cell = crate::convert::render::csv_cell(cells.last());
        lemma_scan_concat(st, a + seq![','], cell);
        lemma_scan_concat(st, a, seq![',']);
        lemma_scan_one(scan_from(st, a), ',');
        let mid = scan_from(st, a + seq![',']);
        assert(prev.drop_last().push(prev.last()) =~= prev);
        assert(mid == CsvState { rows, row: prev, field: seq![], mode: CsvMode::Start });
        lemma_scan_cell(rows, prev, cells.last());
        assert(cells_text(cells) == a + seq![','] + cell);
    }
}

/// A line the reader keeps: at least one cell, and not a single empty cell
/// (which reads as a blank line).
pub open spec fn keeps_line(cells: Seq<Seq<char>>) -> bool {
    cells.len() > 0 && !(cells.len() == 1 && cells[0].len() == 0)
}

/// The text of a table: each line's cells, then a line feed.
pub open spec fn table_text(table: Seq<Seq<Seq<char>>>) -> Seq<char>
    decreases table.len(),
{
    if table.len() == 0 {
        seq![]
    } else {
        table_text(table.drop_last()) + cells_text(table.last()) + seq!['\n']
    }
}

proof fn lemma_scan_table(table: Seq<Seq<Seq<char>>>)
    requires
        forall|r: int| 0 <= r < table.len() ==> keeps_line(#[trigger] table[r]),
    ensures
        scan_from(csv_start(), table_text(table)) == (CsvState {
            rows: table,
            row: seq![],
            field: seq![],
            mode: CsvMode::Start,
        }),
    decreases table.len(),
{
    if table.len() == 0 {
        assert(table =~= Seq::<Seq<Seq<char>>>::empty());
        assert(table_text(table) == Seq::<char>::empty());
        assert(scan_from(csv_start(), Seq::<char>::empty()) == csv_start());
    } else {
        let prev = table.drop_last();
        let cells = table.last();
        assert(keeps_line(table[table.len() - 1]));
        lemma_scan_table(prev);
        let a = table_text(prev);
        let st = scan_from(csv_start(), a);
        lemma_scan_concat(csv_start(), a + cells_text(cells), seq!['\n']);
        lemma_scan_concat(csv_start(), a, cells_text(cells));
        lemma_scan_cells(prev, cells);
        lemma_scan_one(scan_from(st, cells_text(cells)), '\n');
        assert(table_text(table) == a + cells_text(cells) + seq!['\n']);
        assert(cells.drop_last().push(cells.last()) =~= cells);
        assert(prev.push(cells) =~= table);
    }
}

/// Reading back a written table: for lines the reader keeps (at least one
/// cell, and not one empty cell), reading the text that writes each cell as
/// the CSV exporter does, commas between cells and a line feed after each
/// line, gives back exactly the cells.
pub proof fn lemma_csv_table_reads_back(table: Seq<Seq<Seq<char>>>)
    requires
        forall|r: int| 0 <= r < table.len() ==> keeps_line(#[trigger] table[r]),
    ensures
        csv_rows(table_text(table)) == Some(table),
{
    lemma_scan_is_scan_from(table_text(table));
    lemma_scan_table(table);
}

} // verus!
