//! Converter suite: JSON/CSV/XML ⇄ `.nxb`.
//!
//! Module map:
//!   infer    — streaming sigil inference shared by all import sources
//!   inspect  — `.nxb` → human/JSON report
//!   json_out — `.nxb` → JSON
//!   csv_out  — `.nxb` → CSV
//!
//! Paths are carried as plain strings; the command-line tools open the files
//! and hand the library the bytes they read.

use vstd::prelude::*;

pub mod infer;
pub mod render;
pub mod inspect;
pub mod json_out;
pub mod csv_out;
pub mod csv_in;

verus! {

/// Common options parsed once by each binary's `main()`.
#[derive(Debug, Default, Clone)]
pub struct CommonOpts {
    /// `None` → stdin
    pub input_path: Option<String>,
    /// `None` → stdout
    pub output_path: Option<String>,
    pub verify_roundtrip: bool,
}

/// The user's `--on-conflict` choice: what to do when one key holds values of
/// different types.
#[derive(Debug, Clone, Copy, Default, PartialEq, Eq)]
pub enum ConflictPolicy {
    #[default]
    Error,
    CoerceString,
    FirstWins,
}

/// One key of an inferred schema: its chosen sigil, whether it is optional
/// (absent in at least one record), and the element sigil of a list value.
#[derive(Debug)]
pub struct InferredKey {
    pub name: String,
    pub sigil: u8,
    pub optional: bool,
    pub list_of: Option<u8>,
}

/// The inference accumulator and its result: the keys in order of first
/// appearance, the per-key lattice state, and how many records were merged.
#[derive(Debug, Default)]
pub struct InferredSchema {
    pub keys: Vec<InferredKey>,
    pub states: Vec<infer::KeyState>,
    pub records_merged: usize,
}

#[derive(Debug, Default)]
pub struct ImportArgs {
    pub common: CommonOpts,
    pub from: ImportFormat,
    pub schema_hint: Option<String>,
    pub conflict: ConflictPolicy,
}

#[derive(Debug, Default, Clone, Copy, PartialEq, Eq)]
pub enum ImportFormat {
    #[default]
    Json,
    Csv,
    Xml,
}

#[derive(Debug, Default)]
pub struct ImportReport {
    pub records_written: usize,
    pub output_bytes: usize,
}

#[derive(Debug, Default)]
pub struct ExportArgs {
    pub common: CommonOpts,
    pub to: ExportFormat,
}

#[derive(Debug, Default, Clone, Copy, PartialEq, Eq)]
pub enum ExportFormat {
    #[default]
    Json,
    Csv,
}

#[derive(Debug, Default)]
pub struct ExportReport {
    pub records_read: usize,
    pub output_bytes: usize,
}

#[derive(Debug, Default)]
pub struct InspectArgs {
    pub common: CommonOpts,
    pub json_output: bool,
    /// `None` → all
    pub records_to_show: Option<usize>,
    pub verify_hash: bool,
}

#[derive(Debug, Default)]
pub struct InspectReport {
    pub dict_hash_ok: Option<bool>,
    pub record_count: usize,
}

} // verus!

verus! {

/// The inspector's output for `data`: exactly what the JSON renderer gives
/// when `--json` was given, and what the text renderer gives otherwise.
pub fn run_inspect(data: &[u8], args: &InspectArgs) -> (r: Result<(String, InspectReport), crate::error::NxsError>)
    requires
        data@.len() <= isize::MAX,
    ensures
        match r {
            Ok((out, rep)) => {
                &&& inspect::inspect_outcome(data@, *args) is Ok
                &&& out@ == if args.json_output {
                    inspect::json_report(inspect::inspect_outcome(data@, *args)->Ok_0)
                } else {
                    inspect::text_report(inspect::inspect_outcome(data@, *args)->Ok_0)
                }
                &&& inspect::report_matches(
                    rep,
                    inspect::inspect_outcome(data@, *args)->Ok_0,
                    data@,
                    args.verify_hash,
                )
            },
            Err(e) => inspect::inspect_outcome(data@, *args) == Err::<
                inspect::Inspection,
                crate::error::NxsError,
            >(e),
        },
{
    if args.json_output {
        inspect::render_json(data, args)
    } else {
        inspect::render_text(data, args)
    }
}

/// The exporter's output for `data`: JSON or CSV, as `--to` says.
pub fn run_export(data: &[u8], args: &ExportArgs) -> (r: Result<(String, ExportReport), crate::error::NxsError>)
    requires
        data@.len() <= isize::MAX,
    ensures
        match r {
            Ok((out, rep)) => {
                &&& inspect::spec_inspect(data@, None) is Ok
                &&& out@ == match args.to {
                    ExportFormat::Json => json_out::json_export(inspect::spec_inspect(data@, None)->Ok_0),
                    ExportFormat::Csv => csv_out::csv_export(inspect::spec_inspect(data@, None)->Ok_0),
                }
                &&& rep.records_read == inspect::spec_inspect(data@, None)->Ok_0.records.len()
                &&& rep.output_bytes == vstd::utf8::encode_utf8(out@).len() as usize
            },
            Err(e) => inspect::spec_inspect(data@, None) == Err::<
                inspect::Inspection,
                crate::error::NxsError,
            >(e),
        },
{
    match args.to {
        ExportFormat::Json => json_out::run(data, args),
        ExportFormat::Csv => csv_out::run(data, args),
    }
}

} // verus!
