//! `.nxb` → JSON: every record the tail-index points to, as an array of
//! objects whose members follow dictionary key order.

use vstd::prelude::*;
use vstd::utf8::encode_utf8;
use super::{ExportArgs, ExportReport};
use super::inspect::{Inspection, inspect_data, json_object, json_objects, records_view, spec_inspect};
use super::render::push_json_value;
use crate::decoder::{DecodedValue, ValueView, entries_view};
use crate::error::NxsError;
use crate::text::push_char;

verus! {

/// The JSON export of a file: `[`, the records as objects, `]` and a newline.
pub open spec fn json_export(ins: Inspection) -> Seq<char> {
    seq!['['] + json_objects(ins.records) + seq![']', '\n']
}

/// Exports every record of `data` as a JSON array. The report counts the
/// records read and the UTF-8 bytes of the output.
pub fn run(data: &[u8], args: &ExportArgs) -> (r: Result<(String, ExportReport), NxsError>)
    requires
        data@.len() <= isize::MAX,
    ensures
        match r {
            Ok((out, rep)) => {
                &&& spec_inspect(data@, None) is Ok
                &&& out@ == json_export(spec_inspect(data@, None)->Ok_0)
                &&& rep.records_read == spec_inspect(data@, None)->Ok_0.records.len()
                &&& rep.output_bytes == encode_utf8(out@).len() as usize
            },
            Err(e) => spec_inspect(data@, None) == Err::<Inspection, NxsError>(e),
        },
{
    let (_f, _entries, records) = match inspect_data(data, None) {
        Ok(x) => x,
        Err(e) => {
            return Err(e);
        },
    };
    let ghost rv = records_view(records@);
    let mut out = String::new();
    push_char(&mut out, '[');
    let ghost start = out@;
    let mut k: usize = 0;
    assert(rv.take(0) =~= Seq::<Seq<(Seq<char>, ValueView)>>::empty());
    assert(out@ =~= start + json_objects(rv.take(0)));
    while k < records.len()
        invariant
            rv == records_view(records@),
            k <= records@.len(),
            out@ == start + json_objects(rv.take(k as int)),
        decreases records@.len() - k,
    {
        if k > 0 {
            push_char(&mut out, ',');
        }
        super::inspect::push_json_object(&mut out, &records[k]);
        assert(rv.take(k + 1).drop_last() =~= rv.take(k as int));
        assert(out@ =~= start + json_objects(rv.take(k + 1)));
        k = k + 1;
    }
    assert(rv.take(records@.len() as int) =~= rv);
    push_char(&mut out, ']');
    push_char(&mut out, '\n');
    let s = out.as_str();
    let n = s.len();
    let read = records.len();
    proof {
        assert(out@ =~= seq!['['] + json_objects(rv) + seq![']', '\n']);
    }
    Ok((out, ExportReport { records_read: read, output_bytes: n }))
}

} // verus!
