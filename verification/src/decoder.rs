//! Minimal `.nxb` decoder: reads the preamble and the embedded schema header,
//! then walks the root object, returning its present fields in key order.
//!
//! Every offset is checked against the buffer before it is read: an offset
//! outside the buffer yields `NxsError::OutOfBounds`, never a read past the end.

use vstd::prelude::*;
use vstd::slice::slice_to_vec;
use vstd::utf8::{valid_utf8, decode_utf8};
use crate::convert::infer::{
    SIGIL_BINARY, SIGIL_BOOL, SIGIL_FLOAT, SIGIL_INT, SIGIL_NULL, SIGIL_STRING, SIGIL_TIME,
};
use crate::error::NxsError;
use crate::text::{decimal, push_decimal};

verus! {

/// `NXSB`, the first four bytes of every file.
pub const MAGIC_FILE: u32 = 0x4E585342;
/// `NXSO`, the first four bytes of every object.
pub const MAGIC_OBJ: u32 = 0x4E58534F;
/// `NXS!`, the last four bytes of every file.
pub const MAGIC_FOOTER: u32 = 0x2153584E;

// ---------------------------------------------------------------------------
// Little-endian fields
// ---------------------------------------------------------------------------

pub open spec fn le_u16(d: Seq<u8>, i: int) -> int {
    d[i] as int + 256 * d[i + 1]
}

pub open spec fn le_u32(d: Seq<u8>, i: int) -> int {
    d[i] as int + 256 * d[i + 1] + 65536 * d[i + 2] + 16777216 * d[i + 3]
}

pub open spec fn le_u64(d: Seq<u8>, i: int) -> int {
    le_u32(d, i) + 4294967296 * le_u32(d, i + 4)
}

/// The two's-complement reading of eight little-endian bytes.
pub open spec fn le_i64(d: Seq<u8>, i: int) -> int {
    let u = le_u64(d, i);
    if u < 0x8000_0000_0000_0000 {
        u
    } else {
        u - 0x1_0000_0000_0000_0000
    }
}

pub fn read_u16(data: &[u8], i: usize) -> (r: u16)
    requires
        i + 2 <= data@.len(),
    ensures
        r as int == le_u16(data@, i as int),
{
    (data[i] as u16) + (data[i + 1] as u16) * 256
}

pub fn read_u32(data: &[u8], i: usize) -> (r: u32)
    requires
        i + 4 <= data@.len(),
    ensures
        r as int == le_u32(data@, i as int),
{
    (data[i] as u32) + (data[i + 1] as u32) * 256 + (data[i + 2] as u32) * 65536 + (data[i
        + 3] as u32) * 16777216
}

pub fn read_u64(data: &[u8], i: usize) -> (r: u64)
    requires
        i + 8 <= data@.len(),
    ensures
        r as int == le_u64(data@, i as int),
{
    let _n = data.len();
    let lo = read_u32(data, i) as u64;
    let hi = read_u32(data, i + 4) as u64;
    lo + hi * 4294967296
}

pub fn read_i64(data: &[u8], i: usize) -> (r: i64)
    requires
        i + 8 <= data@.len(),
    ensures
        r as int == le_i64(data@, i as int),
{
    let u = read_u64(data, i);
    if u < 0x8000_0000_0000_0000 {
        u as i64
    } else {
        ((u - 0x8000_0000_0000_0000) as i64) + i64::MIN
    }
}

// ---------------------------------------------------------------------------
// Decoded values
// ---------------------------------------------------------------------------

/// A decoded field value. A float is carried as its IEEE-754 bit pattern.
#[derive(Debug, Clone)]
pub enum DecodedValue {
    Int(i64),
    Float(u64),
    Bool(bool),
    Str(String),
    Time(i64),
    Binary(Vec<u8>),
    Null,
    Raw(Vec<u8>),
}

/// The mathematical model of a `DecodedValue`.
pub enum ValueView {
    Int(int),
    Float(u64),
    Bool(bool),
    Str(Seq<char>),
    Time(int),
    Binary(Seq<u8>),
    Null,
    Raw(Seq<u8>),
}

impl View for DecodedValue {
    type V = ValueView;

    open spec fn view(&self) -> ValueView {
        match self {
            DecodedValue::Int(i) => ValueView::Int(*i as int),
            DecodedValue::Float(b) => ValueView::Float(*b),
            DecodedValue::Bool(b) => ValueView::Bool(*b),
            DecodedValue::Str(s) => ValueView::Str(s@),
            DecodedValue::Time(t) => ValueView::Time(*t as int),
            DecodedValue::Binary(v) => ValueView::Binary(v@),
            DecodedValue::Null => ValueView::Null,
            DecodedValue::Raw(v) => ValueView::Raw(v@),
        }
    }
}

/// A field list, as names and values.
pub open spec fn fields_view(v: Seq<(String, DecodedValue)>) -> Seq<(Seq<char>, ValueView)> {
    v.map_values(|p: (String, DecodedValue)| (p.0@, p.1@))
}

pub open spec fn strings_view(v: Seq<String>) -> Seq<Seq<char>> {
    v.map_values(|s: String| s@)
}

/// The result of a decoded file.
pub struct DecodedFile {
    pub version: u16,
    pub flags: u16,
    pub dict_hash: u64,
    pub tail_ptr: u64,
    pub keys: Vec<String>,
    /// The TypeManifest: the sigil byte of each dictionary key.
    pub sigils: Vec<u8>,
    pub root_fields: Vec<(String, DecodedValue)>,
}

/// The mathematical model of a `DecodedFile`.
pub struct FileView {
    pub version: u16,
    pub flags: u16,
    pub dict_hash: u64,
    pub tail_ptr: u64,
    pub keys: Seq<Seq<char>>,
    pub sigils: Seq<u8>,
    pub root_fields: Seq<(Seq<char>, ValueView)>,
}

impl View for DecodedFile {
    type V = FileView;

    open spec fn view(&self) -> FileView {
        FileView {
            version: self.version,
            flags: self.flags,
            dict_hash: self.dict_hash,
            tail_ptr: self.tail_ptr,
            keys: strings_view(self.keys@),
            sigils: self.sigils@,
            root_fields: fields_view(self.root_fields@),
        }
    }
}

// ---------------------------------------------------------------------------
// Specification of the decoder
// ---------------------------------------------------------------------------

/// The value found at `off` for a key without a TypeManifest entry (or with a
/// sigil that has no fixed cell layout): a nested object is returned as its
/// first (at most eight) raw bytes, a single zero byte as Null, eight
/// available bytes as an Int64, and a shorter tail as raw bytes.
pub open spec fn spec_value_at(d: Seq<u8>, off: int) -> Result<ValueView, NxsError> {
    if off < 0 || off >= d.len() {
        Err(NxsError::OutOfBounds)
    } else if off + 4 <= d.len() && le_u32(d, off) == MAGIC_OBJ as int {
        let n = if d.len() - off < 8 { d.len() - off } else { 8 };
        Ok(ValueView::Raw(d.subrange(off, off + n)))
    } else if d[off] == 0 {
        Ok(ValueView::Null)
    } else if off + 8 <= d.len() {
        Ok(ValueView::Int(le_i64(d, off)))
    } else {
        Ok(ValueView::Raw(d.subrange(off, d.len() as int)))
    }
}

/// The bytes of a length-prefixed cell (String or Binary) at `off`.
pub open spec fn prefixed_bytes(d: Seq<u8>, off: int) -> Seq<u8> {
    d.subrange(off + 4, off + 4 + le_u32(d, off))
}

/// The value of the cell at `off` for a key whose TypeManifest sigil is
/// `sigil`: Int64, Time and Float64 read eight bytes, Bool one byte, Null no
/// byte, String and Binary a u32 length then that many bytes (a String's
/// bytes decoded as UTF-8). A key without a sigil, or with any other sigil,
/// falls back to `spec_value_at`. Every byte read must lie in the buffer.
pub open spec fn spec_cell(d: Seq<u8>, off: int, sigil: Option<u8>) -> Result<ValueView, NxsError> {
    if off < 0 || off >= d.len() {
        Err(NxsError::OutOfBounds)
    } else {
        match sigil {
            Some(s) => if s == SIGIL_INT || s == SIGIL_TIME || s == SIGIL_FLOAT {
                if off + 8 > d.len() {
                    Err(NxsError::OutOfBounds)
                } else if s == SIGIL_INT {
                    Ok(ValueView::Int(le_i64(d, off)))
                } else if s == SIGIL_TIME {
                    Ok(ValueView::Time(le_i64(d, off)))
                } else {
                    Ok(ValueView::Float(le_u64(d, off) as u64))
                }
            } else if s == SIGIL_BOOL {
                Ok(ValueView::Bool(d[off] != 0))
            } else if s == SIGIL_NULL {
                Ok(ValueView::Null)
            } else if s == SIGIL_STRING || s == SIGIL_BINARY {
                if off + 4 > d.len() || off + 4 + le_u32(d, off) > d.len() {
                    Err(NxsError::OutOfBounds)
                } else if s == SIGIL_STRING {
                    Ok(ValueView::Str(lossy_utf8(prefixed_bytes(d, off))))
                } else {
                    Ok(ValueView::Binary(prefixed_bytes(d, off)))
                }
            } else {
                spec_value_at(d, off)
            },
            None => spec_value_at(d, off),
        }
    }
}

/// The TypeManifest sigil of key `k`, if the manifest has one.
pub open spec fn key_sigil(sigils: Seq<u8>, k: int) -> Option<u8> {
    if 0 <= k < sigils.len() {
        Some(sigils[k])
    } else {
        None
    }
}

/// Bit 0 of the preamble flags: offset-table entries are u32 (jumbo mode)
/// rather than u16.
pub open spec fn jumbo_flag(flags: int) -> bool {
    flags % 2 == 1
}

/// The width in bytes of one offset-table entry.
pub open spec fn entry_width(jumbo: bool) -> int {
    if jumbo {
        4
    } else {
        2
    }
}

/// Entry `j` of the offset table at `table`.
pub open spec fn table_entry(d: Seq<u8>, table: int, j: int, jumbo: bool) -> int {
    if jumbo {
        le_u32(d, table + 4 * j)
    } else {
        le_u16(d, table + 2 * j)
    }
}

/// The position of the last byte of a LEB128 bitmask starting at `p`: the first
/// byte at or after `p` whose continuation bit is clear. A result at or past
/// the end of `d` means the mask runs off the buffer.
pub open spec fn mask_last(d: Seq<u8>, p: int) -> int
    decreases d.len() - p,
{
    if p >= d.len() {
        p
    } else if d[p] < 128 {
        p
    } else {
        mask_last(d, p + 1)
    }
}

/// `2^j` for the seven data bits of a mask byte.
pub open spec fn weight(j: int) -> int {
    if j == 0 {
        1
    } else if j == 1 {
        2
    } else if j == 2 {
        4
    } else if j == 3 {
        8
    } else if j == 4 {
        16
    } else if j == 5 {
        32
    } else {
        64
    }
}

/// Bit `j` (0..7) of byte `b` (bit 0 is the least significant).
pub open spec fn bit_of(b: u8, j: int) -> bool {
    (b as int / weight(j)) % 2 == 1
}

/// The presence bits of the mask bytes `d[p..=q]`: seven data bits per byte,
/// least significant bit first; bit `k` stands for dictionary key `k`.
pub open spec fn mask_bits(d: Seq<u8>, p: int, q: int) -> Seq<bool> {
    Seq::new((7 * (q + 1 - p)) as nat, |k: int| bit_of(d[p + k / 7], k % 7))
}

/// The number of set bits.
pub open spec fn count_true(s: Seq<bool>) -> nat
    decreases s.len(),
{
    if s.len() == 0 {
        0
    } else {
        count_true(s.drop_last()) + if s.last() {
            1nat
        } else {
            0nat
        }
    }
}

/// The name of dictionary key `idx`, or `key_<idx>` where the dictionary has
/// no such key.
pub open spec fn field_name(keys: Seq<Seq<char>>, idx: int) -> Seq<char> {
    if 0 <= idx < keys.len() {
        keys[idx]
    } else {
        "key_"@ + decimal(idx as nat)
    }
}

/// The fields of an object whose presence bits are `bits`, read in key order:
/// the j-th present key takes the j-th entry of the offset table at `table`,
/// an offset relative to the object's start `offset`, and its cell is read by
/// the key's sigil. The first value that cannot be read makes the whole
/// object fail.
pub open spec fn object_fields(
    d: Seq<u8>,
    offset: int,
    table: int,
    keys: Seq<Seq<char>>,
    sigils: Seq<u8>,
    jumbo: bool,
    bits: Seq<bool>,
) -> Result<Seq<(Seq<char>, ValueView)>, NxsError>
    decreases bits.len(),
{
    if bits.len() == 0 {
        Ok(seq![])
    } else {
        match object_fields(d, offset, table, keys, sigils, jumbo, bits.drop_last()) {
            Err(e) => Err(e),
            Ok(prev) => if bits.last() {
                let j = prev.len() as int;
                match spec_cell(
                    d,
                    offset + table_entry(d, table, j, jumbo),
                    key_sigil(sigils, bits.len() - 1),
                ) {
                    Ok(v) => Ok(prev.push((field_name(keys, bits.len() - 1), v))),
                    Err(e) => Err(e),
                }
            } else {
                Ok(prev)
            },
        }
    }
}

/// The object that starts at `offset`: magic, length, bitmask, offset table
/// (u16 entries, u32 in jumbo mode), then one value per present key, read by
/// that key's sigil in `sigils`.
pub open spec fn spec_decode_object(
    d: Seq<u8>,
    offset: int,
    keys: Seq<Seq<char>>,
    sigils: Seq<u8>,
    jumbo: bool,
) -> Result<
    Seq<(Seq<char>, ValueView)>,
    NxsError,
> {
    if offset < 0 || offset + 8 > d.len() {
        Err(NxsError::OutOfBounds)
    } else if le_u32(d, offset) != MAGIC_OBJ as int {
        Err(NxsError::BadMagic)
    } else {
        let p = offset + 8;
        let q = mask_last(d, p);
        if q >= d.len() {
            Err(NxsError::OutOfBounds)
        } else {
            let bits = mask_bits(d, p, q);
            let table = q + 1;
            if table + entry_width(jumbo) * count_true(bits) > d.len() {
                Err(NxsError::OutOfBounds)
            } else {
                object_fields(d, offset, table, keys, sigils, jumbo, bits)
            }
        }
    }
}

/// The position of the null terminator of the string starting at `p`
/// (or the end of `d` when there is none).
pub open spec fn terminator(d: Seq<u8>, p: int) -> int
    decreases d.len() - p,
{
    if p >= d.len() || d[p] == 0 {
        p
    } else {
        terminator(d, p + 1)
    }
}

/// Where the `k`-th key name of the string pool at `p0` starts.
pub open spec fn key_start(d: Seq<u8>, p0: int, k: nat) -> int
    decreases k,
{
    if k == 0 {
        p0
    } else {
        terminator(d, key_start(d, p0, (k - 1) as nat)) + 1
    }
}

/// All `n` key names of the pool start inside the buffer.
pub open spec fn pool_ok(d: Seq<u8>, p0: int, n: nat) -> bool {
    forall|k: nat| k < n ==> #[trigger] key_start(d, p0, k) <= d.len()
}

/// The bytes of the `k`-th key name.
pub open spec fn pool_name_bytes(d: Seq<u8>, p0: int, k: nat) -> Seq<u8> {
    d.subrange(key_start(d, p0, k), terminator(d, key_start(d, p0, k)))
}

/// The `n` key names of the pool, decoded as UTF-8 (invalid sequences replaced).
pub open spec fn pool_names(d: Seq<u8>, p0: int, n: nat) -> Seq<Seq<char>> {
    Seq::new(n, |k: int| lossy_utf8(pool_name_bytes(d, p0, k as nat)))
}

pub open spec fn round_up8(p: int) -> int {
    if p % 8 == 0 {
        p
    } else {
        p + (8 - p % 8)
    }
}

/// Bit 1 of the preamble flags: a schema header follows the preamble.
pub open spec fn schema_flag(flags: int) -> bool {
    (flags / 2) % 2 == 1
}

/// A schema header is read when the flag is set and bytes follow the preamble.
pub open spec fn has_schema(d: Seq<u8>) -> bool {
    schema_flag(le_u16(d, 6)) && 32 < d.len()
}

/// The number of keys in the schema header.
pub open spec fn schema_key_count(d: Seq<u8>) -> nat {
    if has_schema(d) {
        le_u16(d, 32) as nat
    } else {
        0
    }
}

/// Where the root object starts.
pub open spec fn root_offset(d: Seq<u8>) -> int {
    if has_schema(d) {
        round_up8(key_start(d, 34 + schema_key_count(d) as int, schema_key_count(d)))
    } else {
        32
    }
}

/// The dictionary keys of the schema header.
pub open spec fn schema_keys(d: Seq<u8>) -> Seq<Seq<char>> {
    if has_schema(d) {
        pool_names(d, 34 + schema_key_count(d) as int, schema_key_count(d))
    } else {
        seq![]
    }
}

/// The TypeManifest of the schema header: one sigil byte per key.
pub open spec fn schema_sigils(d: Seq<u8>) -> Seq<u8> {
    if has_schema(d) {
        d.subrange(34, 34 + schema_key_count(d) as int)
    } else {
        seq![]
    }
}

/// Where the schema header ends: just past the last key name's null
/// terminator (the alignment padding is not part of it), clipped to the buffer.
pub open spec fn schema_header_end(d: Seq<u8>) -> int {
    let e = key_start(d, 34 + schema_key_count(d) as int, schema_key_count(d));
    if e > d.len() {
        d.len() as int
    } else {
        e
    }
}

/// The bytes of the schema header (`KeyCount`, `TypeManifest`, `StringPool`),
/// the input of the DictHash; empty without a schema header.
pub open spec fn schema_header_bytes(d: Seq<u8>) -> Seq<u8> {
    if has_schema(d) {
        d.subrange(32, schema_header_end(d))
    } else {
        seq![]
    }
}

/// The whole decoder: preamble checks, schema header, root object.
pub open spec fn spec_decode(d: Seq<u8>) -> Result<FileView, NxsError> {
    if d.len() < 32 {
        Err(NxsError::OutOfBounds)
    } else if le_u32(d, 0) != MAGIC_FILE as int {
        Err(NxsError::BadMagic)
    } else if le_u32(d, d.len() - 4) != MAGIC_FOOTER as int {
        Err(NxsError::BadMagic)
    } else if has_schema(d) && d.len() < 34 {
        Err(NxsError::OutOfBounds)
    } else if has_schema(d) && !pool_ok(d, 34 + schema_key_count(d) as int, schema_key_count(d)) {
        Err(NxsError::OutOfBounds)
    } else {
        match spec_decode_object(
            d,
            root_offset(d),
            schema_keys(d),
            schema_sigils(d),
            jumbo_flag(le_u16(d, 6)),
        ) {
            Err(e) => Err(e),
            Ok(fields) => Ok(
                FileView {
                    version: le_u16(d, 4) as u16,
                    flags: le_u16(d, 6) as u16,
                    dict_hash: le_u64(d, 8) as u64,
                    tail_ptr: le_u64(d, 16) as u64,
                    keys: schema_keys(d),
                    sigils: schema_sigils(d),
                    root_fields: fields,
                },
            ),
        }
    }
}

// ---------------------------------------------------------------------------
// Key-name decoding
// ---------------------------------------------------------------------------

/// What `String::from_utf8_lossy` makes of the given bytes.
pub uninterp spec fn lossy_utf8(bytes: Seq<u8>) -> Seq<char>;

/// Trusted: `String::from_utf8_lossy` (then `into_owned`). Its result is named
/// `lossy_utf8` of the bytes; for valid UTF-8 the standard library documents it
/// as the decoded string. What it makes of invalid sequences (U+FFFD
/// replacements) is left unsaid.
#[verifier::external_body]
fn string_from_utf8_lossy(bytes: &[u8]) -> (s: String)
    ensures
        s@ == lossy_utf8(bytes@),
        valid_utf8(bytes@) ==> s@ == decode_utf8(bytes@),
{
    String::from_utf8_lossy(bytes).into_owned()
}

// ---------------------------------------------------------------------------
// Executable decoder
// ---------------------------------------------------------------------------

/// Decodes a `.nxb` buffer: preamble, embedded schema keys, and the fields of
/// the root object.
#[verifier::rlimit(40)]
pub fn decode(data: &[u8]) -> (r: Result<DecodedFile, NxsError>)
    requires
        data@.len() <= isize::MAX,
    ensures
        match r {
            Ok(f) => spec_decode(data@) == Ok::<FileView, NxsError>(f@),
            Err(e) => spec_decode(data@) == Err::<FileView, NxsError>(e),
        },
{
    let len = data.len();
    if len < 32 {
        return Err(NxsError::OutOfBounds);
    }
    let magic = read_u32(data, 0);
    if magic != MAGIC_FILE {
        return Err(NxsError::BadMagic);
    }
    let footer_magic = read_u32(data, len - 4);
    if footer_magic != MAGIC_FOOTER {
        return Err(NxsError::BadMagic);
    }
    let version = read_u16(data, 4);
    let flags = read_u16(data, 6);
    let dict_hash = read_u64(data, 8);
    let tail_ptr = read_u64(data, 16);

    let schema_embedded = (flags / 2) % 2 == 1;
    let (keys, pos) = if schema_embedded && 32 < len {
        match read_schema_keys(data) {
            Ok(kp) => kp,
            Err(e) => {
                return Err(e);
            },
        }
    } else {
        (Vec::new(), 32usize)
    };
    assert(strings_view(keys@) =~= schema_keys(data@));
    let sigils: Vec<u8> = if schema_embedded && 32 < len {
        let kc = read_u16(data, 32) as usize;
        proof {
            if kc > 0 {
                assert(key_start(data@, 34 + kc, 0) <= len);
            }
        }
        slice_to_vec(&data[34..34 + kc])
    } else {
        Vec::new()
    };
    assert(sigils@ =~= schema_sigils(data@));
    let jumbo = flags % 2 == 1;
    let root_fields = match decode_object(data, pos, keys.as_slice(), sigils.as_slice(), jumbo) {
        Ok(f) => f,
        Err(e) => {
            return Err(e);
        },
    };
    Ok(DecodedFile { version, flags, dict_hash, tail_ptr, keys, sigils, root_fields })
}

/// Reads the key names of the schema header (which follows the preamble) and
/// returns them with the 8-aligned position where the root object starts.
fn read_schema_keys(data: &[u8]) -> (r: Result<(Vec<String>, usize), NxsError>)
    requires
        data@.len() <= isize::MAX,
        data@.len() >= 32,
        has_schema(data@),
    ensures
        match r {
            Ok((keys, pos)) => {
                &&& data@.len() >= 34
                &&& pool_ok(data@, 34 + schema_key_count(data@) as int, schema_key_count(data@))
                &&& strings_view(keys@) == schema_keys(data@)
                &&& pos as int == root_offset(data@)
                &&& pos <= data@.len() + 8
            },
            Err(e) => {
                &&& e == NxsError::OutOfBounds
                &&& (data@.len() < 34 || !pool_ok(
                    data@,
                    34 + schema_key_count(data@) as int,
                    schema_key_count(data@),
                ))
            },
        },
{
    let ghost d = data@;
    let len = data.len();
    if len < 34 {
        return Err(NxsError::OutOfBounds);
    }
    let key_count = read_u16(data, 32) as usize;
    let mut pos: usize = 34 + key_count;
    let ghost p0 = pos as int;
    let mut keys: Vec<String> = Vec::new();
    let mut k: usize = 0;
    while k < key_count
        invariant
            d == data@,
            len == d.len(),
            len <= isize::MAX,
            p0 == 34 + schema_key_count(d),
            key_count == schema_key_count(d),
            k <= key_count,
            pos as int == key_start(d, p0, k as nat),
            k == 0 ==> pos == 34 + key_count,
            k > 0 ==> pos <= len + 1,
            forall|kk: nat| kk < k ==> #[trigger] key_start(d, p0, kk) <= len,
            strings_view(keys@) =~= pool_names(d, p0, k as nat),
        decreases key_count - k,
    {
        let start = pos;
        if start > len {
            assert(!pool_ok(d, p0, key_count as nat)) by {
                assert(key_start(d, p0, k as nat) > len);
            }
            return Err(NxsError::OutOfBounds);
        }
        while pos < len && data[pos] != 0
            invariant
                d == data@,
                len == d.len(),
                start <= pos <= len,
                terminator(d, start as int) == terminator(d, pos as int),
            decreases len - pos,
        {
            pos = pos + 1;
        }
        assert(terminator(d, pos as int) == pos as int);
        let name = string_from_utf8_lossy(&data[start..pos]);
        let ghost before = keys@;
        keys.push(name);
        pos = pos + 1;
        proof {
            assert(key_start(d, p0, (k + 1) as nat) == terminator(d, key_start(d, p0, k as nat))
                + 1);
            assert forall|kk: nat| kk < k + 1 implies #[trigger] key_start(d, p0, kk) <= len by {
                if kk == k {
                }
            }
            assert(pool_name_bytes(d, p0, k as nat) =~= d.subrange(start as int, pos - 1));
            assert(strings_view(keys@) =~= strings_view(before).push(name@));
        }
        k = k + 1;
    }
    assert(pool_ok(d, p0, key_count as nat));
    if pos % 8 != 0 {
        pos = pos + (8 - pos % 8);
    }
    Ok((keys, pos))
}

proof fn lemma_terminator_ge(d: Seq<u8>, p: int)
    ensures
        terminator(d, p) >= p,
    decreases d.len() - p,
{
    if p < d.len() && d[p] != 0 {
        lemma_terminator_ge(d, p + 1);
    }
}

proof fn lemma_key_start_ge(d: Seq<u8>, p0: int, k: nat)
    ensures
        key_start(d, p0, k) >= p0,
    decreases k,
{
    if k > 0 {
        lemma_key_start_ge(d, p0, (k - 1) as nat);
        lemma_terminator_ge(d, key_start(d, p0, (k - 1) as nat));
    }
}

/// The end of the schema header of a file that decodes with a schema header.
pub fn schema_header_end_of(data: &[u8]) -> (e: usize)
    requires
        data@.len() <= isize::MAX,
        spec_decode(data@) is Ok,
        has_schema(data@),
    ensures
        e as int == schema_header_end(data@),
        32 <= e <= data@.len(),
{
    let ghost d = data@;
    let len = data.len();
    let key_count = read_u16(data, 32) as usize;
    let mut pos: usize = 34 + key_count;
    let ghost p0 = pos as int;
    let mut k: usize = 0;
    proof {
        lemma_key_start_ge(d, p0, key_count as nat);
    }
    while k < key_count
        invariant
            d == data@,
            len == d.len(),
            len <= isize::MAX,
            p0 == 34 + schema_key_count(d),
            key_count == schema_key_count(d),
            pool_ok(d, p0, key_count as nat),
            k <= key_count,
            pos as int == key_start(d, p0, k as nat),
            pos <= len + 1,
        decreases key_count - k,
    {
        assert(key_start(d, p0, k as nat) <= len);
        while pos < len && data[pos] != 0
            invariant
                d == data@,
                len == d.len(),
                pos <= len,
                terminator(d, key_start(d, p0, k as nat)) == terminator(d, pos as int),
            decreases len - pos,
        {
            pos = pos + 1;
        }
        pos = pos + 1;
        k = k + 1;
    }
    if pos > len {
        len
    } else {
        pos
    }
}

/// Reads the LEB128 presence mask that starts at `start`; returns its bits and
/// the position of its last byte.
fn read_mask(data: &[u8], start: usize) -> (r: Result<(Vec<bool>, usize), NxsError>)
    requires
        start <= data@.len(),
    ensures
        match r {
            Ok((bits, q)) => {
                &&& q as int == mask_last(data@, start as int)
                &&& q < data@.len()
                &&& bits@ == mask_bits(data@, start as int, q as int)
            },
            Err(e) => e == NxsError::OutOfBounds && mask_last(data@, start as int) >= data@.len(),
        },
{
    let ghost d = data@;
    let len = data.len();
    let mut pos = start;
    let mut present_bits: Vec<bool> = Vec::new();
    while pos < len
        invariant
            d == data@,
            len == d.len(),
            start <= pos <= len,
            mask_last(d, start as int) == mask_last(d, pos as int),
            present_bits@ =~= mask_bits(d, start as int, pos - 1),
            forall|i: int| start <= i < pos ==> d[i] >= 128,
        decreases len - pos,
    {
        let byte = data[pos];
        let ghost before = present_bits@;
        push_mask_byte(&mut present_bits, byte);
        let ghost after = present_bits@;
        assert(after =~= mask_bits(d, start as int, pos as int)) by {
            assert forall|k: int| 0 <= k < after.len() implies after[k] == bit_of(
                d[start + k / 7],
                k % 7,
            ) by {
                if k < before.len() {
                } else {
                    assert(k / 7 == pos - start);
                }
            }
        }
        if byte < 128 {
            return Ok((present_bits, pos));
        }
        pos = pos + 1;
    }
    Err(NxsError::OutOfBounds)
}

/// The number of set bits.
fn count_present(bits: &Vec<bool>) -> (n: usize)
    ensures
        n as nat == count_true(bits@),
{
    let mut n: usize = 0;
    let mut i: usize = 0;
    while i < bits.len()
        invariant
            i <= bits@.len(),
            n as nat == count_true(bits@.take(i as int)),
            n <= i,
        decreases bits@.len() - i,
    {
        assert(bits@.take(i + 1).drop_last() =~= bits@.take(i as int));
        if bits[i] {
            n = n + 1;
        }
        i = i + 1;
    }
    assert(bits@.take(bits@.len() as int) =~= bits@);
    n
}

/// Reads `count` entries of the offset table at `table` (u16 each, u32 in
/// jumbo mode), each turned into an absolute position by adding the object
/// start `offset`.
fn read_offsets(data: &[u8], offset: usize, table: usize, count: usize, jumbo: bool) -> (r: Result<
    Vec<u64>,
    NxsError,
>)
    requires
        data@.len() <= isize::MAX,
        offset < data@.len(),
        table <= data@.len(),
    ensures
        match r {
            Ok(offs) => {
                &&& table + entry_width(jumbo) * count <= data@.len()
                &&& offs@.len() == count
                &&& forall|j: int|
                    0 <= j < count ==> #[trigger] offs@[j] == offset + table_entry(
                        data@,
                        table as int,
                        j,
                        jumbo,
                    )
            },
            Err(e) => e == NxsError::OutOfBounds && table + entry_width(jumbo) * count
                > data@.len(),
        },
{
    let len = data.len();
    let w: usize = if jumbo {
        4
    } else {
        2
    };
    let mut offsets: Vec<u64> = Vec::new();
    let mut pos = table;
    let mut j: usize = 0;
    while j < count
        invariant
            len == data@.len(),
            len <= isize::MAX,
            offset < len,
            table <= len,
            w == entry_width(jumbo),
            j <= count,
            pos == table + w * j,
            pos <= len,
            offsets@.len() == j,
            forall|jj: int|
                0 <= jj < j ==> #[trigger] offsets@[jj] == offset + table_entry(
                    data@,
                    table as int,
                    jj,
                    jumbo,
                ),
        decreases count - j,
    {
        if len - pos < w {
            proof {
                assert(table + w * count >= table + w * (j + 1)) by (nonlinear_arith)
                    requires
                        j + 1 <= count,
                        w >= 0,
                ;
            }
            return Err(NxsError::OutOfBounds);
        }
        let off: u64 = if jumbo {
            read_u32(data, pos) as u64
        } else {
            read_u16(data, pos) as u64
        };
        offsets.push(offset as u64 + off);
        pos = pos + w;
        j = j + 1;
    }
    Ok(offsets)
}

/// Decodes the object that starts at `offset`.
fn decode_object(data: &[u8], offset: usize, keys: &[String], sigils: &[u8], jumbo: bool) -> (r: Result<
    Vec<(String, DecodedValue)>,
    NxsError,
>)
    requires
        data@.len() <= isize::MAX,
        offset <= data@.len() + 8,
    ensures
        match r {
            Ok(v) => spec_decode_object(data@, offset as int, strings_view(keys@), sigils@, jumbo) == Ok::<
                Seq<(Seq<char>, ValueView)>,
                NxsError,
            >(fields_view(v@)),
            Err(e) => spec_decode_object(data@, offset as int, strings_view(keys@), sigils@, jumbo) == Err::<
                Seq<(Seq<char>, ValueView)>,
                NxsError,
            >(e),
        },
{
    let ghost d = data@;
    let ghost kv = strings_view(keys@);
    let len = data.len();
    if offset > len || len - offset < 8 {
        return Err(NxsError::OutOfBounds);
    }
    let magic = read_u32(data, offset);
    if magic != MAGIC_OBJ {
        return Err(NxsError::BadMagic);
    }
    let (present_bits, q) = match read_mask(data, offset + 8) {
        Ok(bq) => bq,
        Err(e) => {
            return Err(e);
        },
    };
    let ghost bits = present_bits@;
    let present_count = count_present(&present_bits);
    let table = q + 1;
    let offsets = match read_offsets(data, offset, table, present_count, jumbo) {
        Ok(o) => o,
        Err(e) => {
            return Err(e);
        },
    };

    // One value per present key, in key order
    let mut fields: Vec<(String, DecodedValue)> = Vec::new();
    let mut offset_idx: usize = 0;
    let mut bit_idx: usize = 0;
    let n_offsets = offsets.len();
    assert(bits.take(0) =~= Seq::<bool>::empty());
    assert(fields_view(fields@) =~= Seq::<(Seq<char>, ValueView)>::empty());
    assert(spec_decode_object(d, offset as int, kv, sigils@, jumbo) == object_fields(d, offset as int, table as int, kv, sigils@, jumbo, bits));
    while bit_idx < present_bits.len()
        invariant
            spec_decode_object(d, offset as int, kv, sigils@, jumbo) == object_fields(d, offset as int, table as int, kv, sigils@, jumbo, bits),
            n_offsets == offsets@.len(),
            d == data@,
            kv == strings_view(keys@),
            bits == present_bits@,
            len == d.len(),
            offsets@.len() == count_true(bits),
            forall|jj: int|
                0 <= jj < offsets@.len() ==> #[trigger] offsets@[jj] == offset + table_entry(
                    d,
                    table as int,
                    jj,
                    jumbo,
                ),
            bit_idx <= bits.len(),
            offset_idx as nat == count_true(bits.take(bit_idx as int)),
            fields@.len() == offset_idx,
            object_fields(d, offset as int, table as int, kv, sigils@, jumbo, bits.take(bit_idx as int)) == Ok::<
                Seq<(Seq<char>, ValueView)>,
                NxsError,
            >(fields_view(fields@)),
        decreases bits.len() - bit_idx,
    {
        assert(bits.take(bit_idx + 1).drop_last() =~= bits.take(bit_idx as int));
        assert(bits.take(bit_idx + 1).last() == bits[bit_idx as int]);
        if present_bits[bit_idx] {
            proof {
                lemma_count_true_prefix(bits, bit_idx as int + 1);
                assert(count_true(bits.take(bit_idx + 1)) == offset_idx + 1);
            }
            let name = if bit_idx < keys.len() {
                keys[bit_idx].clone()
            } else {
                let mut s = String::from_str("key_");
                push_decimal(&mut s, bit_idx as u64);
                s
            };
            let val_offset = offsets[offset_idx];
            let sigil = if bit_idx < sigils.len() {
                Some(sigils[bit_idx])
            } else {
                None
            };
            let value = match decode_value_at(data, val_offset, sigil) {
                Ok(v) => v,
                Err(e) => {
                    proof {
                        assert(fields_view(fields@).len() == offset_idx);
                        assert(object_fields(d, offset as int, table as int, kv, sigils@, jumbo, bits.take(bit_idx + 1))
                            == Err::<Seq<(Seq<char>, ValueView)>, NxsError>(e));
                        lemma_object_fields_err(
                            d,
                            offset as int,
                            table as int,
                            kv,
                            sigils@,
                            jumbo,
                            bits,
                            bit_idx as int + 1,
                        );
                    }
                    return Err(e);
                },
            };
            let ghost old_fields = fields@;
            fields.push((name, value));
            assert(fields_view(fields@) =~= fields_view(old_fields).push(
                (field_name(kv, bit_idx as int), value@),
            ));
            offset_idx = offset_idx + 1;
        }
        bit_idx = bit_idx + 1;
    }
    assert(bits.take(bits.len() as int) =~= bits);
    Ok(fields)
}

/// Appends the seven presence bits of one mask byte, least significant first.
fn push_mask_byte(bits: &mut Vec<bool>, byte: u8)
    ensures
        final(bits)@ =~= old(bits)@ + Seq::new(7, |j: int| bit_of(byte, j)),
{
    bits.push(byte % 2 == 1);
    bits.push((byte / 2) % 2 == 1);
    bits.push((byte / 4) % 2 == 1);
    bits.push((byte / 8) % 2 == 1);
    bits.push((byte / 16) % 2 == 1);
    bits.push((byte / 32) % 2 == 1);
    bits.push((byte / 64) % 2 == 1);
}

/// Decodes the cell at `offset` by its key's sigil (see `spec_cell`).
fn decode_value_at(data: &[u8], offset: u64, sigil: Option<u8>) -> (r: Result<DecodedValue, NxsError>)
    ensures
        match r {
            Ok(v) => spec_cell(data@, offset as int, sigil) == Ok::<ValueView, NxsError>(v@),
            Err(e) => spec_cell(data@, offset as int, sigil) == Err::<ValueView, NxsError>(e),
        },
{
    let len = data.len();
    if offset >= len as u64 {
        return Err(NxsError::OutOfBounds);
    }
    let off = offset as usize;
    match sigil {
        Some(s) => {
            if s == SIGIL_INT || s == SIGIL_TIME || s == SIGIL_FLOAT {
                if len - off < 8 {
                    return Err(NxsError::OutOfBounds);
                }
                if s == SIGIL_INT {
                    Ok(DecodedValue::Int(read_i64(data, off)))
                } else if s == SIGIL_TIME {
                    Ok(DecodedValue::Time(read_i64(data, off)))
                } else {
                    Ok(DecodedValue::Float(read_u64(data, off)))
                }
            } else if s == SIGIL_BOOL {
                Ok(DecodedValue::Bool(data[off] != 0))
            } else if s == SIGIL_NULL {
                Ok(DecodedValue::Null)
            } else if s == SIGIL_STRING || s == SIGIL_BINARY {
                if len - off < 4 {
                    return Err(NxsError::OutOfBounds);
                }
                let n = read_u32(data, off) as usize;
                if len - off - 4 < n {
                    return Err(NxsError::OutOfBounds);
                }
                let bytes = &data[off + 4..off + 4 + n];
                assert(bytes@ =~= prefixed_bytes(data@, off as int));
                if s == SIGIL_STRING {
                    Ok(DecodedValue::Str(string_from_utf8_lossy(bytes)))
                } else {
                    Ok(DecodedValue::Binary(slice_to_vec(bytes)))
                }
            } else {
                decode_untyped(data, off)
            }
        },
        None => decode_untyped(data, off),
    }
}

/// Decodes the cell at `offset` without a sigil (see `spec_value_at`).
fn decode_untyped(data: &[u8], offset: usize) -> (r: Result<DecodedValue, NxsError>)
    ensures
        match r {
            Ok(v) => spec_value_at(data@, offset as int) == Ok::<ValueView, NxsError>(v@),
            Err(e) => spec_value_at(data@, offset as int) == Err::<ValueView, NxsError>(e),
        },
{
    let len = data.len();
    if offset >= len {
        return Err(NxsError::OutOfBounds);
    }
    if len - offset >= 4 {
        let maybe_magic = read_u32(data, offset);
        if maybe_magic == MAGIC_OBJ {
            let n = if len - offset < 8 {
                len - offset
            } else {
                8
            };
            return Ok(DecodedValue::Raw(slice_to_vec(&data[offset..offset + n])));
        }
    }
    if data[offset] == 0 {
        return Ok(DecodedValue::Null);
    }
    if len - offset >= 8 {
        return Ok(DecodedValue::Int(read_i64(data, offset)));
    }
    Ok(DecodedValue::Raw(slice_to_vec(&data[offset..len])))
}

// ---------------------------------------------------------------------------
// Lemmas
// ---------------------------------------------------------------------------

/// The set bits of a prefix are at most those of the whole sequence.
proof fn lemma_count_true_prefix(s: Seq<bool>, i: int)
    requires
        0 <= i <= s.len(),
    ensures
        count_true(s.take(i)) <= count_true(s),
    decreases s.len() - i,
{
    if i < s.len() {
        lemma_count_true_prefix(s, i + 1);
        assert(s.take(i + 1).drop_last() =~= s.take(i));
    } else {
        assert(s.take(i) =~= s);
    }
}

/// A failing prefix makes every longer prefix fail with the same error.
proof fn lemma_object_fields_err(
    d: Seq<u8>,
    offset: int,
    table: int,
    keys: Seq<Seq<char>>,
    sigils: Seq<u8>,
    jumbo: bool,
    bits: Seq<bool>,
    i: int,
)
    requires
        0 <= i <= bits.len(),
        object_fields(d, offset, table, keys, sigils, jumbo, bits.take(i)) is Err,
    ensures
        object_fields(d, offset, table, keys, sigils, jumbo, bits) == object_fields(
            d,
            offset,
            table,
            keys,
            sigils,
            jumbo,
            bits.take(i),
        ),
    decreases bits.len() - i,
{
    if i < bits.len() {
        assert(bits.take(i + 1).drop_last() =~= bits.take(i));
        lemma_object_fields_err(d, offset, table, keys, sigils, jumbo, bits, i + 1);
    } else {
        assert(bits.take(i) =~= bits);
    }
}

} // verus!

verus! {

// ---------------------------------------------------------------------------
// Tail-index and records
// ---------------------------------------------------------------------------

/// The tail-index at `tail`: a u32 entry count, then that many (KeyID u16,
/// AbsoluteOffset u64) pairs, all inside the buffer.
pub open spec fn spec_tail_index(d: Seq<u8>, tail: int) -> Result<Seq<(int, int)>, NxsError> {
    if tail < 0 || tail + 4 > d.len() {
        Err(NxsError::OutOfBounds)
    } else if tail + 4 + 10 * le_u32(d, tail) > d.len() {
        Err(NxsError::OutOfBounds)
    } else {
        Ok(
            Seq::new(
                le_u32(d, tail) as nat,
                |i: int| (le_u16(d, tail + 4 + 10 * i), le_u64(d, tail + 6 + 10 * i)),
            ),
        )
    }
}

pub open spec fn entries_view(v: Seq<(u16, u64)>) -> Seq<(int, int)> {
    v.map_values(|e: (u16, u64)| (e.0 as int, e.1 as int))
}

/// Reads the tail-index that the preamble's `TailPtr` points to.
pub fn read_tail_index(data: &[u8], tail_ptr: u64) -> (r: Result<Vec<(u16, u64)>, NxsError>)
    requires
        data@.len() <= isize::MAX,
    ensures
        match r {
            Ok(v) => spec_tail_index(data@, tail_ptr as int) == Ok::<Seq<(int, int)>, NxsError>(
                entries_view(v@),
            ),
            Err(e) => spec_tail_index(data@, tail_ptr as int) == Err::<Seq<(int, int)>, NxsError>(
                e,
            ),
        },
{
    let len = data.len();
    if tail_ptr > len as u64 || (len as u64) - tail_ptr < 4 {
        return Err(NxsError::OutOfBounds);
    }
    let tail = tail_ptr as usize;
    let count = read_u32(data, tail) as usize;
    if (len - tail - 4) / 10 < count {
        return Err(NxsError::OutOfBounds);
    }
    let mut entries: Vec<(u16, u64)> = Vec::new();
    let mut i: usize = 0;
    while i < count
        invariant
            len == data@.len(),
            tail as int == tail_ptr as int,
            tail + 4 + 10 * count <= len,
            count as int == le_u32(data@, tail as int),
            i <= count,
            entries@.len() == i,
            forall|k: int|
                0 <= k < i ==> (#[trigger] entries@[k]).0 as int == le_u16(data@, tail + 4 + 10 * k)
                    && entries@[k].1 as int == le_u64(data@, tail + 6 + 10 * k),
        decreases count - i,
    {
        let base = tail + 4 + 10 * i;
        let key_id = read_u16(data, base);
        let offset = read_u64(data, base + 2);
        entries.push((key_id, offset));
        i = i + 1;
    }
    assert(entries_view(entries@) =~= spec_tail_index(data@, tail_ptr as int)->Ok_0);
    Ok(entries)
}

/// Decodes the record object at an absolute offset taken from the tail-index,
/// with the file's dictionary keys, TypeManifest and offset width.
pub fn decode_record(
    data: &[u8],
    offset: u64,
    keys: &[String],
    sigils: &[u8],
    jumbo: bool,
) -> (r: Result<Vec<(String, DecodedValue)>, NxsError>)
    requires
        data@.len() <= isize::MAX,
    ensures
        match r {
            Ok(v) => spec_decode_object(
                data@,
                offset as int,
                strings_view(keys@),
                sigils@,
                jumbo,
            ) == Ok::<Seq<(Seq<char>, ValueView)>, NxsError>(fields_view(v@)),
            Err(e) => spec_decode_object(
                data@,
                offset as int,
                strings_view(keys@),
                sigils@,
                jumbo,
            ) == Err::<Seq<(Seq<char>, ValueView)>, NxsError>(e),
        },
{
    if offset > data.len() as u64 {
        return Err(NxsError::OutOfBounds);
    }
    decode_object(data, offset as usize, keys, sigils, jumbo)
}

} // verus!

verus! {

// ---------------------------------------------------------------------------
// Laws of the decoder
// ---------------------------------------------------------------------------

/// A buffer decodes only when it is at least a preamble long and carries the
/// `NXSB` magic and the `NXS!` footer; the decoded preamble fields are the
/// little-endian values at offsets 4, 6, 8 and 16, and the dictionary holds
/// the schema header's `KeyCount` names (none without a schema header).
pub proof fn lemma_decode_preamble(d: Seq<u8>)
    requires
        spec_decode(d) is Ok,
    ensures
        d.len() >= 32,
        le_u32(d, 0) == MAGIC_FILE as int,
        le_u32(d, d.len() - 4) == MAGIC_FOOTER as int,
        spec_decode(d)->Ok_0.version as int == le_u16(d, 4),
        spec_decode(d)->Ok_0.flags as int == le_u16(d, 6),
        spec_decode(d)->Ok_0.dict_hash as int == le_u64(d, 8),
        spec_decode(d)->Ok_0.tail_ptr as int == le_u64(d, 16),
        spec_decode(d)->Ok_0.keys.len() == schema_key_count(d),
        !has_schema(d) ==> spec_decode(d)->Ok_0.keys.len() == 0,
{
    assert(0 <= le_u16(d, 4) < 65536);
    assert(0 <= le_u16(d, 6) < 65536);
    assert(0 <= le_u32(d, 8) < 0x1_0000_0000 && 0 <= le_u32(d, 12) < 0x1_0000_0000);
    assert(0 <= le_u32(d, 16) < 0x1_0000_0000 && 0 <= le_u32(d, 20) < 0x1_0000_0000);
    assert(0 <= le_u64(d, 8) < 0x1_0000_0000_0000_0000) by (nonlinear_arith)
        requires
            0 <= le_u32(d, 8) < 0x1_0000_0000,
            0 <= le_u32(d, 12) < 0x1_0000_0000,
            le_u64(d, 8) == le_u32(d, 8) + 4294967296 * le_u32(d, 12),
    ;
    assert(0 <= le_u64(d, 16) < 0x1_0000_0000_0000_0000) by (nonlinear_arith)
        requires
            0 <= le_u32(d, 16) < 0x1_0000_0000,
            0 <= le_u32(d, 20) < 0x1_0000_0000,
            le_u64(d, 16) == le_u32(d, 16) + 4294967296 * le_u32(d, 20),
    ;
}

/// An object that decodes yields exactly as many fields as the number of set
/// bits in its mask (one offset-table entry per present key).
pub proof fn lemma_object_fields_len(
    d: Seq<u8>,
    offset: int,
    table: int,
    keys: Seq<Seq<char>>,
    sigils: Seq<u8>,
    jumbo: bool,
    bits: Seq<bool>,
)
    requires
        object_fields(d, offset, table, keys, sigils, jumbo, bits) is Ok,
    ensures
        object_fields(d, offset, table, keys, sigils, jumbo, bits)->Ok_0.len() == count_true(bits),
    decreases bits.len(),
{
    if bits.len() > 0 {
        lemma_object_fields_len(d, offset, table, keys, sigils, jumbo, bits.drop_last());
    }
}

/// The decoded object at `offset` has one field per set bit of its presence
/// mask: keys whose bit is clear are absent from the result.
pub proof fn lemma_field_count_is_mask_popcount(
    d: Seq<u8>,
    offset: int,
    keys: Seq<Seq<char>>,
    sigils: Seq<u8>,
    jumbo: bool,
)
    requires
        spec_decode_object(d, offset, keys, sigils, jumbo) is Ok,
    ensures
        spec_decode_object(d, offset, keys, sigils, jumbo)->Ok_0.len() == count_true(
            mask_bits(d, offset + 8, mask_last(d, offset + 8)),
        ),
{
    lemma_object_fields_len(
        d,
        offset,
        mask_last(d, offset + 8) + 1,
        keys,
        sigils,
        jumbo,
        mask_bits(d, offset + 8, mask_last(d, offset + 8)),
    );
}

/// A cell is read by its key's sigil: under `=` eight available bytes are the
/// Int64 they encode, whatever their first byte (an Int64 0 is `Int(0)`, not
/// Null); under `^` the cell is Null.
pub proof fn lemma_cell_by_sigil(d: Seq<u8>, off: int)
    requires
        0 <= off,
        off + 8 <= d.len(),
    ensures
        spec_cell(d, off, Some(SIGIL_INT)) == Ok::<ValueView, NxsError>(ValueView::Int(le_i64(d, off))),
        spec_cell(d, off, Some(SIGIL_TIME)) == Ok::<ValueView, NxsError>(ValueView::Time(le_i64(d, off))),
        spec_cell(d, off, Some(SIGIL_NULL)) == Ok::<ValueView, NxsError>(ValueView::Null),
{
}

/// Without a TypeManifest entry, a present field whose offset points at a
/// single `0x00` byte reads as Null; it is never taken for a nested object.
pub proof fn lemma_zero_byte_is_null(d: Seq<u8>, off: int)
    requires
        0 <= off < d.len(),
        d[off] == 0,
    ensures
        spec_cell(d, off, None) == Ok::<ValueView, NxsError>(ValueView::Null),
{
}

/// An offset at or past the end of the buffer is an `OutOfBounds` error,
/// both for a value of any sigil and for an object header.
pub proof fn lemma_offset_past_end(
    d: Seq<u8>,
    off: int,
    sigil: Option<u8>,
    keys: Seq<Seq<char>>,
    sigils: Seq<u8>,
    jumbo: bool,
)
    requires
        off >= d.len(),
    ensures
        spec_cell(d, off, sigil) == Err::<ValueView, NxsError>(NxsError::OutOfBounds),
        spec_decode_object(d, off, keys, sigils, jumbo) == Err::<
            Seq<(Seq<char>, ValueView)>,
            NxsError,
        >(NxsError::OutOfBounds),
{
}

proof fn lemma_object_fields_by_bit(
    d: Seq<u8>,
    offset: int,
    table: int,
    keys: Seq<Seq<char>>,
    sigils: Seq<u8>,
    jumbo: bool,
    bits: Seq<bool>,
)
    requires
        object_fields(d, offset, table, keys, sigils, jumbo, bits) is Ok,
    ensures
        object_fields(d, offset, table, keys, sigils, jumbo, bits)->Ok_0.len() == count_true(bits),
        forall|i: int|
            0 <= i < bits.len() && #[trigger] bits[i] ==> {
                let r = count_true(bits.take(i)) as int;
                let fields = object_fields(d, offset, table, keys, sigils, jumbo, bits)->Ok_0;
                &&& fields[r].0 == field_name(keys, i)
                &&& spec_cell(d, offset + table_entry(d, table, r, jumbo), key_sigil(sigils, i))
                    == Ok::<ValueView, NxsError>(fields[r].1)
            },
    decreases bits.len(),
{
    lemma_object_fields_len(d, offset, table, keys, sigils, jumbo, bits);
    if bits.len() > 0 {
        let prev = bits.drop_last();
        lemma_object_fields_by_bit(d, offset, table, keys, sigils, jumbo, prev);
        let pf = object_fields(d, offset, table, keys, sigils, jumbo, prev)->Ok_0;
        let fields = object_fields(d, offset, table, keys, sigils, jumbo, bits)->Ok_0;
        assert forall|i: int| 0 <= i < bits.len() && #[trigger] bits[i] implies {
            let r = count_true(bits.take(i)) as int;
            &&& fields[r].0 == field_name(keys, i)
            &&& spec_cell(d, offset + table_entry(d, table, r, jumbo), key_sigil(sigils, i))
                == Ok::<ValueView, NxsError>(fields[r].1)
        } by {
            if i < bits.len() - 1 {
                assert(prev[i] == bits[i]);
                assert(bits.take(i) =~= prev.take(i));
                lemma_count_true_prefix(prev, i + 1);
                assert(prev.take(i + 1).drop_last() =~= prev.take(i));
                assert(count_true(prev.take(i + 1)) == count_true(prev.take(i)) + 1);
                assert(count_true(bits.take(i)) < pf.len());
                assert(fields[count_true(bits.take(i)) as int] == pf[count_true(bits.take(i)) as int]);
            } else {
                assert(bits.take(i) =~= prev);
            }
        }
    }
}

/// The fields of an object are named by the keys whose presence bits are set:
/// the field for set bit `i` is the `r`-th field, where `r` is the number of
/// set bits below `i`; it is named `keys[i]` (or `key_<i>` beyond the
/// dictionary), and its value is the cell that the `r`-th offset-table entry
/// points to, read by key `i`'s sigil. An object whose mask has only bit 2
/// set yields exactly one field, named `keys[2]`.
pub proof fn lemma_fields_named_by_set_bits(
    d: Seq<u8>,
    offset: int,
    keys: Seq<Seq<char>>,
    sigils: Seq<u8>,
    jumbo: bool,
)
    requires
        spec_decode_object(d, offset, keys, sigils, jumbo) is Ok,
    ensures
        ({
            let bits = mask_bits(d, offset + 8, mask_last(d, offset + 8));
            let table = mask_last(d, offset + 8) + 1;
            let fields = spec_decode_object(d, offset, keys, sigils, jumbo)->Ok_0;
            &&& fields.len() == count_true(bits)
            &&& forall|i: int|
                0 <= i < bits.len() && #[trigger] bits[i] ==> {
                    let r = count_true(bits.take(i)) as int;
                    &&& 0 <= r < fields.len()
                    &&& fields[r].0 == (if i < keys.len() {
                        keys[i]
                    } else {
                        "key_"@ + decimal(i as nat)
                    })
                    &&& spec_cell(
                        d,
                        offset + table_entry(d, table, r, jumbo),
                        key_sigil(sigils, i),
                    ) == Ok::<ValueView, NxsError>(fields[r].1)
                }
        }),
{
    let bits = mask_bits(d, offset + 8, mask_last(d, offset + 8));
    let table = mask_last(d, offset + 8) + 1;
    lemma_object_fields_by_bit(d, offset, table, keys, sigils, jumbo, bits);
    assert forall|i: int| 0 <= i < bits.len() && #[trigger] bits[i] implies count_true(bits.take(i))
        < count_true(bits) by {
        lemma_count_true_prefix(bits, i + 1);
        assert(bits.take(i + 1).drop_last() =~= bits.take(i));
    }
}

} // verus!
