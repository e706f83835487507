//! Text forms of decoded values shared by the inspector and the exporters:
//! hexadecimal bytes, JSON strings and values, CSV fields, and the plain-text
//! form the inspector prints.

use vstd::prelude::*;
use crate::decoder::{DecodedValue, ValueView};
use crate::text::{push_char, push_signed_decimal, signed_decimal, str_chars};

verus! {

/// The lowercase hexadecimal digit for a value below sixteen.
pub open spec fn hex_char(n: int) -> char {
    if n < 10 {
        (48 + n) as char
    } else {
        (87 + n) as char
    }
}

/// Two hexadecimal digits per byte.
pub open spec fn hex_bytes(b: Seq<u8>) -> Seq<char>
    decreases b.len(),
{
    if b.len() == 0 {
        seq![]
    } else {
        hex_bytes(b.drop_last()) + seq![hex_char(b.last() as int / 16), hex_char(b.last() as int % 16)]
    }
}

/// The last `n` hexadecimal digits of `x`, most significant first.
pub open spec fn hex_fixed(x: nat, n: nat) -> Seq<char>
    decreases n,
{
    if n == 0 {
        seq![]
    } else {
        hex_fixed(x / 16, (n - 1) as nat).push(hex_char((x % 16) as int))
    }
}

/// `0x` and the sixteen hexadecimal digits of a float's bit pattern.
pub open spec fn float_bits_text(bits: u64) -> Seq<char> {
    "0x"@ + hex_fixed(bits as nat, 16)
}

/// A character inside a JSON string.
pub open spec fn escape_char(c: char) -> Seq<char> {
    if c == '"' {
        seq!['\\', '"']
    } else if c == '\\' {
        seq!['\\', '\\']
    } else if (c as u32) < 32 {
        seq!['\\', 'u', '0', '0', hex_char((c as u32) as int / 16), hex_char((c as u32) as int % 16)]
    } else {
        seq![c]
    }
}

pub open spec fn json_escape(s: Seq<char>) -> Seq<char>
    decreases s.len(),
{
    if s.len() == 0 {
        seq![]
    } else {
        json_escape(s.drop_last()) + escape_char(s.last())
    }
}

/// A JSON string literal holding `s`.
pub open spec fn json_string(s: Seq<char>) -> Seq<char> {
    seq!['"'] + json_escape(s) + seq!['"']
}

pub open spec fn bool_text(b: bool) -> Seq<char> {
    if b {
        "true"@
    } else {
        "false"@
    }
}

/// A value as JSON: integers and times as numbers, text as a string, bytes
/// (and a float's bit pattern) as a hexadecimal string, Null as `null`.
pub open spec fn json_value(v: ValueView) -> Seq<char> {
    match v {
        ValueView::Int(i) => signed_decimal(i),
        ValueView::Float(bits) => json_string(float_bits_text(bits)),
        ValueView::Bool(b) => bool_text(b),
        ValueView::Str(s) => json_string(s),
        ValueView::Time(t) => signed_decimal(t),
        ValueView::Binary(b) => json_string(hex_bytes(b)),
        ValueView::Null => "null"@,
        ValueView::Raw(b) => json_string(hex_bytes(b)),
    }
}

/// A value as the inspector prints it, each form marked by its sigil.
pub open spec fn text_value(v: ValueView) -> Seq<char> {
    match v {
        ValueView::Int(i) => signed_decimal(i),
        ValueView::Float(bits) => seq!['~'] + float_bits_text(bits),
        ValueView::Bool(b) => bool_text(b),
        ValueView::Str(s) => seq!['"'] + s + seq!['"'],
        ValueView::Time(t) => seq!['@'] + signed_decimal(t),
        ValueView::Binary(b) => seq!['<'] + hex_bytes(b) + seq!['>'],
        ValueView::Null => "null"@,
        ValueView::Raw(b) => "raw:"@ + hex_bytes(b),
    }
}

/// A value as an unquoted CSV cell; Null is the empty cell.
pub open spec fn csv_text(v: ValueView) -> Seq<char> {
    match v {
        ValueView::Int(i) => signed_decimal(i),
        ValueView::Float(bits) => float_bits_text(bits),
        ValueView::Bool(b) => bool_text(b),
        ValueView::Str(s) => s,
        ValueView::Time(t) => signed_decimal(t),
        ValueView::Binary(b) => hex_bytes(b),
        ValueView::Null => seq![],
        ValueView::Raw(b) => hex_bytes(b),
    }
}

pub open spec fn needs_quotes(c: char) -> bool {
    c == ',' || c == '"' || c == '\n' || c == '\r'
}

/// Doubles every `"`.
pub open spec fn double_quotes(s: Seq<char>) -> Seq<char>
    decreases s.len(),
{
    if s.len() == 0 {
        seq![]
    } else {
        double_quotes(s.drop_last()) + if s.last() == '"' {
            seq!['"', '"']
        } else {
            seq![s.last()]
        }
    }
}

/// A CSV cell: quoted (with doubled quotes) when it holds a comma, a quote or
/// a line break; as is otherwise.
pub open spec fn csv_cell(s: Seq<char>) -> Seq<char> {
    if exists|i: int| 0 <= i < s.len() && needs_quotes(#[trigger] s[i]) {
        seq!['"'] + double_quotes(s) + seq!['"']
    } else {
        s
    }
}

pub fn hex_digit(n: u8) -> (c: char)
    requires
        n < 16,
    ensures
        c == hex_char(n as int),
{
    if n < 10 {
        (n + 48) as char
    } else {
        (n + 87) as char
    }
}

/// Appends two hexadecimal digits per byte.
pub fn push_hex_bytes(out: &mut String, b: &[u8])
    ensures
        final(out)@ == old(out)@ + hex_bytes(b@),
{
    let mut i: usize = 0;
    assert(b@.take(0) =~= Seq::<u8>::empty());
    assert(out@ =~= old(out)@ + hex_bytes(b@.take(0)));
    while i < b.len()
        invariant
            i <= b@.len(),
            out@ == old(out)@ + hex_bytes(b@.take(i as int)),
        decreases b@.len() - i,
    {
        let x = b[i];
        push_char(out, hex_digit(x / 16));
        push_char(out, hex_digit(x % 16));
        assert(b@.take(i + 1).drop_last() =~= b@.take(i as int));
        assert(out@ =~= old(out)@ + hex_bytes(b@.take(i + 1)));
        i = i + 1;
    }
    assert(b@.take(b@.len() as int) =~= b@);
}

/// Appends the last `n` hexadecimal digits of `x`.
fn push_hex_fixed(out: &mut String, x: u64, n: u64)
    ensures
        final(out)@ == old(out)@ + hex_fixed(x as nat, n as nat),
    decreases n,
{
    if n == 0 {
        return;
    }
    push_hex_fixed(out, x / 16, n - 1);
    push_char(out, hex_digit((x % 16) as u8));
    assert(final(out)@ =~= old(out)@ + hex_fixed(x as nat, n as nat));
}

fn push_float_bits(out: &mut String, bits: u64)
    ensures
        final(out)@ == old(out)@ + float_bits_text(bits),
{
    out.append("0x");
    push_hex_fixed(out, bits, 16);
    assert(final(out)@ =~= old(out)@ + float_bits_text(bits));
}

fn push_bool(out: &mut String, b: bool)
    ensures
        final(out)@ == old(out)@ + bool_text(b),
{
    if b {
        out.append("true");
    } else {
        out.append("false");
    }
}

/// Appends `s` as a JSON string literal.
pub fn push_json_string(out: &mut String, s: &str)
    ensures
        final(out)@ == old(out)@ + json_string(s@),
{
    let chars = str_chars(s);
    push_char(out, '"');
    let ghost start = out@;
    let mut i: usize = 0;
    assert(chars@.take(0) =~= Seq::<char>::empty());
    assert(out@ =~= start + json_escape(chars@.take(0)));
    while i < chars.len()
        invariant
            i <= chars@.len(),
            out@ == start + json_escape(chars@.take(i as int)),
        decreases chars@.len() - i,
    {
        let c = chars[i];
        if c == '"' {
            push_char(out, '\\');
            push_char(out, '"');
        } else if c == '\\' {
            push_char(out, '\\');
            push_char(out, '\\');
        } else if (c as u32) < 32 {
            let x: u32 = c as u32;
            let code: u8 = x as u8;
            assert((x as u8) as u32 == x) by (bit_vector)
                requires
                    x < 32u32,
            ;
            assert(code as int == x as int);
            push_char(out, '\\');
            push_char(out, 'u');
            push_char(out, '0');
            push_char(out, '0');
            push_char(out, hex_digit(code / 16));
            push_char(out, hex_digit(code % 16));
        } else {
            push_char(out, c);
        }
        assert(chars@.take(i + 1).drop_last() =~= chars@.take(i as int));
        assert(out@ =~= start + json_escape(chars@.take(i + 1)));
        i = i + 1;
    }
    assert(chars@.take(chars@.len() as int) =~= chars@);
    push_char(out, '"');
    assert(final(out)@ =~= old(out)@ + json_string(s@));
}

/// Appends a value as JSON.
pub fn push_json_value(out: &mut String, v: &DecodedValue)
    ensures
        final(out)@ == old(out)@ + json_value(v@),
{
    match v {
        DecodedValue::Int(i) => push_signed_decimal(out, *i),
        DecodedValue::Float(bits) => {
            let mut t = String::new();
            push_float_bits(&mut t, *bits);
            push_json_string(out, t.as_str());
        },
        DecodedValue::Bool(b) => push_bool(out, *b),
        DecodedValue::Str(s) => push_json_string(out, s.as_str()),
        DecodedValue::Time(t) => push_signed_decimal(out, *t),
        DecodedValue::Binary(b) => {
            let mut t = String::new();
            push_hex_bytes(&mut t, b.as_slice());
            push_json_string(out, t.as_str());
        },
        DecodedValue::Null => out.append("null"),
        DecodedValue::Raw(b) => {
            let mut t = String::new();
            push_hex_bytes(&mut t, b.as_slice());
            push_json_string(out, t.as_str());
        },
    }
    proof {
        match v {
            DecodedValue::Float(_) | DecodedValue::Binary(_) | DecodedValue::Raw(_) => {
                assert(Seq::<char>::empty() + float_bits_text(0) == float_bits_text(0));
            },
            _ => {},
        }
    }
}

/// Appends a value as the inspector prints it.
pub fn push_text_value(out: &mut String, v: &DecodedValue)
    ensures
        final(out)@ == old(out)@ + text_value(v@),
{
    match v {
        DecodedValue::Int(i) => push_signed_decimal(out, *i),
        DecodedValue::Float(bits) => {
            push_char(out, '~');
            push_float_bits(out, *bits);
        },
        DecodedValue::Bool(b) => push_bool(out, *b),
        DecodedValue::Str(s) => {
            push_char(out, '"');
            out.append(s.as_str());
            push_char(out, '"');
        },
        DecodedValue::Time(t) => {
            push_char(out, '@');
            push_signed_decimal(out, *t);
        },
        DecodedValue::Binary(b) => {
            push_char(out, '<');
            push_hex_bytes(out, b.as_slice());
            push_char(out, '>');
        },
        DecodedValue::Null => out.append("null"),
        DecodedValue::Raw(b) => {
            out.append("raw:");
            push_hex_bytes(out, b.as_slice());
        },
    }
    assert(final(out)@ =~= old(out)@ + text_value(v@));
}

/// The unquoted CSV text of a value.
fn csv_value_text(v: &DecodedValue) -> (t: String)
    ensures
        t@ == csv_text(v@),
{
    let mut t = String::new();
    match v {
        DecodedValue::Int(i) => push_signed_decimal(&mut t, *i),
        DecodedValue::Float(bits) => push_float_bits(&mut t, *bits),
        DecodedValue::Bool(b) => push_bool(&mut t, *b),
        DecodedValue::Str(s) => t.append(s.as_str()),
        DecodedValue::Time(x) => push_signed_decimal(&mut t, *x),
        DecodedValue::Binary(b) => push_hex_bytes(&mut t, b.as_slice()),
        DecodedValue::Null => {},
        DecodedValue::Raw(b) => push_hex_bytes(&mut t, b.as_slice()),
    }
    assert(t@ =~= csv_text(v@));
    t
}

/// Appends `s` as a CSV cell.
pub fn push_csv_cell(out: &mut String, s: &str)
    ensures
        final(out)@ == old(out)@ + csv_cell(s@),
{
    let chars = str_chars(s);
    let mut quote = false;
    let mut i: usize = 0;
    while i < chars.len()
        invariant
            i <= chars@.len(),
            chars@ == s@,
            quote == exists|k: int| 0 <= k < i && needs_quotes(#[trigger] chars@[k]),
        decreases chars@.len() - i,
    {
        let c = chars[i];
        if c == ',' || c == '"' || c == '\n' || c == '\r' {
            quote = true;
        }
        i = i + 1;
    }
    if !quote {
        out.append(s);
        return;
    }
    push_char(out, '"');
    let ghost start = out@;
    let mut i: usize = 0;
    assert(chars@.take(0) =~= Seq::<char>::empty());
    assert(out@ =~= start + double_quotes(chars@.take(0)));
    while i < chars.len()
        invariant
            i <= chars@.len(),
            out@ == start + double_quotes(chars@.take(i as int)),
        decreases chars@.len() - i,
    {
        let c = chars[i];
        push_char(out, c);
        if c == '"' {
            push_char(out, '"');
        }
        assert(chars@.take(i + 1).drop_last() =~= chars@.take(i as int));
        assert(out@ =~= start + double_quotes(chars@.take(i + 1)));
        i = i + 1;
    }
    assert(chars@.take(chars@.len() as int) =~= chars@);
    push_char(out, '"');
    assert(final(out)@ =~= old(out)@ + csv_cell(s@));
}

/// Appends a value as a CSV cell.
pub fn push_csv_value(out: &mut String, v: &DecodedValue)
    ensures
        final(out)@ == old(out)@ + csv_cell(csv_text(v@)),
{
    let t = csv_value_text(v);
    push_csv_cell(out, t.as_str());
}

/// A Bool is written as its literal in every rendering: `true` or `false`,
/// never as the empty cell that stands for Null or a missing field.
pub proof fn lemma_bool_renderings(b: bool)
    ensures
        csv_text(ValueView::Bool(b)) == if b {
            seq!['t', 'r', 'u', 'e']
        } else {
            seq!['f', 'a', 'l', 's', 'e']
        },
        json_value(ValueView::Bool(b)) == csv_text(ValueView::Bool(b)),
        text_value(ValueView::Bool(b)) == csv_text(ValueView::Bool(b)),
        csv_text(ValueView::Bool(b)).len() > 0,
        csv_text(ValueView::Null).len() == 0,
{
    reveal_strlit("true");
    reveal_strlit("false");
    assert("true"@ =~= seq!['t', 'r', 'u', 'e']);
    assert("false"@ =~= seq!['f', 'a', 'l', 's', 'e']);
}

} // verus!
