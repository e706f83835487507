//! Argument decisions of the `nxs-inspect` command line: the `--records`
//! value and the process exit code for an error.

use vstd::prelude::*;
use crate::error::NxsError;
use crate::text::decimal;

verus! {

pub open spec fn is_digit(c: char) -> bool {
    '0' <= c <= '9'
}

/// The value of a string of decimal digits.
pub open spec fn digits_value(s: Seq<char>) -> int
    decreases s.len(),
{
    if s.len() == 0 {
        0
    } else {
        digits_value(s.drop_last()) * 10 + (s.last() as int - 48)
    }
}

pub open spec fn all_digits(s: Seq<char>) -> bool {
    forall|i: int| 0 <= i < s.len() ==> is_digit(#[trigger] s[i])
}

/// The digits part of a count: the text without one leading `+`.
pub open spec fn unsigned_body(s: Seq<char>) -> Seq<char> {
    if s.len() > 0 && s[0] == '+' {
        s.drop_first()
    } else {
        s
    }
}

/// What `str::parse::<usize>` accepts: an optional leading `+`, then one or
/// more decimal digits whose value fits in a `usize`.
pub open spec fn spec_parse_usize(s: Seq<char>) -> Option<usize> {
    if unsigned_body(s).len() == 0 || !all_digits(unsigned_body(s)) || digits_value(
        unsigned_body(s),
    ) > usize::MAX {
        None
    } else {
        Some(digits_value(unsigned_body(s)) as usize)
    }
}

/// The `--records` value: `all` means every record (`None`); otherwise a
/// count, and text that is not a count also means every record.
pub open spec fn spec_parse_records(s: Seq<char>) -> Option<usize> {
    if s == "all"@ {
        None
    } else {
        spec_parse_usize(s)
    }
}

/// The value of a prefix of a digit string is at most the value of the
/// whole string, and not negative.
proof fn lemma_digits_value_monotone(s: Seq<char>, i: int)
    requires
        0 <= i <= s.len(),
        forall|k: int| 0 <= k < s.len() ==> is_digit(#[trigger] s[k]),
    ensures
        digits_value(s.take(i)) <= digits_value(s),
        digits_value(s.take(i)) >= 0,
    decreases s.len() - i,
{
    if i < s.len() {
        lemma_digits_value_monotone(s, i + 1);
        assert(s.take(i + 1).drop_last() =~= s.take(i));
        assert(is_digit(s[i]));
    } else {
        assert(s.take(i) =~= s);
    }
    lemma_digits_value_nonneg(s.take(i));
}

/// A digit string's value is not negative.
proof fn lemma_digits_value_nonneg(s: Seq<char>)
    requires
        forall|k: int| 0 <= k < s.len() ==> is_digit(#[trigger] s[k]),
    ensures
        digits_value(s) >= 0,
    decreases s.len(),
{
    if s.len() > 0 {
        assert(is_digit(s.last()));
        lemma_digits_value_nonneg(s.drop_last());
    }
}

/// Parses a `usize` as `str::parse` does.
fn parse_usize(s: &str) -> (r: Option<usize>)
    ensures
        r == spec_parse_usize(s@),
{
    let n = s.unicode_len();
    let mut start: usize = 0;
    if n > 0 && s.get_char(0) == '+' {
        start = 1;
    }
    let ghost body = unsigned_body(s@);
    assert(body =~= s@.skip(start as int));
    if start == n {
        return None;
    }
    let mut value: usize = 0;
    let mut i = start;
    while i < n
        invariant
            n == s@.len(),
            start <= i <= n,
            body =~= s@.skip(start as int),
            body == unsigned_body(s@),
            forall|k: int| start <= k < i ==> is_digit(#[trigger] s@[k]),
            value as int == digits_value(body.take(i - start)),
        decreases n - i,
    {
        let c = s.get_char(i);
        assert(body[i - start] == c);
        if !('0' <= c && c <= '9') {
            assert(!is_digit(body[i - start]));
            assert(!(forall|k: int| 0 <= k < body.len() ==> is_digit(#[trigger] body[k])));
            return None;
        }
        let d = (c as u32 - 48) as usize;
        assert(body.take(i - start + 1).drop_last() =~= body.take(i - start));
        assert(body.take(i - start + 1).last() == c);
        assert(digits_value(body.take(i - start + 1)) == value * 10 + d);
        if value > (usize::MAX - d) / 10 {
            proof {
                assert(digits_value(body.take(i - start + 1)) > usize::MAX) by (nonlinear_arith)
                    requires
                        digits_value(body.take(i - start + 1)) == value * 10 + d,
                        value > (usize::MAX - d) / 10,
                        d <= 9,
                ;
                if forall|k: int| 0 <= k < body.len() ==> is_digit(#[trigger] body[k]) {
                    lemma_digits_value_monotone(body, i - start + 1);
                    assert(digits_value(body) > usize::MAX);
                }
                assert(spec_parse_usize(s@) is None);
            }
            return None;
        }
        value = value * 10 + d;
        i = i + 1;
    }
    assert(body.take(n - start) =~= body);
    Some(value)
}

/// The `--records` argument: `None` for `all`, else the parsed count.
pub fn parse_records(s: &str) -> (r: Option<usize>)
    ensures
        r == spec_parse_records(s@),
{
    proof {
        reveal_strlit("all");
    }
    if s.unicode_len() == 3 && s.get_char(0) == 'a' && s.get_char(1) == 'l' && s.get_char(2) == 'l' {
        assert(s@ =~= "all"@);
        None
    } else {
        assert(s@ != "all"@);
        parse_usize(s)
    }
}

/// The process exit code for an error: 3 when the dictionary hash does not
/// match, 1 for every other failure.
pub fn exit_code_for(e: &NxsError) -> (code: i32)
    ensures
        code == if *e == NxsError::DictMismatch {
            3i32
        } else {
            1i32
        },
{
    match e {
        NxsError::DictMismatch => 3,
        _ => 1,
    }
}

} // verus!

verus! {

proof fn lemma_decimal_digits(n: nat)
    ensures
        all_digits(decimal(n)),
        digits_value(decimal(n)) == n,
        decimal(n).len() > 0,
    decreases n,
{
    if n >= 10 {
        lemma_decimal_digits(n / 10);
        let s = decimal(n);
        assert(s.drop_last() =~= decimal(n / 10));
        assert(s.last() == crate::text::digit_char((n % 10) as int));
        assert((crate::text::digit_char((n % 10) as int) as int) == 48 + n % 10);
        assert(digits_value(s) == digits_value(decimal(n / 10)) * 10 + n % 10);
        assert((n / 10) * 10 + n % 10 == n);
        assert forall|i: int| 0 <= i < s.len() implies is_digit(#[trigger] s[i]) by {
            if i < s.len() - 1 {
                assert(s[i] == decimal(n / 10)[i]);
            }
        }
    } else {
        assert(decimal(n).drop_last() =~= Seq::<char>::empty());
        assert((crate::text::digit_char(n as int) as int) == 48 + n);
        assert(digits_value(decimal(n).drop_last()) == 0);
        assert(decimal(n).last() == crate::text::digit_char(n as int));
        assert(digits_value(decimal(n)) == 0 * 10 + (48 + n - 48));
    }
}

/// Reading back a rendered count: the `--records` value written as the
/// decimal digits of `n` parses to `n`.
pub proof fn lemma_parse_records_decimal(n: usize)
    ensures
        spec_parse_records(decimal(n as nat)) == Some(n),
{
    reveal_strlit("all");
    lemma_decimal_digits(n as nat);
    let s = decimal(n as nat);
    assert(is_digit(s[0]));
    assert(s != "all"@) by {
        if s == "all"@ {
            assert(s[0] == 'a');
        }
    }
    assert(unsigned_body(s) == s);
}

} // verus!
