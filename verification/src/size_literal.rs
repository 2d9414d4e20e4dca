//! The size-literal grammar: decimal digits with an optional, case-insensitive
//! binary-unit suffix, turned into a byte count with checked multiplication.
use vstd::prelude::*;

verus! {

use crate::chars::digit_run_end;
use crate::chars::digit_val;
use crate::chars::eq_ignore_case;
use crate::chars::is_digit;
use crate::chars::lemma_digit_run_end;
use crate::chars::lemma_trim_end_idx;
use crate::chars::lemma_ws_prefix_end;
use crate::chars::range_eq_ignore_case;
use crate::chars::scan_digits;
use crate::chars::scan_trim_end;
use crate::chars::scan_ws;
use crate::chars::str_to_chars;
use crate::chars::trim_end_idx;
use crate::chars::ws_prefix_end;

/// Why a size literal was rejected.
#[derive(Clone, Copy, Debug, PartialEq, Eq, Structural)]
pub enum SizeLiteralError {
    /// The literal was empty (or whitespace only).
    Empty,
    /// The literal does not start with a decimal digit.
    NoLeadingDigits,
    /// The unit suffix is not one of the recognized binary units.
    UnknownUnit,
    /// The magnitude does not fit in 64 bits.
    Overflow,
}

/// Value of a run of decimal digits, most significant first.
pub open spec fn digits_val(s: Seq<char>) -> int
    decreases s.len(),
{
    if s.len() == 0 {
        0
    } else {
        digits_val(s.drop_last()) * 10 + digit_val(s.last())
    }
}

pub proof fn lemma_digits_val_nonneg(s: Seq<char>)
    requires
        forall|k: int| 0 <= k < s.len() ==> is_digit(s[k]),
    ensures
        digits_val(s) >= 0,
    decreases s.len(),
{
    if s.len() > 0 {
        lemma_digits_val_nonneg(s.drop_last());
    }
}

/// The value of a digit run is at least the value of any of its prefixes.
pub proof fn lemma_digits_val_prefix(s: Seq<char>, k: int)
    requires
        forall|j: int| 0 <= j < s.len() ==> is_digit(s[j]),
        0 <= k <= s.len(),
    ensures
        digits_val(s.take(k)) <= digits_val(s),
    decreases s.len() - k,
{
    if k < s.len() {
        assert(s.take(k + 1).drop_last() =~= s.take(k));
        lemma_digits_val_nonneg(s.take(k));
        assert(digits_val(s.take(k + 1)) == digits_val(s.take(k)) * 10 + digit_val(s.take(k + 1).last()));
        lemma_digits_val_prefix(s, k + 1);
    } else {
        assert(s.take(k) =~= s);
    }
}

/// Multiplier of a unit suffix; `None` for an unrecognized one.
pub open spec fn unit_mul(u: Seq<char>) -> Option<u64> {
    if u.len() == 0 || eq_ignore_case(u, seq!['b']) {
        Some(1u64)
    } else if eq_ignore_case(u, seq!['k']) || eq_ignore_case(u, seq!['k', 'b']) || eq_ignore_case(
        u,
        seq!['k', 'i', 'b'],
    ) {
        Some(1024u64)
    } else if eq_ignore_case(u, seq!['m']) || eq_ignore_case(u, seq!['m', 'b']) || eq_ignore_case(
        u,
        seq!['m', 'i', 'b'],
    ) {
        Some(1048576u64)
    } else if eq_ignore_case(u, seq!['g']) || eq_ignore_case(u, seq!['g', 'b']) || eq_ignore_case(
        u,
        seq!['g', 'i', 'b'],
    ) {
        Some(1073741824u64)
    } else if eq_ignore_case(u, seq!['t']) || eq_ignore_case(u, seq!['t', 'b']) || eq_ignore_case(
        u,
        seq!['t', 'i', 'b'],
    ) {
        Some(1099511627776u64)
    } else {
        None
    }
}

/// What `parse_size_bytes` returns: the whole token is trimmed of surrounding
/// whitespace; a leading run of decimal digits gives the magnitude; the rest,
/// trimmed again, must be a recognized unit; the product must fit in 64 bits.
pub open spec fn spec_parse_size(s: Seq<char>) -> Result<u64, SizeLiteralError> {
    let a = ws_prefix_end(s, 0);
    let b = trim_end_idx(s, s.len() as int);
    if b <= a {
        Err(SizeLiteralError::Empty)
    } else {
        let d = digit_run_end(s, a);
        if d == a {
            Err(SizeLiteralError::NoLeadingDigits)
        } else if digits_val(s.subrange(a, d)) > u64::MAX {
            Err(SizeLiteralError::Overflow)
        } else {
            let ufrom = ws_prefix_end(s, d);
            let unit = if ufrom < b {
                s.subrange(ufrom, b)
            } else {
                Seq::<char>::empty()
            };
            match unit_mul(unit) {
                None => Err(SizeLiteralError::UnknownUnit),
                Some(m) => {
                    if digits_val(s.subrange(a, d)) * m > u64::MAX {
                        Err(SizeLiteralError::Overflow)
                    } else {
                        Ok((digits_val(s.subrange(a, d)) * m) as u64)
                    }
                },
            }
        }
    }
}

fn unit_lookup(chars: &Vec<char>, from: usize, to: usize) -> (r: Option<u64>)
    requires
        from <= to <= chars@.len(),
    ensures
        r == unit_mul(chars@.subrange(from as int, to as int)),
{
    if from == to {
        return Some(1);
    }
    if range_eq_ignore_case(chars, from, to, &vec!['b']) {
        return Some(1);
    }
    if range_eq_ignore_case(chars, from, to, &vec!['k']) || range_eq_ignore_case(
        chars,
        from,
        to,
        &vec!['k', 'b'],
    ) || range_eq_ignore_case(chars, from, to, &vec!['k', 'i', 'b']) {
        return Some(1024);
    }
    if range_eq_ignore_case(chars, from, to, &vec!['m']) || range_eq_ignore_case(
        chars,
        from,
        to,
        &vec!['m', 'b'],
    ) || range_eq_ignore_case(chars, from, to, &vec!['m', 'i', 'b']) {
        return Some(1048576);
    }
    if range_eq_ignore_case(chars, from, to, &vec!['g']) || range_eq_ignore_case(
        chars,
        from,
        to,
        &vec!['g', 'b'],
    ) || range_eq_ignore_case(chars, from, to, &vec!['g', 'i', 'b']) {
        return Some(1073741824);
    }
    if range_eq_ignore_case(chars, from, to, &vec!['t']) || range_eq_ignore_case(
        chars,
        from,
        to,
        &vec!['t', 'b'],
    ) || range_eq_ignore_case(chars, from, to, &vec!['t', 'i', 'b']) {
        return Some(1099511627776);
    }
    None
}

/// Parses a size literal such as `500`, `2KiB` or `1gb` into a byte count.
pub fn parse_size_bytes(s: &str) -> (r: Result<u64, SizeLiteralError>)
    ensures
        r == spec_parse_size(s@),
{
    let chars = str_to_chars(s);
    let ghost t = s@;
    let n = chars.len();
    let a = scan_ws(&chars, 0);
    let b = scan_trim_end(&chars);
    proof {
        lemma_ws_prefix_end(t, 0);
        lemma_trim_end_idx(t, t.len() as int);
    }
    if b <= a {
        return Err(SizeLiteralError::Empty);
    }
    let d = scan_digits(&chars, a);
    proof {
        lemma_digit_run_end(t, a as int);
    }
    if d == a {
        return Err(SizeLiteralError::NoLeadingDigits);
    }
    let ghost digits = t.subrange(a as int, d as int);
    let mut num: u64 = 0;
    let mut k: usize = a;
    proof {
        assert(t.subrange(a as int, a as int) =~= Seq::<char>::empty());
    }
    while k < d
        invariant
            a <= k <= d <= t.len(),
            chars@ == t,
            t == s@,
            a == ws_prefix_end(t, 0),
            b == trim_end_idx(t, t.len() as int),
            b <= t.len(),
            d == digit_run_end(t, a as int),
            a < b,
            a < d,
            digits == t.subrange(a as int, d as int),
            forall|j: int| a <= j < d ==> is_digit(t[j]),
            num == digits_val(t.subrange(a as int, k as int)),
        decreases d - k,
    {
        let c = chars[k];
        assert(is_digit(t[k as int]));
        let dv: u64 = (c as u32 - '0' as u32) as u64;
        proof {
            assert(t.subrange(a as int, k + 1).drop_last() =~= t.subrange(a as int, k as int));
            assert(t.subrange(a as int, k + 1).last() == t[k as int]);
        }
        if num > (u64::MAX - dv) / 10 {
            proof {
                assert(num * 10 + dv > u64::MAX) by (nonlinear_arith)
                    requires
                        num > (u64::MAX - dv) / 10,
                        0 <= dv <= 9,
                        (u64::MAX - dv) / 10 == ((u64::MAX - dv) as int) / 10,
                ;
                assert(digits_val(t.subrange(a as int, k + 1)) == num * 10 + dv);
                assert(t.subrange(a as int, k + 1) =~= digits.take(k + 1 - a));
                assert forall|j: int| 0 <= j < digits.len() implies is_digit(digits[j]) by {
                    assert(digits[j] == t[a + j]);
                }
                lemma_digits_val_prefix(digits, k + 1 - a);
                assert(digits_val(digits) > u64::MAX);
            }
            return Err(SizeLiteralError::Overflow);
        }
        proof {
            assert(num * 10 + dv <= u64::MAX) by (nonlinear_arith)
                requires
                    num <= (u64::MAX - dv) / 10,
                    0 <= dv <= 9,
                    (u64::MAX - dv) / 10 == ((u64::MAX - dv) as int) / 10,
            ;
        }
        num = num * 10 + dv;
        k += 1;
    }
    proof {
        assert(t.subrange(a as int, d as int) == digits);
        assert(digits_val(digits) == num);
    }
    let ufrom = scan_ws(&chars, d);
    let mul_opt = if ufrom < b {
        unit_lookup(&chars, ufrom, b)
    } else {
        proof {
            assert(unit_mul(Seq::<char>::empty()) == Some(1u64));
        }
        Some(1u64)
    };
    match mul_opt {
        None => Err(SizeLiteralError::UnknownUnit),
        Some(m) => {
            if m != 0 && num > u64::MAX / m {
                proof {
                    assert(num * m > u64::MAX) by (nonlinear_arith)
                        requires
                            m >= 1,
                            num > u64::MAX / m,
                            u64::MAX / m == (u64::MAX as int) / (m as int),
                    ;
                }
                Err(SizeLiteralError::Overflow)
            } else {
                proof {
                    assert(num * m <= u64::MAX) by (nonlinear_arith)
                        requires
                            1 <= m,
                            num <= u64::MAX / m,
                            u64::MAX / m == (u64::MAX as int) / (m as int),
                    ;
                }
                Ok(num * m)
            }
        },
    }
}

} // verus!
