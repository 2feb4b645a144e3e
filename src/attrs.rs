use vstd::prelude::*;
use crate::bitmap::BitOrder;
use crate::escpos::Align;
use crate::text::{eq_ci, str_eq_ignore_ascii_case};

verus! {

/// What an `align` attribute reads as.
pub open spec fn align_of(v: Seq<char>) -> Align {
    if eq_ci(v, "center"@) {
        Align::Center
    } else if eq_ci(v, "right"@) {
        Align::Right
    } else {
        Align::Left
    }
}

/// The raster mode byte that a `scale` attribute reads as.
pub open spec fn scale_of(v: Seq<char>) -> u8 {
    if eq_ci(v, "2w"@) {
        1
    } else if eq_ci(v, "2h"@) {
        2
    } else if eq_ci(v, "2x"@) || eq_ci(v, "2"@) {
        3
    } else {
        0
    }
}

/// A flag value that reads as true.
pub open spec fn truthy(v: Seq<char>) -> bool {
    eq_ci(v, "1"@) || eq_ci(v, "true"@) || eq_ci(v, "yes"@) || eq_ci(v, "y"@) || eq_ci(v, "on"@)
}

/// What a `bit_order` attribute reads as.
pub open spec fn bit_order_of(v: Seq<char>) -> BitOrder {
    if eq_ci(v, "lsb"@) || eq_ci(v, "lsb_first"@) {
        BitOrder::LsbFirst
    } else {
        BitOrder::MsbFirst
    }
}

/// An ASCII decimal digit.
pub open spec fn is_digit(c: char) -> bool {
    '0' <= c && c <= '9'
}

/// The value of a string of decimal digits.
pub open spec fn digits_value(s: Seq<char>) -> nat
    decreases s.len(),
{
    if s.len() == 0 {
        0
    } else {
        digits_value(s.drop_last()) * 10 + ((s.last() as nat) - ('0' as nat)) as nat
    }
}

/// The digits of a number written with an optional leading `+`.
pub open spec fn uint_digits(s: Seq<char>) -> Seq<char> {
    if s.len() > 0 && s[0] == '+' {
        s.drop_first()
    } else {
        s
    }
}

/// Every character is a decimal digit.
pub open spec fn all_digits(d: Seq<char>) -> bool {
    forall|i: int| 0 <= i < d.len() ==> is_digit(#[trigger] d[i])
}

/// What an unsigned decimal attribute reads as: an optional `+`, then one or
/// more digits, whose value is at most `max`.
pub open spec fn parsed_uint(s: Seq<char>, max: nat) -> Option<nat> {
    let d = uint_digits(s);
    if d.len() > 0 && all_digits(d) && digits_value(d) <= max {
        Some(digits_value(d))
    } else {
        None
    }
}

proof fn lemma_digits_value_grows(s: Seq<char>, i: int)
    requires
        0 <= i <= s.len(),
        forall|k: int| 0 <= k < s.len() ==> is_digit(#[trigger] s[k]),
    ensures
        digits_value(s.subrange(0, i)) <= digits_value(s),
    decreases s.len() - i,
{
    if i < s.len() {
        lemma_digits_value_grows(s, i + 1);
        assert(s.subrange(0, i + 1).drop_last() =~= s.subrange(0, i));
    } else {
        assert(s.subrange(0, i) =~= s);
    }
}

/// Reads an unsigned decimal number of at most `max`.
pub fn parse_uint(s: &str, max: u64) -> (r: Option<u64>)
    ensures
        match parsed_uint(s@, max as nat) {
            Some(v) => r == Some(v as u64),
            None => r is None,
        },
{
    let n = s.unicode_len();
    let mut start: usize = 0;
    if n > 0 && s.get_char(0) == '+' {
        start = 1;
    }
    let ghost d = uint_digits(s@);
    assert(d =~= s@.subrange(start as int, n as int));
    if start == n {
        return None;
    }
    let mut value: u64 = 0;
    let mut i: usize = start;
    while i < n
        invariant
            n == s@.len(),
            start <= i <= n,
            d == s@.subrange(start as int, n as int),
            d == uint_digits(s@),
            value as nat == digits_value(d.subrange(0, i - start)),
            value <= max,
            forall|k: int| 0 <= k < i - start ==> is_digit(#[trigger] d[k]),
        decreases n - i,
    {
        let c = s.get_char(i);
        if c < '0' || c > '9' {
            assert(d[i - start] == c);
            assert(!is_digit(d[i - start]));
            assert(parsed_uint(s@, max as nat) is None);
            return None;
        }
        let digit = (c as u64) - ('0' as u64);
        assert(d.subrange(0, i + 1 - start).drop_last() =~= d.subrange(0, i - start));
        assert(d.subrange(0, i + 1 - start).last() == c);
        assert(digits_value(d.subrange(0, i + 1 - start)) == value * 10 + digit);
        if digit > max || value > (max - digit) / 10 {
            assert(value * 10 + digit > max) by (nonlinear_arith)
                requires
                    digit > max || value > (max - digit) / 10,
                    digit <= max ==> (max - digit) / 10 * 10 + 10 > max - digit,
            ;
            proof {
                if all_digits(d) {
                    lemma_digits_value_grows(d, i + 1 - start);
                }
            }
            assert(parsed_uint(s@, max as nat) is None);
            return None;
        }
        assert(value * 10 + digit <= max) by (nonlinear_arith)
            requires
                digit <= max,
                value <= (max - digit) / 10,
        ;
        value = value * 10 + digit;
        i += 1;
    }
    assert(d.subrange(0, n - start) =~= d);
    Some(value)
}

/// Reads an `align` attribute: `center` or `right`, in any case, else left.
pub fn parse_align(val: &str) -> (r: Align)
    ensures
        r == align_of(val@),
{
    if str_eq_ignore_ascii_case(val, "center") {
        Align::Center
    } else if str_eq_ignore_ascii_case(val, "right") {
        Align::Right
    } else {
        Align::Left
    }
}

/// Reads a `scale` attribute into the raster command's mode byte.
pub fn parse_scale(val: &str) -> (r: u8)
    ensures
        r == scale_of(val@),
{
    if str_eq_ignore_ascii_case(val, "2w") {
        1
    } else if str_eq_ignore_ascii_case(val, "2h") {
        2
    } else if str_eq_ignore_ascii_case(val, "2x") || str_eq_ignore_ascii_case(val, "2") {
        3
    } else {
        0
    }
}

/// Reads a flag: `1`, `true`, `yes`, `y` or `on`, in any case, is true.
pub fn parse_bool(val: &str) -> (r: bool)
    ensures
        r == truthy(val@),
{
    str_eq_ignore_ascii_case(val, "1") || str_eq_ignore_ascii_case(val, "true")
        || str_eq_ignore_ascii_case(val, "yes") || str_eq_ignore_ascii_case(val, "y")
        || str_eq_ignore_ascii_case(val, "on")
}

/// Reads a bit order: `lsb` or `lsb_first`, in any case, else MSB first.
pub fn parse_bit_order(val: &str) -> (r: BitOrder)
    ensures
        r == bit_order_of(val@),
{
    if str_eq_ignore_ascii_case(val, "lsb") || str_eq_ignore_ascii_case(val, "lsb_first") {
        BitOrder::LsbFirst
    } else {
        BitOrder::MsbFirst
    }
}

/// Reads an invert override given by a query parameter or a header.
pub fn parse_bool_public(val: &str) -> (r: bool)
    ensures
        r == truthy(val@),
{
    parse_bool(val)
}

/// Reads a bit-order override given by a query parameter or a header.
pub fn parse_bit_order_public(val: &str) -> (r: BitOrder)
    ensures
        r == bit_order_of(val@),
{
    parse_bit_order(val)
}

} // verus!
