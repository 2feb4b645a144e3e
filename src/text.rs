use vstd::prelude::*;

verus! {

/// The code of a character after ASCII lower-casing.
pub open spec fn lower_code(c: char) -> u32 {
    if 'A' <= c && c <= 'Z' {
        ((c as u32) + 32) as u32
    } else {
        c as u32
    }
}

/// A byte after ASCII lower-casing.
pub open spec fn lower_byte(b: u8) -> u8 {
    if 65 <= b && b <= 90 {
        (b + 32) as u8
    } else {
        b
    }
}

/// The two strings are equal when ASCII letters are compared without case.
pub open spec fn eq_ci(a: Seq<char>, b: Seq<char>) -> bool {
    a.len() == b.len() && forall|i: int| 0 <= i < a.len() ==> lower_code(a[i]) == lower_code(#[trigger] b[i])
}

/// `a` begins with `p` when ASCII letters are compared without case.
pub open spec fn starts_with_ci(a: Seq<char>, p: Seq<char>) -> bool {
    p.len() <= a.len() && eq_ci(a.subrange(0, p.len() as int), p)
}

/// The two byte strings are equal when ASCII letters are compared without case.
pub open spec fn bytes_eq_ci(a: Seq<u8>, b: Seq<u8>) -> bool {
    a.len() == b.len() && forall|i: int| 0 <= i < a.len() ==> lower_byte(a[i]) == lower_byte(#[trigger] b[i])
}

/// `a` ends with `s` when ASCII letters are compared without case.
pub open spec fn bytes_ends_with_ci(a: Seq<u8>, s: Seq<u8>) -> bool {
    s.len() <= a.len() && bytes_eq_ci(a.subrange(a.len() - s.len(), a.len() as int), s)
}

fn lower_char_code(c: char) -> (r: u32)
    ensures
        r == lower_code(c),
{
    if 'A' <= c && c <= 'Z' {
        (c as u32) + 32
    } else {
        c as u32
    }
}

fn lower_u8(b: u8) -> (r: u8)
    ensures
        r == lower_byte(b),
{
    if 65 <= b && b <= 90 {
        b + 32
    } else {
        b
    }
}

/// Compares two strings, ignoring the case of ASCII letters.
pub fn str_eq_ignore_ascii_case(a: &str, b: &str) -> (r: bool)
    ensures
        r == eq_ci(a@, b@),
{
    let n = a.unicode_len();
    if n != b.unicode_len() {
        return false;
    }
    let mut i: usize = 0;
    while i < n
        invariant
            n == a@.len(),
            n == b@.len(),
            i <= n,
            forall|j: int| 0 <= j < i ==> lower_code(a@[j]) == lower_code(#[trigger] b@[j]),
        decreases n - i,
    {
        if lower_char_code(a.get_char(i)) != lower_char_code(b.get_char(i)) {
            return false;
        }
        i += 1;
    }
    true
}

/// Tells whether `a` begins with `p`, ignoring the case of ASCII letters.
pub fn str_starts_with_ignore_ascii_case(a: &str, p: &str) -> (r: bool)
    ensures
        r == starts_with_ci(a@, p@),
{
    let n = p.unicode_len();
    if n > a.unicode_len() {
        return false;
    }
    let mut i: usize = 0;
    while i < n
        invariant
            n == p@.len(),
            n <= a@.len(),
            i <= n,
            forall|j: int| 0 <= j < i ==> lower_code(a@[j]) == lower_code(#[trigger] p@[j]),
        decreases n - i,
    {
        if lower_char_code(a.get_char(i)) != lower_char_code(p.get_char(i)) {
            return false;
        }
        i += 1;
    }
    assert(forall|j: int| 0 <= j < n ==> a@.subrange(0, n as int)[j] == a@[j]);
    true
}

/// Compares two byte strings, ignoring the case of ASCII letters.
pub fn bytes_eq_ignore_ascii_case(a: &[u8], b: &[u8]) -> (r: bool)
    ensures
        r == bytes_eq_ci(a@, b@),
{
    if a.len() != b.len() {
        return false;
    }
    let mut i: usize = 0;
    while i < a.len()
        invariant
            a@.len() == b@.len(),
            i <= a@.len(),
            forall|j: int| 0 <= j < i ==> lower_byte(a@[j]) == lower_byte(#[trigger] b@[j]),
        decreases a.len() - i,
    {
        if lower_u8(a[i]) != lower_u8(b[i]) {
            return false;
        }
        i += 1;
    }
    true
}

/// Tells whether `a` ends with `s`, ignoring the case of ASCII letters.
pub fn bytes_ends_with_ignore_ascii_case(a: &[u8], s: &[u8]) -> (r: bool)
    ensures
        r == bytes_ends_with_ci(a@, s@),
{
    if s.len() > a.len() {
        return false;
    }
    let n = a.len();
    let off = n - s.len();
    let mut i: usize = 0;
    while i < s.len()
        invariant
            n == a@.len(),
            s@.len() <= a@.len(),
            off == a@.len() - s@.len(),
            i <= s@.len(),
            forall|j: int| 0 <= j < i ==> lower_byte(a@[off + j]) == lower_byte(#[trigger] s@[j]),
        decreases s.len() - i,
    {
        if lower_u8(a[off + i]) != lower_u8(s[i]) {
            return false;
        }
        i += 1;
    }
    assert(forall|j: int| 0 <= j < s@.len() ==> a@.subrange(off as int, a@.len() as int)[j] == a@[off + j]);
    true
}

/// Compares two strings character by character.
pub fn str_equal(a: &str, b: &str) -> (r: bool)
    ensures
        r == (a@ == b@),
{
    let n = a.unicode_len();
    if n != b.unicode_len() {
        return false;
    }
    let mut i: usize = 0;
    while i < n
        invariant
            n == a@.len(),
            n == b@.len(),
            i <= n,
            forall|j: int| 0 <= j < i ==> a@[j] == #[trigger] b@[j],
        decreases n - i,
    {
        if a.get_char(i) != b.get_char(i) {
            return false;
        }
        i += 1;
    }
    assert(a@ =~= b@);
    true
}

} // verus!
