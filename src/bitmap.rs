use vstd::prelude::*;

verus! {

/// Order of the pixels within one byte of a packed bitmap.
#[derive(Debug, Clone, Copy, PartialEq, Eq, Structural)]
pub enum BitOrder {
    MsbFirst,
    LsbFirst,
}

/// The byte whose bit `i` is bit `7 - i` of `b`.
pub open spec fn reverse_bits(b: u8) -> u8 {
    let s1 = ((b & 0xF0u8) >> 4u8) | ((b & 0x0Fu8) << 4u8);
    let s2 = ((s1 & 0xCCu8) >> 2u8) | ((s1 & 0x33u8) << 2u8);
    ((s2 & 0xAAu8) >> 1u8) | ((s2 & 0x55u8) << 1u8)
}

/// One byte after the optional complement and the optional bit reversal.
pub open spec fn transform_byte(b: u8, invert: bool, order: BitOrder) -> u8 {
    let c = if invert { !b } else { b };
    if order == BitOrder::LsbFirst { reverse_bits(c) } else { c }
}

/// A bitmap with every byte transformed.
pub open spec fn transformed(data: Seq<u8>, invert: bool, order: BitOrder) -> Seq<u8> {
    Seq::new(data.len(), |i: int| transform_byte(data[i], invert, order))
}

/// `data` cut or zero-padded to exactly `expected` bytes.
pub open spec fn normalized(data: Seq<u8>, expected: nat) -> Seq<u8> {
    if data.len() >= expected {
        data.subrange(0, expected as int)
    } else {
        data + Seq::new((expected - data.len()) as nat, |i: int| 0u8)
    }
}

proof fn lemma_reverse_twice_bv(b: u8, s1: u8, s2: u8, r: u8, t1: u8, t2: u8, q: u8)
    by (bit_vector)
    requires
        s1 == ((b & 0xF0u8) >> 4u8) | ((b & 0x0Fu8) << 4u8),
        s2 == ((s1 & 0xCCu8) >> 2u8) | ((s1 & 0x33u8) << 2u8),
        r == ((s2 & 0xAAu8) >> 1u8) | ((s2 & 0x55u8) << 1u8),
        t1 == ((r & 0xF0u8) >> 4u8) | ((r & 0x0Fu8) << 4u8),
        t2 == ((t1 & 0xCCu8) >> 2u8) | ((t1 & 0x33u8) << 2u8),
        q == ((t2 & 0xAAu8) >> 1u8) | ((t2 & 0x55u8) << 1u8),
    ensures
        q == b,
{
}

proof fn lemma_reverse_not_bv(b: u8, s1: u8, s2: u8, r: u8, n: u8, t1: u8, t2: u8, q: u8)
    by (bit_vector)
    requires
        s1 == ((b & 0xF0u8) >> 4u8) | ((b & 0x0Fu8) << 4u8),
        s2 == ((s1 & 0xCCu8) >> 2u8) | ((s1 & 0x33u8) << 2u8),
        r == ((s2 & 0xAAu8) >> 1u8) | ((s2 & 0x55u8) << 1u8),
        n == !b,
        t1 == ((n & 0xF0u8) >> 4u8) | ((n & 0x0Fu8) << 4u8),
        t2 == ((t1 & 0xCCu8) >> 2u8) | ((t1 & 0x33u8) << 2u8),
        q == ((t2 & 0xAAu8) >> 1u8) | ((t2 & 0x55u8) << 1u8),
    ensures
        q == !r,
{
}

proof fn lemma_not_not_bv(b: u8)
    by (bit_vector)
    ensures
        !(!b) == b,
{
}

proof fn lemma_reverse_twice(b: u8)
    ensures
        reverse_bits(reverse_bits(b)) == b,
{
    let s1 = ((b & 0xF0u8) >> 4u8) | ((b & 0x0Fu8) << 4u8);
    let s2 = ((s1 & 0xCCu8) >> 2u8) | ((s1 & 0x33u8) << 2u8);
    let r = ((s2 & 0xAAu8) >> 1u8) | ((s2 & 0x55u8) << 1u8);
    let t1 = ((r & 0xF0u8) >> 4u8) | ((r & 0x0Fu8) << 4u8);
    let t2 = ((t1 & 0xCCu8) >> 2u8) | ((t1 & 0x33u8) << 2u8);
    let q = ((t2 & 0xAAu8) >> 1u8) | ((t2 & 0x55u8) << 1u8);
    lemma_reverse_twice_bv(b, s1, s2, r, t1, t2, q);
}

proof fn lemma_reverse_not(b: u8)
    ensures
        reverse_bits(!b) == !reverse_bits(b),
{
    let s1 = ((b & 0xF0u8) >> 4u8) | ((b & 0x0Fu8) << 4u8);
    let s2 = ((s1 & 0xCCu8) >> 2u8) | ((s1 & 0x33u8) << 2u8);
    let r = ((s2 & 0xAAu8) >> 1u8) | ((s2 & 0x55u8) << 1u8);
    let n = !b;
    let t1 = ((n & 0xF0u8) >> 4u8) | ((n & 0x0Fu8) << 4u8);
    let t2 = ((t1 & 0xCCu8) >> 2u8) | ((t1 & 0x33u8) << 2u8);
    let q = ((t2 & 0xAAu8) >> 1u8) | ((t2 & 0x55u8) << 1u8);
    lemma_reverse_not_bv(b, s1, s2, r, n, t1, t2, q);
}

proof fn lemma_byte_round_trip(b: u8, invert: bool, order: BitOrder)
    ensures
        transform_byte(transform_byte(b, invert, order), invert, order) == b,
{
    lemma_not_not_bv(b);
    lemma_reverse_twice(b);
    lemma_reverse_twice(!b);
    lemma_reverse_not(b);
    lemma_reverse_not(reverse_bits(!b));
    lemma_not_not_bv(reverse_bits(b));
}

/// Transforming a bitmap twice with the same settings gives back the
/// original bytes: reversing the bit order twice, or inverting twice, is the
/// identity.
pub proof fn lemma_transform_round_trip(data: Seq<u8>, invert: bool, order: BitOrder)
    ensures
        transformed(transformed(data, invert, order), invert, order) == data,
{
    let once = transformed(data, invert, order);
    let twice = transformed(once, invert, order);
    assert forall|i: int| 0 <= i < data.len() implies twice[i] == data[i] by {
        lemma_byte_round_trip(data[i], invert, order);
    }
    assert(twice =~= data);
}

/// Reverses the bit order within one byte.
pub fn bit_reverse_byte(b: u8) -> (r: u8)
    ensures
        r == reverse_bits(b),
{
    let mut x = b;
    x = (x & 0xF0) >> 4 | (x & 0x0F) << 4;
    x = (x & 0xCC) >> 2 | (x & 0x33) << 2;
    x = (x & 0xAA) >> 1 | (x & 0x55) << 1;
    x
}

/// Applies the optional inversion, then the optional bit-order reversal, to
/// every byte.
pub fn transform_bitmap(data: Vec<u8>, invert: bool, bit_order: BitOrder) -> (r: Vec<u8>)
    ensures
        r@ == transformed(data@, invert, bit_order),
{
    let mut out: Vec<u8> = Vec::with_capacity(data.len());
    let mut i: usize = 0;
    while i < data.len()
        invariant
            i <= data.len(),
            out@ == transformed(data@, invert, bit_order).subrange(0, i as int),
        decreases data.len() - i,
    {
        let mut b = data[i];
        if invert {
            b = !b;
        }
        if bit_order == BitOrder::LsbFirst {
            b = bit_reverse_byte(b);
        }
        out.push(b);
        i += 1;
        assert(out@ =~= transformed(data@, invert, bit_order).subrange(0, i as int));
    }
    assert(out@ =~= transformed(data@, invert, bit_order));
    out
}

/// Cuts `data` to `expected` bytes, or pads it with zero bytes up to that
/// length.
pub fn normalize_bitmap(data: Vec<u8>, expected: usize) -> (r: Vec<u8>)
    ensures
        r@ == normalized(data@, expected as nat),
        r@.len() == expected,
{
    let mut out: Vec<u8> = Vec::with_capacity(expected);
    let mut i: usize = 0;
    while i < expected
        invariant
            i <= expected,
            out@ == normalized(data@, expected as nat).subrange(0, i as int),
        decreases expected - i,
    {
        if i < data.len() {
            out.push(data[i]);
        } else {
            out.push(0u8);
        }
        i += 1;
        assert(out@ =~= normalized(data@, expected as nat).subrange(0, i as int));
    }
    assert(out@ =~= normalized(data@, expected as nat));
    out
}

} // verus!
