//! Double-precision numbers by their bits: comparing them without arithmetic.

use vstd::prelude::*;

verus! {

/// The bits without the sign.
pub open spec fn magnitude(bits: u64) -> int {
    if bits >= 0x8000_0000_0000_0000 {
        bits - 0x8000_0000_0000_0000
    } else {
        bits as int
    }
}

/// The bits of no number.
pub open spec fn is_nan(bits: u64) -> bool {
    magnitude(bits) > 0x7ff0_0000_0000_0000
}

pub open spec fn is_finite(bits: u64) -> bool {
    magnitude(bits) < 0x7ff0_0000_0000_0000
}

/// A number that orders doubles as their values are ordered.
pub open spec fn order_key(bits: u64) -> int {
    if bits >= 0x8000_0000_0000_0000 {
        -magnitude(bits)
    } else {
        magnitude(bits)
    }
}

/// One double is less than another.
pub open spec fn is_less(a: u64, b: u64) -> bool {
    !is_nan(a) && !is_nan(b) && order_key(a) < order_key(b)
}

/// Two doubles are equal.
pub open spec fn is_equal(a: u64, b: u64) -> bool {
    !is_nan(a) && !is_nan(b) && order_key(a) == order_key(b)
}

/// The order of doubles, by their bits. A pattern whose bits without the sign are above
/// those of infinity is no number, and stands in no order. Of two numbers of the same
/// sign the one with the greater bits lies further from zero; a negative number is less
/// than a positive one, and the two zeros are equal.
pub proof fn lemma_order(a: u64, b: u64)
    ensures
        is_nan(a) <==> (0x7ff0_0000_0000_0000 < a < 0x8000_0000_0000_0000 || a
            > 0xfff0_0000_0000_0000),
        is_finite(a) <==> (a < 0x7ff0_0000_0000_0000 || 0x8000_0000_0000_0000 <= a
            < 0xfff0_0000_0000_0000),
        is_nan(a) || is_nan(b) ==> !is_less(a, b) && !is_equal(a, b),
        !is_nan(a) && !is_nan(b) && a < 0x8000_0000_0000_0000 && b < 0x8000_0000_0000_0000 ==> (
        is_less(a, b) <==> a < b),
        !is_nan(a) && !is_nan(b) && a >= 0x8000_0000_0000_0000 && b >= 0x8000_0000_0000_0000 ==> (
        is_less(a, b) <==> a > b),
        !is_nan(a) && !is_nan(b) && a >= 0x8000_0000_0000_0000 && b < 0x8000_0000_0000_0000 ==> (
        is_less(a, b) <==> !(a == 0x8000_0000_0000_0000 && b == 0)),
        !is_nan(a) && !is_nan(b) && a < 0x8000_0000_0000_0000 && b >= 0x8000_0000_0000_0000
            ==> !is_less(a, b),
        !is_nan(a) && !is_nan(b) ==> (is_less(a, b) <==> order_key(a) < order_key(b)),
        !is_nan(a) && !is_nan(b) ==> (is_equal(a, b) <==> !is_less(a, b) && !is_less(b, a)),
        !is_nan(a) && !is_nan(b) ==> (is_equal(a, b) <==> a == b || (a == 0 && b
            == 0x8000_0000_0000_0000) || (b == 0 && a == 0x8000_0000_0000_0000)),
{
}

/// The lesser and the greater of two doubles are among them, and stand on either side
/// of both. A pattern that is no number does not count against a number.
pub proof fn lemma_extremes(a: u64, b: u64)
    ensures
        lesser(a, b) == a || lesser(a, b) == b,
        greater(a, b) == a || greater(a, b) == b,
        !is_nan(a) ==> !is_nan(lesser(a, b)) && !is_less(a, lesser(a, b)),
        !is_nan(b) ==> !is_nan(lesser(a, b)) && !is_less(b, lesser(a, b)),
        !is_nan(a) ==> !is_nan(greater(a, b)) && !is_less(greater(a, b), a),
        !is_nan(b) ==> !is_nan(greater(a, b)) && !is_less(greater(a, b), b),
{
}

pub fn absolute(bits: u64) -> (r: u64)
    ensures
        r == magnitude(bits),
{
    if bits >= 0x8000_0000_0000_0000 {
        bits - 0x8000_0000_0000_0000
    } else {
        bits
    }
}

pub fn nan(bits: u64) -> (r: bool)
    ensures
        r == is_nan(bits),
{
    absolute(bits) > 0x7ff0_0000_0000_0000
}

pub fn finite(bits: u64) -> (r: bool)
    ensures
        r == is_finite(bits),
{
    absolute(bits) < 0x7ff0_0000_0000_0000
}

fn key(bits: u64) -> (r: i128)
    ensures
        r == order_key(bits),
{
    let size: i128 = absolute(bits) as i128;
    if bits >= 0x8000_0000_0000_0000 {
        -size
    } else {
        size
    }
}

pub fn less(a: u64, b: u64) -> (r: bool)
    ensures
        r == is_less(a, b),
{
    !nan(a) && !nan(b) && key(a) < key(b)
}

pub fn equal(a: u64, b: u64) -> (r: bool)
    ensures
        r == is_equal(a, b),
{
    !nan(a) && !nan(b) && key(a) == key(b)
}

/// The lesser of two doubles; the other, where one is no number.
pub open spec fn lesser(a: u64, b: u64) -> u64 {
    if is_nan(b) {
        a
    } else if is_nan(a) || is_less(b, a) {
        b
    } else {
        a
    }
}

/// The greater of two doubles; the other, where one is no number.
pub open spec fn greater(a: u64, b: u64) -> u64 {
    if is_nan(b) {
        a
    } else if is_nan(a) || is_less(a, b) {
        b
    } else {
        a
    }
}

pub fn min(a: u64, b: u64) -> (r: u64)
    ensures
        r == lesser(a, b),
{
    if nan(b) {
        a
    } else if nan(a) || less(b, a) {
        b
    } else {
        a
    }
}

pub fn max(a: u64, b: u64) -> (r: u64)
    ensures
        r == greater(a, b),
{
    if nan(b) {
        a
    } else if nan(a) || less(a, b) {
        b
    } else {
        a
    }
}

} // verus!
