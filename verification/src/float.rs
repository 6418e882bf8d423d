//! Equality of floating-point numbers that are given by their IEEE 754 bit patterns: a NaN equals
//! nothing, and the two zeros are equal.

use vstd::prelude::*;

verus! {

/// The bits of a 64-bit number without its sign.
pub open spec fn magnitude64(bits: u64) -> int {
    bits as int % 0x8000_0000_0000_0000
}

pub open spec fn is_nan64(bits: u64) -> bool {
    magnitude64(bits) > 0x7ff0_0000_0000_0000
}

/// The 64-bit numbers are equal.
pub open spec fn same64(a: u64, b: u64) -> bool {
    &&& !is_nan64(a)
    &&& !is_nan64(b)
    &&& a == b || (magnitude64(a) == 0 && magnitude64(b) == 0)
}

/// The bits of a 32-bit number without its sign.
pub open spec fn magnitude32(bits: u32) -> int {
    bits as int % 0x8000_0000
}

pub open spec fn is_nan32(bits: u32) -> bool {
    magnitude32(bits) > 0x7f80_0000
}

/// The 32-bit numbers are equal.
pub open spec fn same32(a: u32, b: u32) -> bool {
    &&& !is_nan32(a)
    &&& !is_nan32(b)
    &&& a == b || (magnitude32(a) == 0 && magnitude32(b) == 0)
}

/// The 32-bit numbers are equal one by one.
pub open spec fn same_vectors(a: Seq<u32>, b: Seq<u32>) -> bool {
    a.len() == b.len() && forall|i: int| 0 <= i < a.len() ==> same32(#[trigger] a[i], b[i])
}

/// Whether two 64-bit numbers are equal.
pub fn equal64(a: u64, b: u64) -> (r: bool)
    ensures
        r == same64(a, b),
{
    let x: u64 = a % 0x8000_0000_0000_0000;
    let y: u64 = b % 0x8000_0000_0000_0000;
    x <= 0x7ff0_0000_0000_0000 && y <= 0x7ff0_0000_0000_0000 && (a == b || (x == 0 && y == 0))
}

/// Whether two 32-bit numbers are equal.
pub fn equal32(a: u32, b: u32) -> (r: bool)
    ensures
        r == same32(a, b),
{
    let x: u32 = a % 0x8000_0000;
    let y: u32 = b % 0x8000_0000;
    x <= 0x7f80_0000 && y <= 0x7f80_0000 && (a == b || (x == 0 && y == 0))
}

/// Whether 32-bit numbers are equal one by one.
pub fn equal_vectors(a: &Vec<u32>, b: &Vec<u32>) -> (r: bool)
    ensures
        r == same_vectors(a@, b@),
{
    if a.len() != b.len() {
        return false;
    }
    let mut i: usize = 0;
    while i < a.len()
        invariant
            i <= a@.len(),
            a@.len() == b@.len(),
            forall|j: int| 0 <= j < i ==> same32(#[trigger] a@[j], b@[j]),
        decreases a@.len() - i,
    {
        if !equal32(a[i], b[i]) {
            return false;
        }
        i = i + 1;
    }
    true
}

/// Numbers of 64 bits are a sign, 11 bits of exponent and 52 of fraction. A number whose exponent is all
/// ones and whose fraction is not zero equals nothing; every other equals itself. The zeros of both
/// signs are equal, and any other two numbers only if all their bits are. Equality goes both ways.
pub proof fn law_same64(a: u64, b: u64)
    ensures
        !same64(a, a) <==> a / 0x10_0000_0000_0000 % 0x800 == 0x7ff && a % 0x10_0000_0000_0000 != 0,
        same64(a, b) ==> same64(a, a) && same64(b, b),
        same64(a, b) <==> same64(b, a),
        same64(0, 0x8000_0000_0000_0000),
        same64(a, a) && a != b ==> (same64(a, b) <==> (a == 0 || a == 0x8000_0000_0000_0000) && (b
            == 0 || b == 0x8000_0000_0000_0000)),
{
}

/// Numbers of 32 bits are a sign, 8 bits of exponent and 23 of fraction, and are equal as those of 64
/// bits are.
pub proof fn law_same32(a: u32, b: u32)
    ensures
        !same32(a, a) <==> a / 0x80_0000 % 0x100 == 0xff && a % 0x80_0000 != 0,
        same32(a, b) ==> same32(a, a) && same32(b, b),
        same32(a, b) <==> same32(b, a),
        same32(0, 0x8000_0000),
        same32(a, a) && a != b ==> (same32(a, b) <==> (a == 0 || a == 0x8000_0000) && (b == 0 || b
            == 0x8000_0000)),
{
}

} // verus!
