//! The bitmap that says which points of a grid carry a value.

use vstd::prelude::*;

use bit_vec::BitVec;

verus! {

/// Declares `bit_vec::BitVec`; what it holds is named by [`bits_of`].
#[verifier::external_type_specification]
#[verifier::external_body]
#[verifier::reject_recursive_types(B)]
pub struct ExBitVec<B>(BitVec<B>);

/// The bits that a bit vector holds, in the order in which it hands them out.
pub uninterp spec fn bits_of(bits: BitVec) -> Seq<bool>;

/// What bit number `k` of a byte is worth, counted from the highest.
pub open spec fn bit_weight(k: int) -> int {
    if k == 0 {
        128
    } else if k == 1 {
        64
    } else if k == 2 {
        32
    } else if k == 3 {
        16
    } else if k == 4 {
        8
    } else if k == 5 {
        4
    } else if k == 6 {
        2
    } else {
        1
    }
}

/// Bit number `i` of a run of bytes, the highest bit of each byte first.
pub open spec fn msb_first(bytes: Seq<u8>, i: int) -> bool {
    (bytes[i / 8] as int / bit_weight(i % 8)) % 2 == 1
}

/// A byte is made of its bits: the highest of them comes first.
pub proof fn lemma_bits_of_byte(bytes: Seq<u8>, n: int)
    requires
        0 <= n < bytes.len(),
    ensures
        bytes[n] == (if msb_first(bytes, 8 * n) {
            128int
        } else {
            0
        }) + (if msb_first(bytes, 8 * n + 1) {
            64int
        } else {
            0
        }) + (if msb_first(bytes, 8 * n + 2) {
            32int
        } else {
            0
        }) + (if msb_first(bytes, 8 * n + 3) {
            16int
        } else {
            0
        }) + (if msb_first(bytes, 8 * n + 4) {
            8int
        } else {
            0
        }) + (if msb_first(bytes, 8 * n + 5) {
            4int
        } else {
            0
        }) + (if msb_first(bytes, 8 * n + 6) {
            2int
        } else {
            0
        }) + (if msb_first(bytes, 8 * n + 7) {
            1int
        } else {
            0
        }),
{
    let b = bytes[n];
    assert(forall|k: int| 0 <= k < 8 ==> #[trigger] (8 * n + k) / 8 == n && (8 * n + k) % 8 == k);
    assert(8 * n == 8 * n + 0);
    assert(b as u32 == (if (b / 128) % 2 == 1 {
        128u32
    } else {
        0
    }) + (if (b / 64) % 2 == 1 {
        64u32
    } else {
        0
    }) + (if (b / 32) % 2 == 1 {
        32u32
    } else {
        0
    }) + (if (b / 16) % 2 == 1 {
        16u32
    } else {
        0
    }) + (if (b / 8) % 2 == 1 {
        8u32
    } else {
        0
    }) + (if (b / 4) % 2 == 1 {
        4u32
    } else {
        0
    }) + (if (b / 2) % 2 == 1 {
        2u32
    } else {
        0
    }) + (if b % 2 == 1 {
        1u32
    } else {
        0
    })) by (bit_vector);
    assert(msb_first(bytes, 8 * n) == ((b / 128) % 2 == 1));
    assert(msb_first(bytes, 8 * n + 1) == ((b / 64) % 2 == 1));
    assert(msb_first(bytes, 8 * n + 2) == ((b / 32) % 2 == 1));
    assert(msb_first(bytes, 8 * n + 3) == ((b / 16) % 2 == 1));
    assert(msb_first(bytes, 8 * n + 4) == ((b / 8) % 2 == 1));
    assert(msb_first(bytes, 8 * n + 5) == ((b / 4) % 2 == 1));
    assert(msb_first(bytes, 8 * n + 6) == ((b / 2) % 2 == 1));
    assert(msb_first(bytes, 8 * n + 7) == (b % 2 == 1));
}

/// Reads bits out of bytes with `bit_vec::BitVec::from_bytes`, which takes the
/// highest bit of each byte first and panics where their number does not fit.
#[verifier::external_body]
fn from_bytes(bytes: &[u8]) -> (bits: BitVec)
    requires
        bytes@.len() * 8 <= usize::MAX,
    ensures
        bits_of(bits) == Seq::new((bytes@.len() * 8) as nat, |i: int| msb_first(bytes@, i)),
{
    BitVec::from_bytes(bytes)
}

/// Cuts the bits off behind the first `count` with `bit_vec::BitVec::truncate`,
/// which leaves a shorter vector alone.
#[verifier::external_body]
fn truncate(bits: &mut BitVec, count: usize)
    ensures
        bits_of(*final(bits)) == if count < bits_of(*old(bits)).len() {
            bits_of(*old(bits)).take(count as int)
        } else {
            bits_of(*old(bits))
        },
{
    bits.truncate(count)
}

/// Hands the bits out with `bit_vec::BitVec::iter`, in order.
#[verifier::external_body]
fn to_bools(bits: &BitVec) -> (values: Vec<bool>)
    ensures
        values@ == bits_of(*bits),
{
    bits.iter().collect()
}

/// How many bytes hold one bit for each of `num_points` points.
pub fn bitmap_bytes(num_points: usize) -> (count: usize)
    ensures
        num_points <= count * 8 < num_points + 8,
{
    if num_points % 8 == 0 {
        num_points / 8
    } else {
        num_points / 8 + 1
    }
}

/// The bitmap of a grid with `num_points` points, out of the bytes that hold it.
pub fn read_bitmap(bytes: &Vec<u8>, num_points: usize) -> (bitmap: BitVec)
    requires
        num_points <= bytes@.len() * 8 < num_points + 8,
        bytes@.len() * 8 <= usize::MAX,
    ensures
        bits_of(bitmap) == Seq::new(num_points as nat, |i: int| msb_first(bytes@, i)),
{
    let mut bitmap = from_bytes(bytes.as_slice());
    truncate(&mut bitmap, num_points);
    proof {
        assert(bits_of(bitmap) =~= Seq::new(num_points as nat, |i: int| msb_first(bytes@, i)));
    }
    bitmap
}

/// The bits of a bitmap, one for each point.
pub fn bitmap_flags(bitmap: &BitVec) -> (flags: Vec<bool>)
    ensures
        flags@ == bits_of(*bitmap),
{
    to_bools(bitmap)
}

} // verus!
