//! The header of a written archive.

use vstd::prelude::*;

use vstd::arithmetic::div_mod::lemma_div_denominator;

verus! {

/// Where the header keeps the offset of the leaf directories.
pub const LEAF_OFFSET_POSITION: usize = 40;

/// Where it keeps their length.
pub const LEAF_LENGTH_POSITION: usize = 48;

/// Where it keeps the offset of the tile data; their length stands behind it.
pub const DATA_OFFSET_POSITION: usize = 56;

pub const DATA_LENGTH_POSITION: usize = 64;

/// The number that eight bytes hold, the lowest byte first.
pub open spec fn number_at(bytes: Seq<u8>, at: int) -> int {
    bytes[at] + 0x100 * bytes[at + 1] + 0x1_0000 * bytes[at + 2] + 0x100_0000 * bytes[at + 3]
        + 0x1_0000_0000 * bytes[at + 4] + 0x100_0000_0000 * bytes[at + 5] + 0x1_0000_0000_0000
        * bytes[at + 6] + 0x100_0000_0000_0000 * bytes[at + 7]
}

fn read_number(bytes: &Vec<u8>, at: usize) -> (number: u64)
    requires
        at + 8 <= bytes@.len(),
    ensures
        number == number_at(bytes@, at as int),
{
    let count: usize = bytes.len();
    assert(at + 8 <= count);
    bytes[at] as u64 + 0x100 * bytes[at + 1] as u64 + 0x1_0000 * bytes[at + 2] as u64 + 0x100_0000
        * bytes[at + 3] as u64 + 0x1_0000_0000 * bytes[at + 4] as u64 + 0x100_0000_0000
        * bytes[at + 5] as u64 + 0x1_0000_0000_0000 * bytes[at + 6] as u64 + 0x100_0000_0000_0000
        * bytes[at + 7] as u64
}

fn write_number(bytes: &mut Vec<u8>, at: usize, number: u64)
    requires
        at + 8 <= old(bytes)@.len(),
    ensures
        final(bytes)@.len() == old(bytes)@.len(),
        number_at(final(bytes)@, at as int) == number,
        forall|i: int|
            0 <= i < old(bytes)@.len() && !(at <= i < at + 8) ==> #[trigger] final(bytes)@[i]
                == old(bytes)@[i],
{
    let count: usize = bytes.len();
    assert(at + 8 <= count);
    let q1: u64 = number / 0x100;
    let q2: u64 = q1 / 0x100;
    let q3: u64 = q2 / 0x100;
    let q4: u64 = q3 / 0x100;
    let q5: u64 = q4 / 0x100;
    let q6: u64 = q5 / 0x100;
    let q7: u64 = q6 / 0x100;
    bytes.set(at, (number % 0x100) as u8);
    bytes.set(at + 1, (q1 % 0x100) as u8);
    bytes.set(at + 2, (q2 % 0x100) as u8);
    bytes.set(at + 3, (q3 % 0x100) as u8);
    bytes.set(at + 4, (q4 % 0x100) as u8);
    bytes.set(at + 5, (q5 % 0x100) as u8);
    bytes.set(at + 6, (q6 % 0x100) as u8);
    bytes.set(at + 7, q7 as u8);
    proof {
        let b = bytes@;
        assert(b[at + 0] + 0x100 * q1 == number);
        assert(b[at + 1] + 0x100 * q2 == q1);
        assert(b[at + 2] + 0x100 * q3 == q2);
        assert(b[at + 3] + 0x100 * q4 == q3);
        assert(b[at + 4] + 0x100 * q5 == q4);
        assert(b[at + 5] + 0x100 * q6 == q5);
        assert(b[at + 6] + 0x100 * q7 == q6);
        assert(b[at + 7] == q7);
    }
}

/// Why a header cannot be put right.
#[derive(Clone, Copy, Debug, PartialEq, Eq, Structural)]
pub enum HeaderError {
    /// The header ends early.
    TooShort,
    /// The tile data reach past every offset.
    DataRange,
}

/// There are no leaf directories, and their offset says nothing.
pub open spec fn lacks_leaves(header: Seq<u8>) -> bool {
    number_at(header, LEAF_OFFSET_POSITION as int) == 0 && number_at(
        header,
        LEAF_LENGTH_POSITION as int,
    ) == 0
}

/// The end of the tile data.
pub open spec fn data_end(header: Seq<u8>) -> int {
    number_at(header, DATA_OFFSET_POSITION as int) + number_at(header, DATA_LENGTH_POSITION as int)
}

/// What stands in the way of putting the header right.
pub open spec fn header_fault(header: Seq<u8>) -> Option<HeaderError> {
    if header.len() < 56 {
        Some(HeaderError::TooShort)
    } else if !lacks_leaves(header) {
        None
    } else if header.len() < 72 {
        Some(HeaderError::TooShort)
    } else if data_end(header) > u64::MAX {
        Some(HeaderError::DataRange)
    } else {
        None
    }
}

/// The header after it was put right: where there are no leaf directories their
/// offset is the end of the tile data, and everything else stays.
pub open spec fn is_normalized(after: Seq<u8>, before: Seq<u8>) -> bool {
    &&& after.len() == before.len()
    &&& if lacks_leaves(before) {
        &&& number_at(after, LEAF_OFFSET_POSITION as int) == data_end(before)
        &&& forall|i: int|
            0 <= i < before.len() && !(40 <= i < 48) ==> #[trigger] after[i] == before[i]
    } else {
        after == before
    }
}

/// Points the offset of the leaf directories to the end of the tile data where
/// there are none.
///
/// The writer leaves this offset at zero when the root directory fits without
/// leaf directories. A reader may expect it to point to the end of tile data
/// even when the corresponding length is zero.
pub fn normalize_empty_leaf_offset(header: &mut Vec<u8>) -> (outcome: Result<(), HeaderError>)
    ensures
        match outcome {
            Ok(_) => {
                &&& header_fault(old(header)@) is None
                &&& is_normalized(final(header)@, old(header)@)
            },
            Err(error) => {
                &&& header_fault(old(header)@) == Some(error)
                &&& final(header)@ == old(header)@
            },
        },
{
    if header.len() < LEAF_LENGTH_POSITION + 8 {
        return Err(HeaderError::TooShort);
    }
    let leaf_offset: u64 = read_number(header, LEAF_OFFSET_POSITION);
    let leaf_length: u64 = read_number(header, LEAF_LENGTH_POSITION);
    if leaf_offset != 0 || leaf_length != 0 {
        return Ok(());
    }
    if header.len() < DATA_LENGTH_POSITION + 8 {
        return Err(HeaderError::TooShort);
    }
    let data_offset: u64 = read_number(header, DATA_OFFSET_POSITION);
    let data_length: u64 = read_number(header, DATA_LENGTH_POSITION);
    match data_offset.checked_add(data_length) {
        Some(end) => {
            write_number(header, LEAF_OFFSET_POSITION, end);
            Ok(())
        },
        None => Err(HeaderError::DataRange),
    }
}

/// A header that was put right stays as it is.
pub proof fn lemma_normalized_once(first: Seq<u8>, second: Seq<u8>, third: Seq<u8>)
    requires
        header_fault(first) is None,
        is_normalized(second, first),
        is_normalized(third, second),
    ensures
        header_fault(second) is None,
        third == second,
{
    if lacks_leaves(first) {
        assert(number_at(second, 48) == number_at(first, 48));
        assert(number_at(second, 56) == number_at(first, 56));
        assert(number_at(second, 64) == number_at(first, 64));
        if lacks_leaves(second) {
            assert(number_at(third, 40) == 0 && number_at(second, 40) == 0);
            assert forall|i: int| 0 <= i < second.len() implies third[i] == second[i] by {
                if 40 <= i < 48 {
                    lemma_zero(third, 40, i);
                    lemma_zero(second, 40, i);
                }
            }
            assert(third =~= second);
        }
    }
}

/// Only zeros make zero.
proof fn lemma_zero(bytes: Seq<u8>, at: int, i: int)
    requires
        number_at(bytes, at) == 0,
        at <= i < at + 8,
    ensures
        bytes[i] == 0,
{
    assert(bytes[at] == 0 && bytes[at + 1] == 0 && bytes[at + 2] == 0 && bytes[at + 3] == 0
        && bytes[at + 4] == 0 && bytes[at + 5] == 0 && bytes[at + 6] == 0 && bytes[at + 7] == 0);
}

/// The bytes of a number: the lowest first, each a digit to the base of 256.
pub proof fn lemma_number_bytes(bytes: Seq<u8>, at: int)
    ensures
        number_at(bytes, at) % 0x100 == bytes[at],
        number_at(bytes, at) / 0x100 % 0x100 == bytes[at + 1],
        number_at(bytes, at) / 0x1_0000 % 0x100 == bytes[at + 2],
        number_at(bytes, at) / 0x100_0000 % 0x100 == bytes[at + 3],
        number_at(bytes, at) / 0x1_0000_0000 % 0x100 == bytes[at + 4],
        number_at(bytes, at) / 0x100_0000_0000 % 0x100 == bytes[at + 5],
        number_at(bytes, at) / 0x1_0000_0000_0000 % 0x100 == bytes[at + 6],
        number_at(bytes, at) / 0x100_0000_0000_0000 == bytes[at + 7],
{
    let n = number_at(bytes, at);
    let q7 = bytes[at + 7] as int;
    let q6 = bytes[at + 6] + 0x100 * q7;
    let q5 = bytes[at + 5] + 0x100 * q6;
    let q4 = bytes[at + 4] + 0x100 * q5;
    let q3 = bytes[at + 3] + 0x100 * q4;
    let q2 = bytes[at + 2] + 0x100 * q3;
    let q1 = bytes[at + 1] + 0x100 * q2;
    assert(n == bytes[at] + 0x100 * q1);
    assert(n / 0x100 == q1);
    assert(q1 / 0x100 == q2);
    assert(q2 / 0x100 == q3);
    assert(q3 / 0x100 == q4);
    assert(q4 / 0x100 == q5);
    assert(q5 / 0x100 == q6);
    assert(q6 / 0x100 == q7);
    lemma_div_denominator(n, 0x100, 0x100);
    lemma_div_denominator(n, 0x1_0000, 0x100);
    lemma_div_denominator(n, 0x100_0000, 0x100);
    lemma_div_denominator(n, 0x1_0000_0000, 0x100);
    lemma_div_denominator(n, 0x100_0000_0000, 0x100);
    lemma_div_denominator(n, 0x1_0000_0000_0000, 0x100);
}

/// What becomes of a header. The offset of the leaf directories stands in the bytes from
/// 40 on, their length from 48, the offset of the data from 56 and the length of the data
/// from 64. Where the first two are zero, the first becomes the sum of the last two and no
/// other byte changes; otherwise nothing does.
pub proof fn lemma_leaf_offset(after: Seq<u8>, before: Seq<u8>)
    requires
        is_normalized(after, before),
    ensures
        after.len() == before.len(),
        number_at(before, 40) == 0 && number_at(before, 48) == 0 ==> number_at(after, 40)
            == number_at(before, 56) + number_at(before, 64),
        number_at(before, 40) != 0 || number_at(before, 48) != 0 ==> after == before,
        forall|i: int|
            0 <= i < before.len() && !(40 <= i < 48) ==> #[trigger] after[i] == before[i],
{
}

/// A header is refused where it ends before what has to be read of it, or where the data
/// would end past every offset, and nowhere else.
pub proof fn lemma_header_fault(header: Seq<u8>)
    ensures
        header.len() < 56 ==> header_fault(header) == Some(HeaderError::TooShort),
        header.len() >= 56 && (number_at(header, 40) != 0 || number_at(header, 48) != 0)
            ==> header_fault(header) is None,
        56 <= header.len() < 72 && number_at(header, 40) == 0 && number_at(header, 48) == 0
            ==> header_fault(header) == Some(HeaderError::TooShort),
        header.len() >= 72 && number_at(header, 40) == 0 && number_at(header, 48) == 0 ==> (
        header_fault(header) == if number_at(header, 56) + number_at(header, 64)
            < 0x1_0000_0000_0000_0000 {
            None
        } else {
            Some(HeaderError::DataRange)
        }),
{
}

} // verus!
