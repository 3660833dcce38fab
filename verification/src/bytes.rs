//! Little-endian integers inside a byte slice.

use vstd::prelude::*;

use crate::error::{ExtractError, Failure};

verus! {

/// The little-endian number that the `width` bytes from `offset` on spell.
pub open spec fn le_at(data: Seq<u8>, offset: int, width: nat) -> nat
    decreases width,
{
    if width == 0 {
        0
    } else {
        data[offset] as nat + 256 * le_at(data, offset + 1, (width - 1) as nat)
    }
}

/// What a bounds-checked read of `width` bytes at `offset` gives: `outside` if the bytes
/// reach past the data.
pub open spec fn read_le(data: Seq<u8>, offset: int, width: nat, outside: Failure) -> Result<
    nat,
    Failure,
> {
    if offset + width > data.len() {
        Err(outside)
    } else {
        Ok(le_at(data, offset, width))
    }
}

/// A number read from `width` bytes is less than `256` to the power of `width`.
pub proof fn lemma_le_at_bound(data: Seq<u8>, offset: int)
    ensures
        le_at(data, offset, 2) <= u16::MAX,
        le_at(data, offset, 4) <= u32::MAX,
        le_at(data, offset, 8) <= u64::MAX,
{
    reveal_with_fuel(le_at, 9);
}

/// Two pieces of data that agree on the bytes read spell the same number.
pub proof fn lemma_le_at_same(a: Seq<u8>, b: Seq<u8>, at: int, bt: int, width: nat)
    requires
        forall|i: int| 0 <= i < width ==> #[trigger] a[at + i] == b[bt + i],
    ensures
        le_at(a, at, width) == le_at(b, bt, width),
    decreases width,
{
    if width > 0 {
        assert(a[at + 0] == b[bt + 0]);
        assert forall|i: int| 0 <= i < width - 1 implies #[trigger] a[at + 1 + i] == b[bt + 1
            + i] by {
            assert(a[at + (i + 1)] == b[bt + (i + 1)]);
        }
        lemma_le_at_same(a, b, at + 1, bt + 1, (width - 1) as nat);
    }
}

/// Numbers of two, four and eight bytes are stored with the lowest byte first.
pub proof fn lowest_byte_first(data: Seq<u8>, at: int)
    ensures
        le_at(data, at, 2) == data[at] + 0x100 * data[at + 1],
        le_at(data, at, 4) == data[at] + 0x100 * data[at + 1] + 0x1_0000 * data[at + 2]
            + 0x100_0000 * data[at + 3],
        le_at(data, at, 8) == data[at] + 0x100 * data[at + 1] + 0x1_0000 * data[at + 2]
            + 0x100_0000 * data[at + 3] + 0x1_0000_0000 * data[at + 4] + 0x100_0000_0000 * data[at
            + 5] + 0x1_0000_0000_0000 * data[at + 6] + 0x100_0000_0000_0000 * data[at + 7],
{
    reveal_with_fuel(le_at, 9);
}

/// A read succeeds exactly if all its bytes are there, and fails as its caller says. What stands
/// around the bytes does not count.
pub proof fn reads_stay_inside(
    before: Seq<u8>,
    field: Seq<u8>,
    after: Seq<u8>,
    outside: Failure,
    beyond: int,
)
    requires
        0 < beyond,
    ensures
        ({
            let data = before + field + after;
            let at = before.len() as int;
            &&& field.len() == 2 ==> read_le(data, at, 2, outside) == Ok::<nat, Failure>(
                (field[0] + 0x100 * field[1]) as nat,
            )
            &&& field.len() == 4 ==> read_le(data, at, 4, outside) == Ok::<nat, Failure>(
                (field[0] + 0x100 * field[1] + 0x1_0000 * field[2] + 0x100_0000
                    * field[3]) as nat,
            )
            &&& field.len() == 8 ==> read_le(data, at, 8, outside) is Ok
            &&& forall|width: nat| #[trigger]
                read_le(data, data.len() - width + beyond, width, outside) == Err::<nat, Failure>(
                    outside,
                )
        }),
{
    let data = before + field + after;
    let at = before.len() as int;
    lowest_byte_first(data, at);
    assert(forall|i: int| 0 <= i < field.len() ==> data[at + i] == field[i]);
    if field.len() == 4 || field.len() == 2 {
        assert(data[at + 0] == field[0] && data[at + 1] == field[1]);
    }
}

/// `value` in `width` bytes, the lowest first.
pub open spec fn le_bytes(value: nat, width: nat) -> Seq<u8>
    decreases width,
{
    if width == 0 {
        Seq::empty()
    } else {
        seq![(value % 256) as u8] + le_bytes(value / 256, (width - 1) as nat)
    }
}

/// The numbers below this one fit in `width` bytes.
pub open spec fn le_bound(width: nat) -> nat
    decreases width,
{
    if width == 0 {
        1
    } else {
        256 * le_bound((width - 1) as nat)
    }
}

/// A number written in `width` bytes is read back, whatever surrounds it.
pub proof fn le_round_trip(before: Seq<u8>, value: nat, width: nat, after: Seq<u8>)
    requires
        value < le_bound(width),
    ensures
        le_bytes(value, width).len() == width,
        le_at(before + le_bytes(value, width) + after, before.len() as int, width) == value,
    decreases width,
{
    if width > 0 {
        let low = seq![(value % 256) as u8];
        let high = le_bytes(value / 256, (width - 1) as nat);
        let whole = before + le_bytes(value, width) + after;
        le_round_trip(before + low, value / 256, (width - 1) as nat, after);
        assert(before + low + high + after =~= whole);
        assert(whole[before.len() as int] == low[0]);
    }
}

/// The two-byte number at `offset`.
pub fn u16_at(data: &[u8], offset: usize) -> (value: u16)
    requires
        offset + 2 <= data.len(),
    ensures
        value == le_at(data@, offset as int, 2),
{
    proof {
        reveal_with_fuel(le_at, 3);
    }
    data[offset] as u16 + data[offset + 1] as u16 * 0x100
}

/// The four-byte number at `offset`.
pub fn u32_at(data: &[u8], offset: usize) -> (value: u32)
    requires
        offset + 4 <= data.len(),
    ensures
        value == le_at(data@, offset as int, 4),
{
    proof {
        reveal_with_fuel(le_at, 5);
    }
    data[offset] as u32 + data[offset + 1] as u32 * 0x100 + data[offset + 2] as u32 * 0x1_0000
        + data[offset + 3] as u32 * 0x100_0000
}

/// The eight-byte number at `offset`.
pub fn u64_at(data: &[u8], offset: usize) -> (value: u64)
    requires
        offset + 8 <= data.len(),
    ensures
        value == le_at(data@, offset as int, 8),
{
    proof {
        reveal_with_fuel(le_at, 9);
    }
    u32_at(data, offset) as u64 + u32_at(data, offset + 4) as u64 * 0x1_0000_0000
}

/// Reads a little-endian `u16` from `data` at `offset`, or gives `err` if it is out of bounds.
pub fn read_u16_le(data: &[u8], offset: usize, err: ExtractError) -> (result: Result<
    u16,
    ExtractError,
>)
    ensures
        match result {
            Ok(value) => read_le(data@, offset as int, 2, err@) == Ok::<nat, Failure>(value as nat),
            Err(e) => read_le(data@, offset as int, 2, err@) == Err::<nat, Failure>(e@),
        },
{
    if offset > data.len() || data.len() - offset < 2 {
        Err(err)
    } else {
        Ok(u16_at(data, offset))
    }
}

/// Reads a little-endian `u32` from `data` at `offset`, or gives `err` if it is out of bounds.
pub fn read_u32_le(data: &[u8], offset: usize, err: ExtractError) -> (result: Result<
    u32,
    ExtractError,
>)
    ensures
        match result {
            Ok(value) => read_le(data@, offset as int, 4, err@) == Ok::<nat, Failure>(value as nat),
            Err(e) => read_le(data@, offset as int, 4, err@) == Err::<nat, Failure>(e@),
        },
{
    if offset > data.len() || data.len() - offset < 4 {
        Err(err)
    } else {
        Ok(u32_at(data, offset))
    }
}

/// Reads a little-endian `u64` from `data` at `offset`, or gives `err` if it is out of bounds.
pub fn read_u64_le(data: &[u8], offset: usize, err: ExtractError) -> (result: Result<
    u64,
    ExtractError,
>)
    ensures
        match result {
            Ok(value) => read_le(data@, offset as int, 8, err@) == Ok::<nat, Failure>(value as nat),
            Err(e) => read_le(data@, offset as int, 8, err@) == Err::<nat, Failure>(e@),
        },
{
    if offset > data.len() || data.len() - offset < 8 {
        Err(err)
    } else {
        Ok(u64_at(data, offset))
    }
}

/// Whether the bytes from `offset` on begin with `pattern`.
pub fn matches_at(data: &[u8], offset: usize, pattern: &[u8]) -> (same: bool)
    requires
        offset <= data.len(),
    ensures
        same == (offset + pattern@.len() <= data@.len() && data@.subrange(
            offset as int,
            offset + pattern@.len(),
        ) == pattern@),
{
    if pattern.len() > data.len() - offset {
        return false;
    }
    let mut i: usize = 0;
    while i < pattern.len()
        invariant
            i <= pattern@.len(),
            offset + pattern@.len() <= data.len(),
            data@.subrange(offset as int, offset + i) == pattern@.take(i as int),
        decreases pattern@.len() - i,
    {
        if data[offset + i] != pattern[i] {
            assert(data@.subrange(offset as int, offset + pattern@.len())[i as int]
                != pattern@[i as int]);
            return false;
        }
        i = i + 1;
        assert(data@.subrange(offset as int, offset + i) == pattern@.take(i as int)) by {
            assert(data@.subrange(offset as int, offset + i) =~= data@.subrange(
                offset as int,
                offset + i - 1,
            ).push(data@[offset + i - 1]));
            assert(pattern@.take(i as int) =~= pattern@.take(i - 1).push(pattern@[i - 1]));
        }
    }
    assert(pattern@.take(pattern@.len() as int) == pattern@);
    true
}

} // verus!
