//! Bucket layout and buffer sizing.
use vstd::arithmetic::power2::{lemma2_to64, pow2};
use vstd::bits::{low_bits_mask, lemma_u32_low_bits_mask_is_mod};
use vstd::prelude::*;

verus! {

/// Size in bytes of the header that starts every map buffer.
pub const HEADER_SIZE: usize = 24;

/// `x` is one of 1, 2, 4, ..., 32768.
pub open spec fn is_power_of_two(x: int) -> bool {
    exists|n: nat| n < 16 && #[trigger] pow2(n) == x
}

/// `r` is the smallest power of two that is at least `x`.
pub open spec fn is_next_power_of_two(x: int, r: int) -> bool {
    &&& is_power_of_two(r)
    &&& r >= x
    &&& (r == 1 || r / 2 < x)
}

/// `x` rounded up to the next multiple of `a`.
pub open spec fn align_up(x: int, a: int) -> int {
    x + (a - 1) - (x + (a - 1)) % a
}

pub open spec fn key_offset_of(key_alignment: int) -> int {
    align_up(1, key_alignment)
}

pub open spec fn value_offset_of(key_size: int, key_alignment: int, value_alignment: int) -> int {
    align_up(key_offset_of(key_alignment) + key_size, value_alignment)
}

pub open spec fn max_of(a: int, b: int) -> int {
    if a >= b { a } else { b }
}

pub open spec fn bucket_size_of(
    key_size: int,
    key_alignment: int,
    value_size: int,
    value_alignment: int,
) -> int {
    align_up(
        value_offset_of(key_size, key_alignment, value_alignment) + value_size,
        max_of(key_alignment, value_alignment),
    )
}

/// An alignment that a bucket field can be given: 1, 2, 4, ..., 128.
pub open spec fn is_alignment(a: int) -> bool {
    is_power_of_two(a) && a <= 128
}

/// Bytes needed for a map of `capacity` buckets of `bucket_size` bytes.
pub open spec fn total_size_of(capacity: int, bucket_size: int) -> int {
    HEADER_SIZE as int + capacity * bucket_size
}

/// Placement of the status byte, key and value inside one bucket.
#[derive(Clone, Copy, Debug)]
pub struct BucketLayout {
    pub bucket_size: u32,
    pub key_offset: u8,
    pub value_offset: u32,
}

/// Everything needed to initialise a map buffer.
pub struct MapInit {
    pub key_size: u32,
    pub key_alignment: u8,
    pub value_size: u32,
    pub value_alignment: u8,
    pub capacity: u16,
    pub logical_limit: u16,
    pub total_size: u32,
}

proof fn lemma_align_mask(y: u32, a: u32, n: nat)
    requires
        n < 8,
        a == pow2(n),
    ensures
        y & !((a - 1) as u32) == y - y % a,
        y % a < a,
{
    lemma2_to64();
    lemma_u32_low_bits_mask_is_mod(y, n);
    assert(low_bits_mask(n) == a - 1);
    let m = (a - 1) as u32;
    assert(y & !m == y - (y & m)) by (bit_vector);
}

/// Rounds `x` up to a multiple of the power of two `a` with a bit mask.
fn align_to(x: u32, a: u32) -> (r: u32)
    requires
        is_alignment(a as int),
        x as int + a as int <= u32::MAX,
    ensures
        r as int == align_up(x as int, a as int),
        x <= r,
        r < x + a,
{
    let ghost n = choose|n: nat| n < 16 && #[trigger] pow2(n) == a as int;
    proof {
        lemma2_to64();
        assert(n < 8) by {
            if n >= 8 {
                vstd::arithmetic::power2::lemma_pow2_strictly_increases(7, n);
            }
        }
        lemma_align_mask((x + a - 1) as u32, a, n);
    }
    (x + a - 1) & !(a - 1)
}

/// Computes where the key and the value sit in a bucket: the status byte
/// first, the key aligned to `key_alignment` after it, the value aligned to
/// `value_alignment` after the key, and the whole bucket padded to the larger
/// of the two alignments.
pub fn calculate_bucket_layout(
    key_size: u32,
    key_alignment: u8,
    value_size: u32,
    value_alignment: u8,
) -> (r: BucketLayout)
    requires
        is_alignment(key_alignment as int),
        is_alignment(value_alignment as int),
        key_size as int + value_size as int + 512 <= u32::MAX,
    ensures
        r.key_offset as int == key_offset_of(key_alignment as int),
        r.value_offset as int == value_offset_of(
            key_size as int,
            key_alignment as int,
            value_alignment as int,
        ),
        r.bucket_size as int == bucket_size_of(
            key_size as int,
            key_alignment as int,
            value_size as int,
            value_alignment as int,
        ),
        1 <= r.key_offset,
        r.key_offset as int + key_size as int <= r.value_offset as int,
        r.value_offset as int + value_size as int <= r.bucket_size as int,
        r.bucket_size as int <= key_size as int + value_size as int + 384,
{
    let status_size: u32 = 1;
    let key_align = key_alignment as u32;
    let key_offset = align_to(status_size, key_align);
    let mut current_offset = key_offset + key_size;

    let value_align = value_alignment as u32;
    let value_offset = align_to(current_offset, value_align);
    current_offset = value_offset + value_size;

    let bucket_content_alignment = if key_align >= value_align {
        key_align
    } else {
        value_align
    };
    let bucket_size = align_to(current_offset, bucket_content_alignment);

    BucketLayout { bucket_size, key_offset: key_offset as u8, value_offset }
}

/// Bytes needed for the header and `capacity` buckets.
pub fn total_size(capacity: u16, bucket_size: u32) -> (r: u32)
    requires
        total_size_of(capacity as int, bucket_size as int) <= u32::MAX,
    ensures
        r as int == total_size_of(capacity as int, bucket_size as int),
{
    let product: u64 = capacity as u64 * bucket_size as u64;
    (HEADER_SIZE as u64 + product) as u32
}

/// The smallest power of two that is at least `x`.
fn next_power_of_two(x: u16) -> (r: u16)
    requires
        x <= 32768,
    ensures
        is_next_power_of_two(x as int, r as int),
{
    let mut c: u16 = 1;
    let ghost mut n: nat = 0;
    proof {
        lemma2_to64();
    }
    while c < x
        invariant
            n < 16,
            c as int == pow2(n),
            c == 1 || c / 2 < x,
            x <= 32768,
        decreases 32768 - c,
    {
        proof {
            lemma2_to64();
            if n >= 15 {
                if n > 15 {
                    vstd::arithmetic::power2::lemma_pow2_strictly_increases(15, n);
                }
            }
            vstd::arithmetic::power2::lemma_pow2_unfold(n + 1);
        }
        c = c * 2;
        proof {
            n = n + 1;
        }
    }
    c
}

/// Computes the bucket layout, a capacity of the next power of two at or
/// above `logical_limit`, and the total buffer size.
pub fn layout(
    key_size: u32,
    key_alignment: u8,
    value_size: u32,
    value_alignment: u8,
    logical_limit: u16,
) -> (r: (BucketLayout, MapInit))
    requires
        is_alignment(key_alignment as int),
        is_alignment(value_alignment as int),
        key_size as int + value_size as int + 512 <= u32::MAX,
        1 <= logical_limit <= 32768,
        forall|c: int|
            #[trigger] is_next_power_of_two(logical_limit as int, c) ==> total_size_of(
                c,
                bucket_size_of(
                    key_size as int,
                    key_alignment as int,
                    value_size as int,
                    value_alignment as int,
                ),
            ) <= u32::MAX,
    ensures
        is_next_power_of_two(logical_limit as int, r.1.capacity as int),
        r.0.key_offset as int == key_offset_of(key_alignment as int),
        r.0.value_offset as int == value_offset_of(
            key_size as int,
            key_alignment as int,
            value_alignment as int,
        ),
        r.0.bucket_size as int == bucket_size_of(
            key_size as int,
            key_alignment as int,
            value_size as int,
            value_alignment as int,
        ),
        r.1.key_size == key_size,
        r.1.key_alignment == key_alignment,
        r.1.value_size == value_size,
        r.1.value_alignment == value_alignment,
        r.1.logical_limit == logical_limit,
        r.1.total_size as int == total_size_of(r.1.capacity as int, r.0.bucket_size as int),
{
    let capacity = next_power_of_two(logical_limit);
    let bucket_layout = calculate_bucket_layout(
        key_size,
        key_alignment,
        value_size,
        value_alignment,
    );
    proof {
        assert(is_next_power_of_two(logical_limit as int, capacity as int));
    }
    let total = total_size(capacity, bucket_layout.bucket_size);
    (
        bucket_layout,
        MapInit {
            key_size,
            key_alignment,
            value_size,
            value_alignment,
            capacity,
            logical_limit,
            total_size: total,
        },
    )
}

} // verus!
