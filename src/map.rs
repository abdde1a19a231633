//! Initialisation and the probing engine: get-or-reserve, lookup and remove
//! over a bounded linear probe.
use crate::header::{
    bucket_start, header_of, header_ok, key_at, key_location,
    lemma_bucket_in_bounds, lemma_count_below, lemma_count_bounds, lemma_count_update,
    lemma_positions_distinct, occupied_count, read_header, splice, status_at, value_at,
    value_location, with_u16, write_u16, BucketStatus, MapHeader, ELEMENT_COUNT_AT, SECRET_CODE,
    STATUS_EMPTY, STATUS_OCCUPIED, STATUS_TOMBSTONE, is_map,
};
use crate::layout::{
    bucket_size_of, calculate_bucket_layout, is_alignment, is_power_of_two, key_offset_of,
    total_size_of, value_offset_of, MapInit, HEADER_SIZE,
};
use vstd::arithmetic::power2::pow2;
use crate::header::write_header;
use vstd::bits::lemma_u64_low_bits_mask_is_mod;
use vstd::prelude::*;

verus! {

/// Most buckets that one probe visits.
pub const MAX_PROBE_DISTANCE: usize = 32;

/// Buckets visited by one probe: the capacity, at most 32.
pub open spec fn probe_limit(h: MapHeader) -> nat {
    if h.capacity < MAX_PROBE_DISTANCE {
        h.capacity as nat
    } else {
        MAX_PROBE_DISTANCE as nat
    }
}

/// First bucket of the probe for a key with hash `hash`.
pub open spec fn first_index(h: MapHeader, hash: u64) -> int {
    hash as int % h.capacity as int
}

/// The bucket after `i`, wrapping around.
pub open spec fn next_index(h: MapHeader, i: int) -> int {
    (i + 1) % h.capacity as int
}

/// Walks at most `steps` buckets from `i`: an empty bucket ends the walk, an
/// occupied bucket holding `key` is the answer.
pub open spec fn lookup_from(s: Seq<u8>, h: MapHeader, key: Seq<u8>, i: int, steps: nat) -> Option<
    int,
>
    decreases steps,
{
    if steps == 0 {
        None
    } else if status_at(s, h, i) == STATUS_EMPTY {
        None
    } else if status_at(s, h, i) == STATUS_OCCUPIED && key_at(s, h, i) == key {
        Some(i)
    } else {
        lookup_from(s, h, key, next_index(h, i), (steps - 1) as nat)
    }
}

/// The bucket that holds `key` as the probe finds it, if any.
pub open spec fn lookup_slot(s: Seq<u8>, key: Seq<u8>, hash: u64) -> Option<int> {
    let h = header_of(s);
    lookup_from(s, h, key, first_index(h, hash), probe_limit(h))
}

/// The value location that a lookup returns.
pub open spec fn lookup_result(s: Seq<u8>, key: Seq<u8>, hash: u64) -> Option<usize> {
    match lookup_slot(s, key, hash) {
        Some(i) => Some(value_location(header_of(s), i) as usize),
        None => None,
    }
}

/// Where get-or-reserve puts a key.
pub enum Reserve {
    /// The key is already held in this bucket.
    Existing(int),
    /// The key is written into this empty or tombstone bucket.
    Claim(int),
    /// The probe ended without room.
    Full,
}

/// Walks at most `steps` buckets from `i`, remembering the first tombstone.
pub open spec fn reserve_from(
    s: Seq<u8>,
    h: MapHeader,
    key: Seq<u8>,
    i: int,
    steps: nat,
    tomb: Option<int>,
) -> Reserve
    decreases steps,
{
    if steps == 0 {
        match tomb {
            Some(t) => Reserve::Claim(t),
            None => Reserve::Full,
        }
    } else if status_at(s, h, i) == STATUS_EMPTY {
        match tomb {
            Some(t) => Reserve::Claim(t),
            None => Reserve::Claim(i),
        }
    } else if status_at(s, h, i) == STATUS_OCCUPIED && key_at(s, h, i) == key {
        Reserve::Existing(i)
    } else {
        let t = if status_at(s, h, i) == STATUS_TOMBSTONE && tomb is None {
            Some(i)
        } else {
            tomb
        };
        reserve_from(s, h, key, next_index(h, i), (steps - 1) as nat, t)
    }
}

pub open spec fn reserve_slot(s: Seq<u8>, key: Seq<u8>, hash: u64) -> Reserve {
    let h = header_of(s);
    reserve_from(s, h, key, first_index(h, hash), probe_limit(h), None)
}

/// `s` with bucket `i` marked occupied, holding `key`, and the count raised.
pub open spec fn claimed(s: Seq<u8>, h: MapHeader, i: int, key: Seq<u8>) -> Seq<u8> {
    splice(
        with_u16(s, ELEMENT_COUNT_AT as int, h.element_count + 1).update(
            bucket_start(h, i),
            STATUS_OCCUPIED,
        ),
        key_location(h, i),
        key,
    )
}

/// `s` with bucket `i` turned into a tombstone and the count lowered.
pub open spec fn removed(s: Seq<u8>, h: MapHeader, i: int) -> Seq<u8> {
    with_u16(
        s.update(bucket_start(h, i), STATUS_TOMBSTONE),
        ELEMENT_COUNT_AT as int,
        h.element_count - 1,
    )
}

/// The buffer after get-or-reserve.
pub open spec fn reserved_buffer(s: Seq<u8>, key: Seq<u8>, hash: u64) -> Seq<u8> {
    match reserve_slot(s, key, hash) {
        Reserve::Claim(i) => claimed(s, header_of(s), i, key),
        _ => s,
    }
}

/// The value location that get-or-reserve returns.
pub open spec fn reserve_result(s: Seq<u8>, key: Seq<u8>, hash: u64) -> Option<usize> {
    match reserve_slot(s, key, hash) {
        Reserve::Existing(i) => Some(value_location(header_of(s), i) as usize),
        Reserve::Claim(i) => Some(value_location(header_of(s), i) as usize),
        Reserve::Full => None,
    }
}

/// The buffer after remove.
pub open spec fn removed_buffer(s: Seq<u8>, key: Seq<u8>, hash: u64) -> Seq<u8> {
    match lookup_slot(s, key, hash) {
        Some(i) => removed(s, header_of(s), i),
        None => s,
    }
}

/// The 64-bit FxHash of a byte string: `FxHasher64` starts from 0 and mixes
/// the bytes in with a fixed seed, reading 8- and 4-byte words in the native
/// byte order, so the value depends on the bytes alone for one compiled
/// target.
pub uninterp spec fn fx_hash_of(b: Seq<u8>) -> u64;

/// Relies on fxhash::FxHasher64 (`default`, one `write` of the key bytes,
/// `finish`): the result is the FxHash of the bytes.
#[verifier::external_body]
fn calculate_hash_bytes(key_bytes: &[u8]) -> (r: u64)
    ensures
        r == fx_hash_of(key_bytes@),
{
    let mut hasher = fxhash::FxHasher64::default();
    std::hash::Hasher::write(&mut hasher, key_bytes);
    std::hash::Hasher::finish(&hasher)
}

/// `hash` masked to the capacity.
fn start_index(h: &MapHeader, hash: u64) -> (r: usize)
    requires
        header_ok(*h),
    ensures
        r as int == first_index(*h, hash),
        r < h.capacity,
{
    let ghost n = choose|n: nat| n < 16 && #[trigger] pow2(n) == h.capacity as int;
    proof {
        lemma_u64_low_bits_mask_is_mod(hash, n);
        vstd::arithmetic::power2::lemma_pow2_pos(n);
    }
    (hash & (h.capacity as u64 - 1)) as usize
}

/// The next bucket index, wrapping around with the capacity mask.
fn step_index(h: &MapHeader, i: usize) -> (r: usize)
    requires
        header_ok(*h),
        i < h.capacity,
    ensures
        r as int == next_index(*h, i as int),
        r < h.capacity,
{
    let ghost n = choose|n: nat| n < 16 && #[trigger] pow2(n) == h.capacity as int;
    proof {
        lemma_u64_low_bits_mask_is_mod((i + 1) as u64, n);
        vstd::arithmetic::power2::lemma_pow2_pos(n);
    }
    ((i as u64 + 1) & (h.capacity as u64 - 1)) as usize
}

/// Offset of bucket `i` in the buffer.
fn bucket_offset(h: &MapHeader, i: usize, len: usize) -> (r: usize)
    requires
        i < h.capacity,
        total_size_of(h.capacity as int, h.bucket_size as int) <= len,
    ensures
        r as int == bucket_start(*h, i as int),
        r + h.bucket_size <= total_size_of(h.capacity as int, h.bucket_size as int),
{
    proof {
        lemma_bucket_in_bounds(*h, i as int);
    }
    HEADER_SIZE + i * h.bucket_size as usize
}

/// Byte-exact comparison of the `key.len()` bytes at `at` with `key`.
fn matches_key(buf: &[u8], at: usize, key: &[u8]) -> (r: bool)
    requires
        at + key@.len() <= buf@.len(),
    ensures
        r == (buf@.subrange(at as int, at + key@.len()) == key@),
{
    let len = key.len();
    let blen = buf.len();
    let mut i: usize = 0;
    while i < len
        invariant
            len == key@.len(),
            blen == buf@.len(),
            at + len <= buf@.len(),
            i <= len,
            forall|j: int| 0 <= j < i ==> buf@[at + j] == key@[j],
        decreases len - i,
    {
        if buf[at + i] != key[i] {
            assert(buf@.subrange(at as int, at + len)[i as int] != key@[i as int]);
            return false;
        }
        i = i + 1;
    }
    assert(buf@.subrange(at as int, at + len) =~= key@);
    true
}

/// Copies `len` bytes of `src` from `from` into `dst` at `at`.
fn copy_bytes(dst: &mut Vec<u8>, at: usize, src: &[u8], from: usize, len: usize)
    requires
        at + len <= old(dst)@.len(),
        from + len <= src@.len(),
    ensures
        final(dst)@ == splice(old(dst)@, at as int, src@.subrange(from as int, from + len)),
{
    let ghost s0 = dst@;
    let ghost piece = src@.subrange(from as int, from + len);
    let dlen = dst.len();
    let slen = src.len();
    let mut i: usize = 0;
    while i < len
        invariant
            dlen == dst@.len(),
            slen == src@.len(),
            dst@.len() == s0.len(),
            at + len <= s0.len(),
            from + len <= src@.len(),
            piece == src@.subrange(from as int, from + len),
            i <= len,
            forall|j: int|
                0 <= j < dst@.len() ==> dst@[j] == if at <= j < at + i {
                    piece[j - at]
                } else {
                    s0[j]
                },
        decreases len - i,
    {
        dst[at + i] = src[from + i];
        i = i + 1;
    }
    assert(dst@ =~= splice(s0, at as int, piece));
}

/// Writes a fresh header for `config` and marks every bucket empty.
pub fn init(buf: &mut Vec<u8>, config: &MapInit)
    requires
        is_power_of_two(config.capacity as int),
        config.logical_limit <= config.capacity,
        config.key_size > 0,
        is_alignment(config.key_alignment as int),
        is_alignment(config.value_alignment as int),
        config.key_size as int + config.value_size as int + 512 <= u32::MAX,
        total_size_of(
            config.capacity as int,
            bucket_size_of(
                config.key_size as int,
                config.key_alignment as int,
                config.value_size as int,
                config.value_alignment as int,
            ),
        ) <= old(buf)@.len(),
    ensures
        is_map(final(buf)@),
        final(buf)@.len() == old(buf)@.len(),
        header_of(final(buf)@).capacity == config.capacity,
        header_of(final(buf)@).logical_limit == config.logical_limit,
        header_of(final(buf)@).element_count == 0,
        header_of(final(buf)@).key_size == config.key_size,
        header_of(final(buf)@).value_size == config.value_size,
        header_of(final(buf)@).key_offset as int == key_offset_of(config.key_alignment as int),
        header_of(final(buf)@).value_offset as int == value_offset_of(
            config.key_size as int,
            config.key_alignment as int,
            config.value_alignment as int,
        ),
        header_of(final(buf)@).bucket_size as int == bucket_size_of(
            config.key_size as int,
            config.key_alignment as int,
            config.value_size as int,
            config.value_alignment as int,
        ),
        forall|i: int|
            0 <= i < config.capacity ==> #[trigger] status_at(
                final(buf)@,
                header_of(final(buf)@),
                i,
            ) == STATUS_EMPTY,
        forall|j: int|
            HEADER_SIZE <= j < old(buf)@.len() ==> final(buf)@[j] == old(buf)@[j] || exists|i: int|
                0 <= i < config.capacity && j == #[trigger] bucket_start(header_of(final(buf)@), i),
{
    let ghost s0 = buf@;
    let layout = calculate_bucket_layout(
        config.key_size,
        config.key_alignment,
        config.value_size,
        config.value_alignment,
    );
    let h = MapHeader {
        capacity: config.capacity,
        element_count: 0,
        key_size: config.key_size,
        value_size: config.value_size,
        value_offset: layout.value_offset,
        bucket_size: layout.bucket_size,
        logical_limit: config.logical_limit,
        key_offset: layout.key_offset,
        padding_and_secret_code: SECRET_CODE,
    };
    write_header(buf, &h);
    let capacity = config.capacity as usize;
    let len = buf.len();
    let mut i: usize = 0;
    while i < capacity
        invariant
            capacity == h.capacity,
            header_ok(h),
            len == buf@.len(),
            header_of(buf@) == h,
            total_size_of(h.capacity as int, h.bucket_size as int) <= len,
            i <= capacity,
            forall|j: int| 0 <= j < i ==> #[trigger] status_at(buf@, h, j) == STATUS_EMPTY,
            s0.len() == len,
            forall|j: int|
                HEADER_SIZE <= j < len ==> buf@[j] == s0[j] || exists|k: int|
                    0 <= k < i && j == #[trigger] bucket_start(h, k),
        decreases capacity - i,
    {
        let at = bucket_offset(&h, i, len);
        let ghost before = buf@;
        buf[at] = BucketStatus::Empty.as_byte();
        proof {
            assert forall|j: int| 0 <= j < i implies #[trigger] status_at(buf@, h, j)
                == STATUS_EMPTY by {
                lemma_positions_distinct(h.bucket_size as int, j, i as int, 0, 0);
                lemma_bucket_in_bounds(h, j);
                assert(status_at(before, h, j) == STATUS_EMPTY);
            }
            assert(header_of(buf@) == header_of(before));
            assert forall|j: int| HEADER_SIZE <= j < len implies buf@[j] == s0[j] || exists|k: int|
                0 <= k < i + 1 && j == #[trigger] bucket_start(h, k) by {
                if j == at {
                    assert(j == bucket_start(h, i as int));
                } else if before[j] != s0[j] {
                    let k = choose|k: int| 0 <= k < i && j == #[trigger] bucket_start(h, k);
                    assert(0 <= k < i + 1 && j == bucket_start(h, k));
                }
            }
        }
        i = i + 1;
    }
    proof {
        assert forall|j: int| 0 <= j <= capacity implies occupied_count(buf@, h, j) == 0 by {
            lemma_zero_count(buf@, h, j);
        }
    }
}

proof fn lemma_zero_count(s: Seq<u8>, h: MapHeader, n: int)
    requires
        forall|j: int| 0 <= j < n ==> #[trigger] status_at(s, h, j) == STATUS_EMPTY,
    ensures
        occupied_count(s, h, n) == 0,
    decreases n,
{
    if n > 0 {
        lemma_zero_count(s, h, n - 1);
    }
}

/// Value location of the bucket that holds `key`, found by probing from the
/// bucket that `hash` selects.
pub fn lookup_hashed(buf: &[u8], key: &[u8], hash: u64) -> (r: Option<usize>)
    requires
        is_map(buf@),
        key@.len() == header_of(buf@).key_size,
    ensures
        r == lookup_result(buf@, key@, hash),
{
    match find_slot(buf, key, hash) {
        Some(i) => {
            let h = read_header(buf);
            let at = bucket_offset(&h, i, buf.len());
            Some(at + h.value_offset as usize)
        },
        None => None,
    }
}

/// Index of the bucket that holds `key`, as the probe finds it.
fn find_slot(buf: &[u8], key: &[u8], hash: u64) -> (r: Option<usize>)
    requires
        is_map(buf@),
        key@.len() == header_of(buf@).key_size,
    ensures
        match lookup_slot(buf@, key@, hash) {
            Some(i) => r == Some(i as usize) && 0 <= i < header_of(buf@).capacity && status_at(
                buf@,
                header_of(buf@),
                i,
            ) == STATUS_OCCUPIED && key_at(buf@, header_of(buf@), i) == key@,
            None => r is None,
        },
{
    let h = read_header(buf);
    let len = buf.len();
    let capacity = h.capacity as usize;
    let limit: usize = if capacity < MAX_PROBE_DISTANCE {
        capacity
    } else {
        MAX_PROBE_DISTANCE
    };
    let mut index = start_index(&h, hash);
    let mut k: usize = 0;
    while k < limit
        invariant
            is_map(buf@),
            h == header_of(buf@),
            len == buf@.len(),
            key@.len() == h.key_size,
            limit == probe_limit(h),
            index < h.capacity,
            k <= limit,
            lookup_from(buf@, h, key@, index as int, (limit - k) as nat) == lookup_slot(
                buf@,
                key@,
                hash,
            ),
        decreases limit - k,
    {
        let at = bucket_offset(&h, index, len);
        let status = buf[at];
        if status == BucketStatus::Empty.as_byte() {
            return None;
        }
        if status == BucketStatus::Occupied.as_byte() && matches_key(
            buf,
            at + h.key_offset as usize,
            key,
        ) {
            return Some(index);
        }
        index = step_index(&h, index);
        k = k + 1;
    }
    None
}

/// Whether `key` is found by probing from the bucket that `hash` selects.
pub fn has_hashed(buf: &[u8], key: &[u8], hash: u64) -> (r: bool)
    requires
        is_map(buf@),
        key@.len() == header_of(buf@).key_size,
    ensures
        r == lookup_slot(buf@, key@, hash) is Some,
{
    find_slot(buf, key, hash).is_some()
}

/// Turns the bucket that holds `key` into a tombstone and lowers the count;
/// `false` if the probe from the bucket that `hash` selects does not find it.
pub fn remove_hashed(buf: &mut Vec<u8>, key: &[u8], hash: u64) -> (r: bool)
    requires
        is_map(old(buf)@),
        key@.len() == header_of(old(buf)@).key_size,
    ensures
        r == lookup_slot(old(buf)@, key@, hash) is Some,
        final(buf)@ == removed_buffer(old(buf)@, key@, hash),
        is_map(final(buf)@),
{
    match find_slot(buf.as_slice(), key, hash) {
        Some(i) => {
            let h = read_header(buf.as_slice());
            let at = bucket_offset(&h, i, buf.len());
            let ghost s0 = buf@;
            buf[at] = BucketStatus::Tombstone.as_byte();
            let ghost s1 = buf@;
            proof {
                assert(status_at(s0, h, i as int) == STATUS_OCCUPIED);
                assert(s1[bucket_start(h, i as int)] == STATUS_TOMBSTONE);
                lemma_status_change(s0, s1, h, i as int);
                assert(h.element_count == occupied_count(s0, h, h.capacity as int));
            }
            write_u16(buf, ELEMENT_COUNT_AT, h.element_count - 1);
            proof {
                lemma_count_written(s1, buf@, h, (h.element_count - 1) as u16);
            }
            true
        },
        None => false,
    }
}

/// Changing the status byte of bucket `p` changes the count by whether it
/// is occupied, and leaves every other bucket as it was.
pub proof fn lemma_status_change(s: Seq<u8>, t: Seq<u8>, h: MapHeader, p: int)
    requires
        is_map(s),
        h == header_of(s),
        0 <= p < h.capacity,
        t.len() == s.len(),
        forall|j: int| 0 <= j < s.len() && j != bucket_start(h, p) ==> t[j] == s[j],
        t[bucket_start(h, p)] <= STATUS_OCCUPIED,
    ensures
        header_of(t) == h,
        0 <= occupied_count(t, h, h.capacity as int) <= h.capacity,
        forall|i: int| 0 <= i < h.capacity ==> #[trigger] status_at(t, h, i) <= STATUS_OCCUPIED,
        forall|i: int|
            0 <= i < h.capacity && i != p ==> #[trigger] status_at(t, h, i) == status_at(s, h, i),
        occupied_count(t, h, h.capacity as int) == occupied_count(s, h, h.capacity as int) + (if t[bucket_start(h, p)] == STATUS_OCCUPIED {
            1int
        } else {
            0
        }) - (if s[bucket_start(h, p)] == STATUS_OCCUPIED {
            1int
        } else {
            0
        }),
{
    lemma_bucket_in_bounds(h, p);
    assert(header_of(t) =~= h);
    assert forall|i: int| 0 <= i < h.capacity && i != p implies #[trigger] status_at(t, h, i)
        == status_at(s, h, i) by {
        lemma_bucket_in_bounds(h, i);
        lemma_positions_distinct(h.bucket_size as int, i, p, 0, 0);
    }
    assert forall|i: int| 0 <= i < h.capacity implies #[trigger] status_at(t, h, i)
        <= STATUS_OCCUPIED by {
        if i != p {
            assert(status_at(s, h, i) <= STATUS_OCCUPIED);
        }
    }
    lemma_count_update(s, t, h, h, h.capacity as int, p);
    lemma_count_bounds(t, h, h.capacity as int);
}

/// Writing a count that equals the number of occupied buckets restores a
/// map buffer.
pub proof fn lemma_count_written(s: Seq<u8>, t: Seq<u8>, h: MapHeader, c: u16)
    requires
        s.len() >= HEADER_SIZE,
        header_of(s) == h,
        header_ok(h),
        total_size_of(h.capacity as int, h.bucket_size as int) <= s.len(),
        forall|i: int| 0 <= i < h.capacity ==> #[trigger] status_at(s, h, i) <= STATUS_OCCUPIED,
        c as int == occupied_count(s, h, h.capacity as int),
        t == with_u16(s, ELEMENT_COUNT_AT as int, c as int),
        crate::header::u16_at(t, ELEMENT_COUNT_AT as int) == c,
    ensures
        is_map(t),
        header_of(t) == (MapHeader { element_count: c, ..h }),
{
    let g = MapHeader { element_count: c, ..h };
    assert(header_of(t) =~= g);
    assert forall|i: int| 0 <= i < h.capacity implies #[trigger] status_at(t, g, i) == status_at(
        s,
        h,
        i,
    ) by {
        lemma_bucket_in_bounds(h, i);
    }
    lemma_count_update(s, t, h, g, h.capacity as int, -1);
}

pub open spec fn opt_int(o: Option<usize>) -> Option<int> {
    match o {
        Some(t) => Some(t as int),
        None => None,
    }
}

/// Marks bucket `i` occupied, copies `key` into it and raises the count.
fn claim_slot(buf: &mut Vec<u8>, h: &MapHeader, i: usize, key: &[u8]) -> (r: usize)
    requires
        is_map(old(buf)@),
        *h == header_of(old(buf)@),
        i < h.capacity,
        status_at(old(buf)@, *h, i as int) != STATUS_OCCUPIED,
        key@.len() == h.key_size,
    ensures
        final(buf)@ == claimed(old(buf)@, *h, i as int, key@),
        is_map(final(buf)@),
        r as int == value_location(*h, i as int),
{
    let ghost s0 = buf@;
    let ghost cap = h.capacity as int;
    let ghost bs = h.bucket_size as int;
    proof {
        lemma_count_below(s0, *h, cap, i as int);
        lemma_bucket_in_bounds(*h, i as int);
    }
    let at = bucket_offset(h, i, buf.len());
    write_u16(buf, ELEMENT_COUNT_AT, h.element_count + 1);
    buf[at] = BucketStatus::Occupied.as_byte();
    copy_bytes(buf, at + h.key_offset as usize, key, 0, key.len());
    proof {
        let t = buf@;
        let g = MapHeader { element_count: (h.element_count + 1) as u16, ..*h };
        assert(key@.subrange(0, key@.len() as int) =~= key@);
        assert(t == claimed(s0, *h, i as int, key@));
        assert(header_of(t) =~= g);
        assert forall|j: int| 0 <= j < cap && j != i implies #[trigger] status_at(t, g, j)
            == status_at(s0, *h, j) by {
            lemma_bucket_in_bounds(*h, j);
            lemma_positions_distinct(bs, j, i as int, 0, 0);
            let x = bucket_start(*h, j);
            let lo = key_location(*h, i as int);
            if lo <= x < lo + h.key_size {
                lemma_positions_distinct(bs, j, i as int, 0, h.key_offset + (x - lo));
            }
        }
        assert(status_at(t, g, i as int) == STATUS_OCCUPIED);
        assert forall|j: int| 0 <= j < cap implies #[trigger] status_at(t, g, j)
            <= STATUS_OCCUPIED by {
            if j != i {
                assert(status_at(s0, *h, j) <= STATUS_OCCUPIED);
            }
        }
        lemma_count_update(s0, t, *h, g, cap, i as int);
    }
    at + h.value_offset as usize
}

/// Value location for `key`: the bucket that already holds it, or a bucket
/// claimed for it (the first tombstone of the probe, else the empty bucket
/// that ends it); `None` when the probe from the bucket that `hash` selects
/// finds neither.
pub fn get_or_reserve_hashed(buf: &mut Vec<u8>, key: &[u8], hash: u64) -> (r: Option<usize>)
    requires
        is_map(old(buf)@),
        key@.len() == header_of(old(buf)@).key_size,
    ensures
        r == reserve_result(old(buf)@, key@, hash),
        final(buf)@ == reserved_buffer(old(buf)@, key@, hash),
        is_map(final(buf)@),
{
    let h = read_header(buf.as_slice());
    let len = buf.len();
    let capacity = h.capacity as usize;
    let limit: usize = if capacity < MAX_PROBE_DISTANCE {
        capacity
    } else {
        MAX_PROBE_DISTANCE
    };
    let mut index = start_index(&h, hash);
    let mut first_tombstone: Option<usize> = None;
    let mut k: usize = 0;
    while k < limit
        invariant
            buf@ == old(buf)@,
            is_map(buf@),
            h == header_of(buf@),
            len == buf@.len(),
            key@.len() == h.key_size,
            limit == probe_limit(h),
            index < h.capacity,
            k <= limit,
            match first_tombstone {
                Some(t) => t < h.capacity && status_at(buf@, h, t as int) == STATUS_TOMBSTONE,
                None => true,
            },
            reserve_from(buf@, h, key@, index as int, (limit - k) as nat, opt_int(first_tombstone))
                == reserve_slot(buf@, key@, hash),
        decreases limit - k,
    {
        let at = bucket_offset(&h, index, len);
        let status = buf[at];
        if status == BucketStatus::Empty.as_byte() {
            let target = match first_tombstone {
                Some(t) => t,
                None => index,
            };
            return Some(claim_slot(buf, &h, target, key));
        }
        if status == BucketStatus::Occupied.as_byte() && matches_key(
            buf.as_slice(),
            at + h.key_offset as usize,
            key,
        ) {
            return Some(at + h.value_offset as usize);
        }
        if status == BucketStatus::Tombstone.as_byte() && first_tombstone.is_none() {
            first_tombstone = Some(index);
        }
        index = step_index(&h, index);
        k = k + 1;
    }
    match first_tombstone {
        Some(t) => Some(claim_slot(buf, &h, t, key)),
        None => None,
    }
}

/// Value location for `key`, reserving a bucket when the key is new; `None`
/// when the map is full or the probe bound is reached.
pub fn get_or_reserve_entry(buf: &mut Vec<u8>, key: &[u8]) -> (r: Option<usize>)
    requires
        is_map(old(buf)@),
        key@.len() == header_of(old(buf)@).key_size,
    ensures
        is_map(final(buf)@),
        r == reserve_result(old(buf)@, key@, fx_hash_of(key@)),
        final(buf)@ == reserved_buffer(old(buf)@, key@, fx_hash_of(key@)),
{
    let hash = calculate_hash_bytes(key);
    get_or_reserve_hashed(buf, key, hash)
}

/// Whether `key` is in the map.
pub fn has(buf: &[u8], key: &[u8]) -> (r: bool)
    requires
        is_map(buf@),
        key@.len() == header_of(buf@).key_size,
    ensures
        r == lookup_slot(buf@, key@, fx_hash_of(key@)) is Some,
{
    let hash = calculate_hash_bytes(key);
    has_hashed(buf, key, hash)
}

/// Value location of `key`, or `None` when it is not found.
pub fn lookup(buf: &[u8], key: &[u8]) -> (r: Option<usize>)
    requires
        is_map(buf@),
        key@.len() == header_of(buf@).key_size,
    ensures
        r == lookup_result(buf@, key@, fx_hash_of(key@)),
{
    let hash = calculate_hash_bytes(key);
    lookup_hashed(buf, key, hash)
}

/// Removes `key`, leaving a tombstone; `false` when it is not found.
pub fn remove(buf: &mut Vec<u8>, key: &[u8]) -> (r: bool)
    requires
        is_map(old(buf)@),
        key@.len() == header_of(old(buf)@).key_size,
    ensures
        is_map(final(buf)@),
        r == lookup_slot(old(buf)@, key@, fx_hash_of(key@)) is Some,
        final(buf)@ == removed_buffer(old(buf)@, key@, fx_hash_of(key@)),
{
    let hash = calculate_hash_bytes(key);
    remove_hashed(buf, key, hash)
}

/// The first occupied bucket at index `i` or later.
pub open spec fn next_occupied(s: Seq<u8>, h: MapHeader, i: int) -> Option<int>
    decreases h.capacity - i,
{
    if i < 0 || i >= h.capacity {
        None
    } else if status_at(s, h, i) == STATUS_OCCUPIED {
        Some(i)
    } else {
        next_occupied(s, h, i + 1)
    }
}

/// Index returned when no occupied bucket is left.
pub const END_OF_ENTRIES: u16 = 0xFFFF;

/// Key location, value location and index of the first occupied bucket at
/// `start_index` or later; `(None, None, 0xFFFF)` when there is none.
pub fn find_next_valid_entry(buf: &[u8], start_index: u16) -> (r: (Option<usize>, Option<usize>, u16))
    requires
        is_map(buf@),
    ensures
        ({
            let h = header_of(buf@);
            match next_occupied(buf@, h, start_index as int) {
                Some(i) => r == (
                    Some(key_location(h, i) as usize),
                    Some(value_location(h, i) as usize),
                    i as u16,
                ),
                None => r == (None::<usize>, None::<usize>, END_OF_ENTRIES),
            }
        }),
{
    let h = read_header(buf);
    let len = buf.len();
    let capacity = h.capacity as usize;
    let mut index = start_index as usize;
    while index < capacity
        invariant
            is_map(buf@),
            h == header_of(buf@),
            len == buf@.len(),
            capacity == h.capacity,
            start_index <= index,
            next_occupied(buf@, h, start_index as int) == next_occupied(buf@, h, index as int),
        decreases capacity - index,
    {
        let at = bucket_offset(&h, index, len);
        if buf[at] == BucketStatus::Occupied.as_byte() {
            proof {
                lemma2_to64_cap(h);
            }
            return (
                Some(at + h.key_offset as usize),
                Some(at + h.value_offset as usize),
                index as u16,
            );
        }
        index = index + 1;
    }
    (None, None, END_OF_ENTRIES)
}

/// A capacity is at most 32768.
proof fn lemma2_to64_cap(h: MapHeader)
    requires
        header_ok(h),
    ensures
        h.capacity <= 32768,
{
    let n = choose|n: nat| n < 16 && #[trigger] pow2(n) == h.capacity as int;
    vstd::arithmetic::power2::lemma2_to64();
    if n < 15 {
        vstd::arithmetic::power2::lemma_pow2_strictly_increases(n, 15);
    }
}

/// The buckets that get-or-reserve picks lie in the bucket array.
pub proof fn lemma_reserve_in_range(
    s: Seq<u8>,
    h: MapHeader,
    key: Seq<u8>,
    i: int,
    steps: nat,
    tomb: Option<int>,
)
    requires
        header_ok(h),
        0 <= i < h.capacity,
        tomb matches Some(t) ==> 0 <= t < h.capacity && status_at(s, h, t) != STATUS_OCCUPIED,
    ensures
        reserve_from(s, h, key, i, steps, tomb) matches Reserve::Claim(j) ==> status_at(s, h, j)
            != STATUS_OCCUPIED,
        reserve_from(s, h, key, i, steps, tomb) matches Reserve::Existing(j) ==> 0 <= j
            < h.capacity,
        reserve_from(s, h, key, i, steps, tomb) matches Reserve::Claim(j) ==> 0 <= j < h.capacity,
    decreases steps,
{
    if steps > 0 {
        let t = if status_at(s, h, i) == STATUS_TOMBSTONE && tomb is None {
            Some(i)
        } else {
            tomb
        };
        lemma_reserve_in_range(s, h, key, next_index(h, i), (steps - 1) as nat, t);
    }
}

/// Writing the value bytes of one bucket keeps a map buffer, its header and
/// the status and key of every bucket.
pub proof fn lemma_value_write(s: Seq<u8>, h: MapHeader, j: int, v: Seq<u8>)
    requires
        is_map(s),
        h == header_of(s),
        0 <= j < h.capacity,
        v.len() == h.value_size,
    ensures
        is_map(splice(s, value_location(h, j), v)),
        header_of(splice(s, value_location(h, j), v)) == h,
        forall|i: int|
            0 <= i < h.capacity ==> #[trigger] status_at(splice(s, value_location(h, j), v), h, i)
                == status_at(s, h, i),
        forall|i: int|
            0 <= i < h.capacity ==> #[trigger] key_at(splice(s, value_location(h, j), v), h, i)
                == key_at(s, h, i),
        value_at(splice(s, value_location(h, j), v), h, j) == v,
        forall|i: int|
            0 <= i < h.capacity && i != j ==> #[trigger] value_at(
                splice(s, value_location(h, j), v),
                h,
                i,
            ) == value_at(s, h, i),
{
    let t = splice(s, value_location(h, j), v);
    let bs = h.bucket_size as int;
    lemma_bucket_in_bounds(h, j);
    assert(header_of(t) =~= h);
    let lo = value_location(h, j);
    assert forall|i: int| 0 <= i < h.capacity implies #[trigger] status_at(t, h, i) == status_at(
        s,
        h,
        i,
    ) by {
        lemma_bucket_in_bounds(h, i);
        let x = bucket_start(h, i);
        if lo <= x < lo + h.value_size {
            lemma_positions_distinct(bs, i, j, 0, h.value_offset + (x - lo));
        }
    }
    assert forall|i: int| 0 <= i < h.capacity implies #[trigger] key_at(t, h, i) == key_at(s, h, i) by {
        lemma_bucket_in_bounds(h, i);
        assert forall|m: int| 0 <= m < h.key_size implies key_at(t, h, i)[m] == key_at(s, h, i)[m] by {
            let y = key_location(h, i) + m;
            if lo <= y < lo + h.value_size {
                lemma_positions_distinct(bs, i, j, h.key_offset + m, h.value_offset + (y - lo));
            }
        }
        assert(key_at(t, h, i) =~= key_at(s, h, i));
    }
    assert(value_at(t, h, j) =~= v);
    assert forall|i: int| 0 <= i < h.capacity && i != j implies #[trigger] value_at(t, h, i)
        == value_at(s, h, i) by {
        lemma_bucket_in_bounds(h, i);
        assert forall|m: int| 0 <= m < h.value_size implies value_at(t, h, i)[m] == value_at(s, h, i)[m] by {
            let y = value_location(h, i) + m;
            if lo <= y < lo + h.value_size {
                lemma_positions_distinct(bs, i, j, h.value_offset + m, h.value_offset + (y - lo));
            }
        }
        assert(value_at(t, h, i) =~= value_at(s, h, i));
    }
    lemma_count_update(s, t, h, h, h.capacity as int, -1);
}

/// Copies the occupied source buckets from index `i` on into `t`, with
/// `hashes[k]` as the hash of the key of source bucket `k`; stops with
/// `false` at the first key for which the target has no room.
pub open spec fn merge_from(t: Seq<u8>, src: Seq<u8>, hashes: Seq<u64>, i: int) -> (bool, Seq<u8>)
    decreases header_of(src).capacity - i,
{
    let hs = header_of(src);
    if i < 0 || i >= hs.capacity {
        (true, t)
    } else if status_at(src, hs, i) != STATUS_OCCUPIED {
        merge_from(t, src, hashes, i + 1)
    } else {
        let key = key_at(src, hs, i);
        match reserve_result(t, key, hashes[i]) {
            None => (false, t),
            Some(loc) => merge_from(
                splice(reserved_buffer(t, key, hashes[i]), loc as int, value_at(src, hs, i)),
                src,
                hashes,
                i + 1,
            ),
        }
    }
}

/// Copies every occupied entry of `source` into `target`. Fails at once,
/// leaving `target` alone, when the target's logical limit is below the
/// source's element count; fails part way, keeping what was copied, when a
/// key finds no room.
#[verifier::rlimit(100)]
pub fn overwrite(target: &mut Vec<u8>, source: &[u8]) -> (r: bool)
    requires
        is_map(old(target)@),
        is_map(source@),
        header_of(old(target)@).key_size == header_of(source@).key_size,
        header_of(old(target)@).value_size == header_of(source@).value_size,
    ensures
        is_map(final(target)@),
        header_of(old(target)@).logical_limit < header_of(source@).element_count ==> !r
            && final(target)@ == old(target)@,
        header_of(old(target)@).logical_limit >= header_of(source@).element_count ==> (r, final(
            target)@) == merge_from(old(target)@, source@, source_hashes(source@), 0),
{
    let th = read_header(target.as_slice());
    let sh = read_header(source);
    if th.logical_limit < sh.element_count {
        return false;
    }
    let slen = source.len();
    let capacity = sh.capacity as usize;
    let ks = sh.key_size as usize;
    let ghost done: Seq<u64> = Seq::empty();
    let mut i: usize = 0;
    while i < capacity
        invariant
            is_map(target@),
            is_map(source@),
            sh == header_of(source@),
            slen == source@.len(),
            capacity == sh.capacity,
            ks == sh.key_size,
            header_of(target@).key_size == sh.key_size,
            header_of(target@).value_size == sh.value_size,
            header_of(old(target)@).logical_limit >= sh.element_count,
            i <= capacity,
            done.len() == i,
            done == source_hashes(source@).subrange(0, i as int),
            forall|fut: Seq<u64>|
                fut.len() == capacity - i ==> #[trigger] merge_from(
                    old(target)@,
                    source@,
                    done + fut,
                    0,
                ) == merge_from(target@, source@, done + fut, i as int),
        decreases capacity - i,
    {
        let at = bucket_offset(&sh, i, slen);
        let ghost t0 = target@;
        if source[at] == BucketStatus::Occupied.as_byte() {
            let key_at_offset = at + sh.key_offset as usize;
            let key = vstd::slice::slice_subrange(source, key_at_offset, key_at_offset + ks);
            let hash = calculate_hash_bytes(key);
            proof {
                lemma_bucket_in_bounds(sh, i as int);
                assert(key@ == key_at(source@, sh, i as int));
            }
            let got = get_or_reserve_hashed(target, key, hash);
            match got {
                None => {
                    proof {
                        lemma_merge_stops(old(target)@, source@, done, t0, i as int);
                    }
                    return false;
                },
                Some(loc) => {
                    let ghost t1 = target@;
                    let target_len = target.len();
                    proof {
                        lemma_reserved_location(t0, key@, hash);
                        let g = header_of(t1);
                        lemma_value_write(
                            t1,
                            g,
                            reserve_index(t0, key@, hash),
                            source@.subrange(
                                at + sh.value_offset,
                                at + sh.value_offset + sh.value_size,
                            ),
                        );
                        lemma_bucket_in_bounds(g, reserve_index(t0, key@, hash));
                    }
                    copy_bytes(
                        target,
                        loc,
                        source,
                        at + sh.value_offset as usize,
                        sh.value_size as usize,
                    );
                    proof {
                        let g = header_of(t1);
                        let j = reserve_index(t0, key@, hash);
                        let v = source@.subrange(
                            at + sh.value_offset,
                            at + sh.value_offset + sh.value_size,
                        );
                        assert(value_location(g, j) <= target_len);
                        assert(t1 == reserved_buffer(t0, key@, hash));
                        assert(got == reserve_result(t0, key@, hash));
                        assert(loc as int == value_location(g, j));
                        assert(target@ == splice(t1, value_location(g, j), v));
                        lemma_merge_copies(old(target)@, source@, done, t0, i as int, hash);
                        done = done.push(hash);
                        assert(done =~= source_hashes(source@).subrange(0, i + 1));
                    }
                },
            }
        } else {
            proof {
                let x = fx_hash_of(key_at(source@, sh, i as int));
                lemma_merge_skips(old(target)@, source@, done, t0, i as int, x);
                done = done.push(x);
                assert(done =~= source_hashes(source@).subrange(0, i + 1));
            }
        }
        i = i + 1;
    }
    proof {
        assert(done + Seq::<u64>::empty() =~= done);
        assert(done =~= source_hashes(source@));
        assert(merge_from(old(target)@, source@, done + Seq::<u64>::empty(), 0) == merge_from(
            target@,
            source@,
            done + Seq::<u64>::empty(),
            i as int,
        ));
    }
    true
}

/// The bucket whose value location get-or-reserve returns.
pub open spec fn reserve_index(s: Seq<u8>, key: Seq<u8>, hash: u64) -> int {
    match reserve_slot(s, key, hash) {
        Reserve::Existing(j) => j,
        Reserve::Claim(j) => j,
        Reserve::Full => 0,
    }
}

/// Where get-or-reserve answers with a location, it is the value location
/// of a bucket of the buffer it leaves, whose geometry is unchanged.
pub proof fn lemma_reserved_location(t: Seq<u8>, key: Seq<u8>, hash: u64)
    requires
        is_map(t),
        key.len() == header_of(t).key_size,
    ensures
        reserve_result(t, key, hash) is Some ==> {
            let h = header_of(t);
            let g = header_of(reserved_buffer(t, key, hash));
            let j = reserve_index(t, key, hash);
            &&& 0 <= j < g.capacity
            &&& g.capacity == h.capacity
            &&& g.bucket_size == h.bucket_size
            &&& g.value_offset == h.value_offset
            &&& g.value_size == h.value_size
            &&& g.key_size == h.key_size
            &&& reserve_result(t, key, hash) == Some(value_location(g, j) as usize)
        },
{
    let h = header_of(t);
    lemma_cap_pos(h);
    lemma_reserve_in_range(t, h, key, first_index(h, hash), probe_limit(h), None);
    if reserve_slot(t, key, hash) is Claim {
        lemma_claimed_header(t, h, reserve_index(t, key, hash), key);
    }
}

/// A claimed buffer keeps the geometry of the header.
pub proof fn lemma_claimed_header(s: Seq<u8>, h: MapHeader, j: int, key: Seq<u8>)
    requires
        is_map(s),
        h == header_of(s),
        0 <= j < h.capacity,
        key.len() == h.key_size,
    ensures
        header_of(claimed(s, h, j, key)) == (MapHeader {
            element_count: header_of(claimed(s, h, j, key)).element_count,
            ..h
        }),
{
    lemma_bucket_in_bounds(h, j);
    let t = claimed(s, h, j, key);
    assert(header_of(t) =~= (MapHeader { element_count: header_of(t).element_count, ..h }));
}

proof fn lemma_merge_skips(t: Seq<u8>, src: Seq<u8>, done: Seq<u64>, t0: Seq<u8>, i: int, x: u64)
    requires
        0 <= i < header_of(src).capacity,
        done.len() == i,
        status_at(src, header_of(src), i) != STATUS_OCCUPIED,
        forall|fut: Seq<u64>|
            fut.len() == header_of(src).capacity - i ==> #[trigger] merge_from(t, src, done + fut, 0)
                == merge_from(t0, src, done + fut, i),
    ensures
        forall|fut: Seq<u64>|
            fut.len() == header_of(src).capacity - (i + 1) ==> #[trigger] merge_from(
                t,
                src,
                done.push(x) + fut,
                0,
            ) == merge_from(t0, src, done.push(x) + fut, i + 1),
{
    assert forall|fut: Seq<u64>| fut.len() == header_of(src).capacity - (i + 1) implies #[trigger] merge_from(
        t,
        src,
        done.push(x) + fut,
        0,
    ) == merge_from(t0, src, done.push(x) + fut, i + 1) by {
        let f2 = seq![x] + fut;
        assert(done.push(x) + fut =~= done + f2);
        assert(merge_from(t, src, done + f2, 0) == merge_from(t0, src, done + f2, i));
    }
}

proof fn lemma_merge_copies(t: Seq<u8>, src: Seq<u8>, done: Seq<u64>, t0: Seq<u8>, i: int, hash: u64)
    requires
        0 <= i < header_of(src).capacity,
        done.len() == i,
        status_at(src, header_of(src), i) == STATUS_OCCUPIED,
        forall|fut: Seq<u64>|
            fut.len() == header_of(src).capacity - i ==> #[trigger] merge_from(t, src, done + fut, 0)
                == merge_from(t0, src, done + fut, i),
    ensures
        reserve_result(t0, key_at(src, header_of(src), i), hash) matches Some(loc) ==> forall|fut: Seq<u64>|
            fut.len() == header_of(src).capacity - (i + 1) ==> #[trigger] merge_from(
                t,
                src,
                done.push(hash) + fut,
                0,
            ) == merge_from(
                splice(
                    reserved_buffer(t0, key_at(src, header_of(src), i), hash),
                    loc as int,
                    value_at(src, header_of(src), i),
                ),
                src,
                done.push(hash) + fut,
                i + 1,
            ),
{
    if let Some(loc) = reserve_result(t0, key_at(src, header_of(src), i), hash) {
        assert forall|fut: Seq<u64>| fut.len() == header_of(src).capacity - (i + 1) implies #[trigger] merge_from(
            t,
            src,
            done.push(hash) + fut,
            0,
        ) == merge_from(
            splice(
                reserved_buffer(t0, key_at(src, header_of(src), i), hash),
                loc as int,
                value_at(src, header_of(src), i),
            ),
            src,
            done.push(hash) + fut,
            i + 1,
        ) by {
            let f2 = seq![hash] + fut;
            assert(done.push(hash) + fut =~= done + f2);
            assert((done + f2)[i] == hash);
            assert(merge_from(t, src, done + f2, 0) == merge_from(t0, src, done + f2, i));
        }
    }
}

proof fn lemma_merge_stops(t: Seq<u8>, src: Seq<u8>, done: Seq<u64>, t0: Seq<u8>, i: int)
    requires
        0 <= i < header_of(src).capacity,
        done == source_hashes(src).subrange(0, i),
        status_at(src, header_of(src), i) == STATUS_OCCUPIED,
        reserve_result(t0, key_at(src, header_of(src), i), source_hashes(src)[i]) is None,
        forall|fut: Seq<u64>|
            fut.len() == header_of(src).capacity - i ==> #[trigger] merge_from(t, src, done + fut, 0)
                == merge_from(t0, src, done + fut, i),
    ensures
        merge_from(t, src, source_hashes(src), 0) == (false, t0),
{
    let hs = source_hashes(src);
    let fut = hs.subrange(i, hs.len() as int);
    assert(done + fut =~= hs);
    assert(merge_from(t, src, done + fut, 0) == merge_from(t0, src, done + fut, i));
}

/// The FxHash of the key of each source bucket, by bucket index.
pub open spec fn source_hashes(src: Seq<u8>) -> Seq<u64> {
    let hs = header_of(src);
    Seq::new(hs.capacity as nat, |i: int| fx_hash_of(key_at(src, hs, i)))
}

/// Get-or-reserve leaves a map buffer.
pub proof fn lemma_reserve_keeps_map(s: Seq<u8>, key: Seq<u8>, hash: u64)
    requires
        is_map(s),
        key.len() == header_of(s).key_size,
    ensures
        is_map(reserved_buffer(s, key, hash)),
{
    let h = header_of(s);
    lemma_cap_pos(h);
    lemma_reserve_in_range(s, h, key, first_index(h, hash), probe_limit(h), None);
    if let Reserve::Claim(j) = reserve_slot(s, key, hash) {
        lemma_claim_keeps_map(s, h, j, key);
    }
}

/// A claim of a bucket that is not occupied leaves a map buffer.
pub proof fn lemma_claim_keeps_map(s: Seq<u8>, h: MapHeader, j: int, key: Seq<u8>)
    requires
        is_map(s),
        h == header_of(s),
        0 <= j < h.capacity,
        key.len() == h.key_size,
    ensures
        status_at(s, h, j) != STATUS_OCCUPIED ==> is_map(claimed(s, h, j, key)) && header_of(
            claimed(s, h, j, key),
        ) == (MapHeader { element_count: (h.element_count + 1) as u16, ..h }),
{
    if status_at(s, h, j) != STATUS_OCCUPIED {
        let cap = h.capacity as int;
        let bs = h.bucket_size as int;
        lemma_count_below(s, h, cap, j);
        lemma_bucket_in_bounds(h, j);
        let t = claimed(s, h, j, key);
        let g = MapHeader { element_count: (h.element_count + 1) as u16, ..h };
        assert(header_of(t) =~= g);
        assert forall|i: int| 0 <= i < cap && i != j implies #[trigger] status_at(t, g, i)
            == status_at(s, h, i) by {
            lemma_bucket_in_bounds(h, i);
            lemma_positions_distinct(bs, i, j, 0, 0);
            let x = bucket_start(h, i);
            let lo = key_location(h, j);
            if lo <= x < lo + h.key_size {
                lemma_positions_distinct(bs, i, j, 0, h.key_offset + (x - lo));
            }
        }
        assert(status_at(t, g, j) == STATUS_OCCUPIED);
        assert forall|i: int| 0 <= i < cap implies #[trigger] status_at(t, g, i)
            <= STATUS_OCCUPIED by {
            if i != j {
                assert(status_at(s, h, i) <= STATUS_OCCUPIED);
            }
        }
        lemma_count_update(s, t, h, g, cap, j);
    }
}

/// A capacity is at least 1.
pub proof fn lemma_cap_pos(h: MapHeader)
    requires
        header_ok(h),
    ensures
        h.capacity >= 1,
{
    let n = choose|n: nat| n < 16 && #[trigger] pow2(n) == h.capacity as int;
    vstd::arithmetic::power2::lemma_pow2_pos(n);
}

} // verus!
